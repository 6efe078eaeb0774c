use weather_pipeline::{
    key_less, keys_equal, label_less, parse_year_month, GroupKey, SimpleLogger, TemperatureUnit,
};

fn key(location: &str, year: i32, month: u32) -> GroupKey {
    GroupKey {
        location: location.to_string(),
        year,
        month,
    }
}

#[test]
fn parses_dates() {
    assert_eq!(parse_year_month("2020-03-15"), Some((2020, 3)));
    assert_eq!(parse_year_month("1999-12-31"), Some((1999, 12)));
    assert_eq!(parse_year_month("2024-02-29"), Some((2024, 2)));
    assert_eq!(parse_year_month("2023-02-29"), None);
    assert_eq!(parse_year_month("2020-13-01"), None);
    assert_eq!(parse_year_month(""), None);
    assert_eq!(parse_year_month("15/03/2020"), None);
}

#[test]
fn labels_order_by_bytes() {
    let s = |x: &str| x.to_string();
    assert!(label_less(&s("FR"), &s("US")));
    assert!(!label_less(&s("US"), &s("FR")));
    assert!(label_less(&s("US"), &s("US,FR")));
    assert!(label_less(&s("Zz"), &s("a")));
    assert!(!label_less(&s("US"), &s("US")));
    assert!(label_less(&s(""), &s("A")));
}

#[test]
fn keys_order_by_location_year_month() {
    assert!(key_less(&key("FR", 2024, 12), &key("US", 1980, 1)));
    assert!(key_less(&key("US", 2019, 12), &key("US", 2020, 1)));
    assert!(key_less(&key("US", 2020, 2), &key("US", 2020, 10)));
    assert!(!key_less(&key("US", 2020, 2), &key("US", 2020, 2)));
    assert!(keys_equal(&key("US", 2020, 2), &key("US", 2020, 2)));
    assert!(!keys_equal(&key("US", 2020, 2), &key("us", 2020, 2)));
}

#[test]
fn logger_lines() {
    let logger = SimpleLogger;
    assert!(logger.enabled());
    assert_eq!(logger.line("INFO", "started"), "[INFO] started");
    assert_eq!(logger.line("", ""), "[] ");
}

#[test]
fn units_are_distinct() {
    assert_ne!(TemperatureUnit::Celsius, TemperatureUnit::Fahrenheit);
    assert_ne!(TemperatureUnit::Fahrenheit, TemperatureUnit::Kelvin);
    assert_eq!(TemperatureUnit::Kelvin, TemperatureUnit::Kelvin.clone());
}
