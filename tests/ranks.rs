use weather_pipeline::{median_ranks, percentile_ranks};

fn percentile(sorted: &[f64], p: u32) -> f64 {
    let (lower, upper) = percentile_ranks(sorted.len(), p);
    if lower == upper {
        sorted[lower]
    } else {
        let index = (p as f64 / 100.0) * (sorted.len() - 1) as f64;
        let weight = index - lower as f64;
        sorted[lower] * (1.0 - weight) + sorted[upper] * weight
    }
}

fn median(sorted: &[f64]) -> f64 {
    let (lower, upper) = median_ranks(sorted.len());
    if lower == upper {
        sorted[lower]
    } else {
        (sorted[lower] + sorted[upper]) / 2.0
    }
}

#[test]
fn ranks_of_four_values() {
    assert_eq!(percentile_ranks(4, 25), (0, 1));
    assert_eq!(percentile_ranks(4, 75), (2, 3));
    assert_eq!(percentile_ranks(4, 90), (2, 3));
    assert_eq!(percentile_ranks(4, 95), (2, 3));
    assert_eq!(median_ranks(4), (1, 2));
}

#[test]
fn whole_indices_give_one_rank() {
    assert_eq!(percentile_ranks(5, 25), (1, 1));
    assert_eq!(percentile_ranks(5, 75), (3, 3));
    assert_eq!(percentile_ranks(11, 90), (9, 9));
    assert_eq!(percentile_ranks(21, 95), (19, 19));
    assert_eq!(median_ranks(5), (2, 2));
}

#[test]
fn single_value_ranks() {
    assert_eq!(percentile_ranks(1, 95), (0, 0));
    assert_eq!(percentile_ranks(1, 25), (0, 0));
    assert_eq!(median_ranks(1), (0, 0));
}

#[test]
fn extreme_percentiles() {
    assert_eq!(percentile_ranks(10, 0), (0, 0));
    assert_eq!(percentile_ranks(10, 100), (9, 9));
    assert_eq!(percentile_ranks(usize::MAX, 100), (usize::MAX - 1, usize::MAX - 1));
}

#[test]
fn summary_of_four_values() {
    let sorted = [0.0, 10.0, 20.0, 30.0];
    assert_eq!(median(&sorted), 15.0);
    assert_eq!(percentile(&sorted, 25), 7.5);
    assert_eq!(percentile(&sorted, 75), 22.5);
    assert!((percentile(&sorted, 90) - 27.0).abs() < 1e-9);
    assert!((percentile(&sorted, 95) - 28.5).abs() < 1e-9);
}

#[test]
fn summary_ranks_ordered() {
    for n in 1..200usize {
        let (m0, m1) = median_ranks(n);
        let p25 = percentile_ranks(n, 25);
        let p75 = percentile_ranks(n, 75);
        let p90 = percentile_ranks(n, 90);
        let p95 = percentile_ranks(n, 95);
        assert!(p25.0 <= m0 && m0 <= p75.0 && p75.0 <= p90.0 && p90.0 <= p95.0);
        assert!(p25.1 <= m1 && m1 <= p75.1 && p75.1 <= p90.1 && p90.1 <= p95.1);
        assert!(p95.1 < n);
    }
}
