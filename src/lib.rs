//! Grouping engine for daily weather observations: date parsing, location and
//! year-range filtering, bucketing into (location, year, month) groups in key order,
//! and the rank arithmetic behind the median and the percentiles of each bucket.

pub mod date;
pub mod group;
pub mod order;
pub mod rank;
pub mod structs;

pub use date::{parse_year_month, year_month_of};
pub use group::{
    group_observations, key_less, keys_equal, location_label, row_key, row_key_from_date, Group,
    GroupAccumulator, GroupKey, Observation,
};
pub use order::label_less;
pub use rank::{median_ranks, percentile_ranks};
pub use structs::{SimpleLogger, TemperatureUnit};
