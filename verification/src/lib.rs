//! Conversions between Unix timestamps and UTC calendar text, and a validator
//! for `HH:MM:SS[.mmm]` time literals.

pub mod calendar;
pub mod chrono_calls;
pub mod text;
pub mod time_format;
pub mod time_literal;
pub mod timestamp;

pub use time_format::is_valid_time_format;
pub use timestamp::{
    date_time_to_time_stamp, get_unix_timestamp_ms, has_date_time_shape,
    is_supported_ordinal_date, is_supported_timestamp, is_written_instant,
    time_stamp_from_year_and_day, time_stamp_to_date, time_stamp_to_date_time,
    time_stamp_to_time,
};
