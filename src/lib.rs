//! Reconstruction of heart-rate series from text exports: classification of lines into samples
//! and instants, positional pairing, stable ordering by instant, and line-protocol encoding.

pub mod text;
pub mod sample;
pub mod timestamp;
pub mod records;
pub mod encode;
pub mod batch;

pub use batch::{device_id_or_default, join_lines, prepare_batch, Config};
pub use encode::{encode_records, escape_device_id, int_to_text, to_influxdb_line};
pub use records::{classify, pair_records, parse_heart_rate_data, ParseError, HeartRateRecord};
pub use sample::{parse_sample, Sample};
pub use timestamp::{parse_chinese_datetime, LocalTime};
