//! Per-key minimum, mean and maximum of fixed-point readings, aggregated
//! from newline-delimited `key;reading` records in newline-aligned chunks.

pub mod aggregate;
pub mod chunk;
pub mod error;
pub mod order;
pub mod pipeline;
pub mod record;
pub mod splitter;
pub mod station_data;
pub mod table;
pub mod values;
