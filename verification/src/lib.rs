//! Per-key aggregate statistics (minimum, maximum, arithmetic mean) over a
//! delimited text file of `key;value` records, computed by a parallel
//! chunked scan-and-reduce pipeline.
//!
//! Values carry exactly one fractional decimal digit, so every quantity in
//! this crate is an exact integer number of tenths; no floating point is
//! involved anywhere in the pipeline.
//!
//! The stages, leaves first: [`numeral`] parses and renders the decimal
//! value format, [`record`] splits one line into key and value, [`stats`]
//! keeps one key's running aggregate, [`chunk`] plans line-aligned byte
//! ranges of the file, [`worker`] scans one range into a private
//! [`table::Table`], [`table`] merges tables key by key, and [`report`]
//! sorts the global table and renders the output text.  The process
//! around the library reads the file, runs one worker per chunk and
//! writes the report out.

pub mod chunk;
pub mod errors;
pub mod keys;
pub mod numeral;
pub mod record;
pub mod report;
pub mod stats;
pub mod table;
pub mod worker;
