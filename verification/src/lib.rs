//! Conversion between delimited text and JSON.
//!
//! [`transform::CsvTransform`] selects a part of a value, converts it with
//! [`reading::csv_to_json`] or [`writing::json_to_csv`], and puts the result in
//! its place.

pub mod config;
pub mod delimited;
pub mod document;
pub mod laws;
pub mod reading;
pub mod round_trip;
pub mod text;
pub mod transform;
pub mod tree;
pub mod writing;
