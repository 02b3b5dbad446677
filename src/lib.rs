//! Tabular genomic records (BED and narrow-peak lines) with exact
//! field-level round trips, tab-separated text parsing, and a
//! coordinate-checked merge of per-track depth files into one matrix.

pub mod chunk;
pub mod decimal;
pub mod fixed;
pub mod matrix;
pub mod record;
pub mod table;
pub mod text;
