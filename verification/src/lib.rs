//! Conversion of BSON dumps to tabular output: field selection by dotted paths,
//! filtering, typed columns, CSV and Parquet rows, and splitting into chunk files.

use vstd::prelude::*;

pub mod csv_sink;
pub mod document;
pub mod double;
pub mod field_type;
pub mod filter;
pub mod frame;
pub mod parquet_sink;
pub mod pipeline;
pub mod record;
pub mod rotating_sink;
pub mod text;
pub mod value;

verus! {

/// Output file format.
#[derive(Copy, Clone, Debug, PartialEq, Eq, Structural)]
pub enum OutputFormat {
    Csv,
    Parquet,
}

} // verus!
