//! Reading, merging and writing of two code-coverage formats: the textual
//! block profile (`mode: ...` followed by one line per block) and the binary
//! execution-data dump made of tagged blocks.

pub mod go;
pub mod jacoco;
pub mod result;

pub use result::{Error, ErrorModel};
