//! Inspection and reshaping of delimited text tables: delimiter inference,
//! record parsing, column statistics, frequency counts, reservoir sampling,
//! and the stack / paste / filter / select / transpose projections.
//!
//! Every function here works on values held in memory; reading files and
//! writing to the terminal is left to the caller.

pub mod delimiter;
pub mod error;
pub mod text;
pub mod table;
pub mod reshape;
pub mod summary;
pub mod sample;
pub mod preview;
