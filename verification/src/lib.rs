//! Streaming writer for the NPY numerical-array interchange format.
//!
//! A record type is described at registration time by an ordered list of
//! named fields; from it the library derives the textual dtype descriptor,
//! the fixed byte width of one row, and verified row encode/decode
//! operations. The writer emits the preamble and header first, appends rows
//! one at a time, and patches the true row count into the reserved header
//! region on close.

use vstd::prelude::*;

pub mod bytes;
pub mod digits;
pub mod header;
pub mod out_file;
pub mod record;
pub mod scalar;

pub use out_file::{OutFile, write_all};
pub use record::{FieldDescr, RecordType};
pub use scalar::{Scalar, ScalarKind};

verus! {

/// Failures of layout derivation, header construction and finalization.
/// I/O is outside this crate; every operation here is total on its bytes.
#[derive(Clone, Copy, Debug, PartialEq, Eq, Structural)]
pub enum Error {
    /// A record type must declare at least one field.
    EmptyRecord,
    /// The byte width of one row does not fit in `usize`.
    RecordTooWide,
    /// The header dictionary text exceeds the 2-byte length field.
    HeaderTooLong,
    /// The decimal row count does not fit the reserved placeholder.
    RowCountTooWide,
}

} // verus!
