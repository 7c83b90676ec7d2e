//! The library's error type.
use vstd::prelude::*;

verus! {

/// Everything that can go wrong in the library.
#[derive(Debug)]
#[allow(inconsistent_fields)]
pub enum Error {
    Io(String),
    Json(String),
    Csv(String),
    Crypto(String),
    Integrity(String),
    TableNotFound(String),
    TableExists(String),
    ColumnNotFound(String),
    ColumnNotInTable(String, String),
    InvalidColumnIndex(usize),
    NotOpen,
    InvalidPassword,
    InvalidFormat(String),
    InvalidInput(String),
    DatabaseLocked,
    VersionMismatch { expected: u8, actual: u8 },
    WeakPassphrase(String),
    TypeMismatch { column: String, expected: String, actual: String },
    Parse(String),
    Lock(String),
    DuplicateColumn(String),
    ValueCountMismatch { expected: usize, actual: usize },
    Schema(String),
}

} // verus!
