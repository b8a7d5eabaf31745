//! The parts of the store: record layout, in-memory store, and the index of
//! the disk-backed store.
use vstd::prelude::*;

use crate::database::format::FormatError;

pub mod disk_store;
pub mod format;
pub mod memory_store;

verus! {

#[verifier::external_type_specification]
#[verifier::external_body]
pub struct ExIoError(std::io::Error);

/// Why an operation of the disk-backed store failed.
#[derive(Debug)]
pub enum DatabaseError {
    /// The file system refused a read, write or seek.
    Io(std::io::Error),
    /// The database file does not hold well-formed records.
    Format(FormatError),
}

impl From<std::io::Error> for DatabaseError {
    fn from(error: std::io::Error) -> (converted: Self) {
        DatabaseError::Io(error)
    }
}

impl vstd::std_specs::convert::FromSpecImpl<std::io::Error> for DatabaseError {
    open spec fn obeys_from_spec() -> bool {
        true
    }

    open spec fn from_spec(error: std::io::Error) -> Self {
        DatabaseError::Io(error)
    }
}

} // verus!
