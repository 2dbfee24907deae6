//! The closed set of failures an engine may report.

use vstd::prelude::*;
use vstd::std_specs::convert::FromSpecImpl;

verus! {

/// Makes `std::io::Error` known to the verifier as an opaque type. Nothing is
/// claimed of what a value of it holds: the library only carries it from
/// where it arose to the caller.
#[verifier::external_type_specification]
#[verifier::external_body]
pub struct ExIoError(std::io::Error);

/// Why an engine operation failed.
#[derive(Debug)]
pub enum KvError {
    /// An entry that the operation needs does not exist. Lookups and scans
    /// never report this: they signal absence through their result.
    NotFound,
    /// The underlying device or transport failed.
    Io(std::io::Error),
    /// Stored data failed an integrity check.
    Corruption(String),
}

/// The result of an engine operation.
pub type Result<T> = std::result::Result<T, KvError>;

impl KvError {
    /// Whether this is a storage-layer fault, the only kind of failure that
    /// lookups, mutations and scans may report.
    pub open spec fn is_storage_fault(self) -> bool {
        self is Io || self is Corruption
    }

    /// Whether a higher layer may retry the operation that failed.
    pub fn is_retryable(&self) -> (r: bool)
        ensures
            r == (*self is Io),
    {
        match self {
            KvError::Io(_) => true,
            _ => false,
        }
    }
}

impl From<std::io::Error> for KvError {
    fn from(e: std::io::Error) -> (r: Self) {
        KvError::Io(e)
    }
}

impl FromSpecImpl<std::io::Error> for KvError {
    open spec fn obeys_from_spec() -> bool {
        true
    }

    open spec fn from_spec(e: std::io::Error) -> Self {
        KvError::Io(e)
    }
}

} // verus!
