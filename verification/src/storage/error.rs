//! Storage failures.
use vstd::prelude::*;

verus! {

/// A failed storage operation.
#[derive(Debug)]
pub struct StorageError {
    /// What failed.
    pub kind: StorageErrorKind,
}

/// The ways in which storage fails.
#[derive(Debug)]
#[non_exhaustive]
pub enum StorageErrorKind {
    /// A read or write ran past the end.
    OutOfBounds {
        /// Where it began.
        offset: u64,
        /// How many bytes it wanted.
        len: u64,
        /// How many bytes there are.
        capacity: u64,
    },
    /// The underlying storage failed.
    Io(String),
    /// A path of a layout over several files is not acceptable.
    Path(String),
}

impl StorageError {
    /// A failure of the given kind.
    pub(crate) fn new(kind: StorageErrorKind) -> (r: StorageError)
        ensures
            r.kind == kind,
    {
        StorageError { kind }
    }

    /// A path that is not acceptable, and why.
    pub fn path(why: String) -> (r: StorageError)
        ensures
            r.path_text() == Some(why@),
    {
        StorageError::new(StorageErrorKind::Path(why))
    }

    /// What a path failure says.
    pub open spec fn path_text(self) -> Option<Seq<char>> {
        match self.kind {
            StorageErrorKind::Path(why) => Some(why@),
            _ => None,
        }
    }

    /// The failure is that `len` bytes at `offset` are outside of `capacity`.
    pub open spec fn out_of_bounds(self, offset: u64, len: u64, capacity: u64) -> bool {
        self.kind == (StorageErrorKind::OutOfBounds { offset, len, capacity })
    }
}

/// Refuses a range that is not inside `capacity` bytes.
pub fn bounds_check(offset: u64, len: u64, capacity: u64) -> (r: Result<(), StorageError>)
    ensures
        match r {
            Ok(_) => offset + len <= capacity,
            Err(e) => offset + len > capacity && e.out_of_bounds(offset, len, capacity),
        },
{
    match offset.checked_add(len) {
        Some(end) => {
            if end > capacity {
                Err(StorageError::new(StorageErrorKind::OutOfBounds { offset, len, capacity }))
            } else {
                Ok(())
            }
        },
        None => Err(StorageError::new(StorageErrorKind::OutOfBounds { offset, len, capacity })),
    }
}

} // verus!
