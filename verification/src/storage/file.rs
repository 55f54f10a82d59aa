//! Transfers to and from one file, and the removal of files: what follows on
//! each answer of the operating system.
use crate::storage::error::{StorageError, StorageErrorKind};
use vstd::prelude::*;

verus! {

/// Which way bytes go.
#[derive(Debug, Clone, Copy, PartialEq, Eq, Structural)]
pub enum Direction {
    /// Out of the file.
    Read,
    /// Into the file.
    Write,
}

/// What came of one attempt to move bytes.
#[derive(Debug)]
pub enum IoOutcome {
    /// So many bytes were moved.
    Moved(usize),
    /// The attempt was interrupted.
    Interrupted,
    /// It failed.
    Failed(String),
}

/// Why a transfer cannot be completed.
#[derive(Debug)]
pub enum TransferFault {
    /// The file takes no more bytes.
    WriteZero,
    /// The file has no more bytes.
    UnexpectedEof,
    /// The operating system failed.
    Backend(String),
}

/// What follows on an attempt.
#[derive(Debug)]
pub enum TransferTurn {
    /// Try again with what is left.
    Again,
    /// Everything was moved.
    Finished,
    /// The transfer fails.
    Failed(TransferFault),
}

/// A transfer of a whole buffer in as many attempts as it takes.
#[derive(Debug)]
pub struct Transfer {
    direction: Direction,
    offset: u64,
    total: usize,
    done: usize,
}

impl Transfer {
    /// Which way bytes go.
    pub closed spec fn way(&self) -> Direction {
        self.direction
    }

    /// Where in the file the buffer stands.
    pub closed spec fn base(&self) -> int {
        self.offset as int
    }

    /// The length of the buffer.
    pub closed spec fn length(&self) -> int {
        self.total as int
    }

    /// How many bytes were moved.
    pub closed spec fn moved(&self) -> int {
        self.done as int
    }

    /// No more was moved than there is, and the file offsets can be counted.
    pub open spec fn wf(&self) -> bool {
        &&& 0 <= self.base()
        &&& 0 <= self.moved() <= self.length()
        &&& self.base() + self.length() <= u64::MAX
    }

    /// A transfer of `total` bytes at `offset`.
    pub fn new(direction: Direction, offset: u64, total: usize) -> (r: Transfer)
        requires
            offset + total <= u64::MAX,
        ensures
            r.wf(),
            r.way() == direction,
            r.base() == offset,
            r.length() == total,
            r.moved() == 0,
    {
        Transfer { direction, offset, total, done: 0 }
    }

    /// What to attempt next: from which byte of the buffer on, and where in the
    /// file. Nothing when everything was moved.
    pub fn next(&self) -> (r: Option<(usize, u64)>)
        requires
            self.wf(),
        ensures
            match r {
                Some((from, at)) => self.moved() < self.length() && from == self.moved() && at
                    == self.base() + self.moved(),
                None => self.moved() == self.length(),
            },
    {
        if self.done < self.total {
            Some((self.done, self.offset + self.done as u64))
        } else {
            None
        }
    }

    /// Takes note of an attempt. An attempt that moved nothing ends the
    /// transfer, an interrupted one is repeated.
    pub fn on_outcome(&mut self, outcome: IoOutcome) -> (r: TransferTurn)
        requires
            old(self).wf(),
            old(self).moved() < old(self).length(),
            outcome matches IoOutcome::Moved(n) ==> n <= old(self).length() - old(self).moved(),
        ensures
            final(self).wf(),
            final(self).way() == old(self).way(),
            final(self).base() == old(self).base(),
            final(self).length() == old(self).length(),
            final(self).moved() == old(self).moved() + (match outcome {
                IoOutcome::Moved(n) => n as int,
                _ => 0,
            }),
            match outcome {
                IoOutcome::Moved(n) => if n == 0 {
                    r == TransferTurn::Failed(
                        match old(self).way() {
                            Direction::Read => TransferFault::UnexpectedEof,
                            Direction::Write => TransferFault::WriteZero,
                        },
                    )
                } else if final(self).moved() == final(self).length() {
                    r is Finished
                } else {
                    r is Again
                },
                IoOutcome::Interrupted => r is Again,
                IoOutcome::Failed(why) => r == TransferTurn::Failed(TransferFault::Backend(why)),
            },
    {
        match outcome {
            IoOutcome::Moved(n) => {
                if n == 0 {
                    return TransferTurn::Failed(
                        match self.direction {
                            Direction::Read => TransferFault::UnexpectedEof,
                            Direction::Write => TransferFault::WriteZero,
                        },
                    );
                }
                self.done = self.done + n;
                if self.done == self.total {
                    TransferTurn::Finished
                } else {
                    TransferTurn::Again
                }
            },
            IoOutcome::Interrupted => TransferTurn::Again,
            IoOutcome::Failed(why) => TransferTurn::Failed(TransferFault::Backend(why)),
        }
    }
}

/// What came of removing a file.
#[derive(Debug)]
pub enum Removal {
    /// It is gone.
    Removed,
    /// It was not there.
    NotFound,
    /// It could not be removed.
    Failed(String),
}

/// Whether the removal of a layout's files goes on. A file that was not there
/// is as good as removed.
pub fn after_removal(outcome: Removal) -> (r: Result<(), StorageError>)
    ensures
        match outcome {
            Removal::Failed(why) => r is Err && r->Err_0.kind == StorageErrorKind::Io(why),
            _ => r is Ok,
        },
{
    match outcome {
        Removal::Failed(why) => Err(StorageError::new(StorageErrorKind::Io(why))),
        _ => Ok(()),
    }
}

/// The depth below the root of the directory to prune next, after an attempt on
/// one at `depth`: its parent when it was empty and is gone, and that parent is
/// not the root itself.
pub fn next_prune(depth: usize, removed: bool) -> (r: Option<usize>)
    ensures
        r == (if removed && depth > 1 {
            Some((depth - 1) as usize)
        } else {
            None
        }),
{
    if removed && depth > 1 {
        Some(depth - 1)
    } else {
        None
    }
}

} // verus!
