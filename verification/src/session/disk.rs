//! Disk work: pieces are verified before they are written, blocks are read, and
//! outcomes are counted.
use crate::blob::{blob, blob_bytes, blob_from_vec};
use crate::lex::bytes_equal;
use crate::arith::{wrapped, wrapping};
use crate::storage::traits::{law_read_gives_back_write, spliced, Storage};
use bytes::Bytes;
use vstd::prelude::*;

verus! {

/// Usual number of operations that can wait.
pub const DEFAULT_DISK_QUEUE_CAPACITY: usize = 64;

/// Why a disk operation failed.
#[derive(Debug, Clone, Copy, PartialEq, Eq, Structural)]
#[non_exhaustive]
pub enum DiskError {
    /// The bytes do not have the expected hash.
    HashMismatch,
    /// The storage failed.
    Io,
}

/// A disk operation.
#[derive(Debug)]
#[non_exhaustive]
pub enum DiskOp {
    /// Verify a piece and write it.
    VerifyAndWrite {
        /// Piece index.
        piece: u32,
        /// Where it starts.
        offset: u64,
        /// Its bytes.
        buffer: Bytes,
        /// The hash that it must have.
        expected_hash: [u8; 20],
        /// The hash that it has.
        digest: [u8; 20],
    },
    /// Read a block.
    Read {
        /// Piece index.
        piece: u32,
        /// Where it starts.
        offset: u64,
        /// Its length.
        length: u32,
    },
    /// End the work.
    Shutdown,
}

/// What came of verifying and writing a piece.
#[derive(Debug, Clone, Copy, PartialEq, Eq)]
pub struct DiskCompletion {
    /// Piece index.
    pub piece: u32,
    /// The outcome.
    pub result: Result<(), DiskError>,
}

/// What came of a disk operation.
#[derive(Debug)]
pub enum DiskReply {
    /// A piece was dealt with.
    Completion(DiskCompletion),
    /// A block was read, or not.
    Block(Result<Bytes, DiskError>),
    /// The work is over.
    Stopped,
}

/// Counters of disk work.
#[derive(Debug, Clone, Copy, PartialEq, Eq, Structural)]
pub struct DiskMetrics {
    /// Pieces that were verified and written.
    pub pieces_written: u64,
    /// Their bytes.
    pub bytes_written: u64,
    /// Pieces that had another hash.
    pub piece_verify_fail: u64,
    /// Failures of the storage.
    pub io_failures: u64,
}

impl Default for DiskMetrics {
    fn default() -> (r: Self)
        ensures
            r == (DiskMetrics {
                pieces_written: 0,
                bytes_written: 0,
                piece_verify_fail: 0,
                io_failures: 0,
            }),
    {
        DiskMetrics { pieces_written: 0, bytes_written: 0, piece_verify_fail: 0, io_failures: 0 }
    }
}

impl DiskMetrics {
    /// The counters after a piece of `len` bytes was dealt with.
    pub open spec fn after_write(self, result: Result<(), DiskError>, len: u64) -> DiskMetrics {
        match result {
            Ok(_) => DiskMetrics {
                pieces_written: wrapped(self.pieces_written, 1),
                bytes_written: wrapped(self.bytes_written, len),
                ..self
            },
            Err(DiskError::HashMismatch) => DiskMetrics {
                piece_verify_fail: wrapped(self.piece_verify_fail, 1),
                ..self
            },
            Err(DiskError::Io) => DiskMetrics {
                io_failures: wrapped(self.io_failures, 1),
                ..self
            },
        }
    }

    /// The counters after a block was read, or not.
    pub open spec fn after_read(self, failed: bool) -> DiskMetrics {
        if failed {
            DiskMetrics { io_failures: wrapped(self.io_failures, 1), ..self }
        } else {
            self
        }
    }

    /// Counts a piece that was dealt with.
    pub fn note_write(&mut self, result: Result<(), DiskError>, len: u64)
        ensures
            *final(self) == old(self).after_write(result, len),
    {
        match result {
            Ok(_) => {
                self.pieces_written = wrapping(self.pieces_written, 1);
                self.bytes_written = wrapping(self.bytes_written, len);
            },
            Err(DiskError::HashMismatch) => {
                self.piece_verify_fail = wrapping(self.piece_verify_fail, 1);
            },
            Err(DiskError::Io) => {
                self.io_failures = wrapping(self.io_failures, 1);
            },
        }
    }

    /// Counts a block that was read, or not.
    pub fn note_read(&mut self, failed: bool)
        ensures
            *final(self) == old(self).after_read(failed),
    {
        if failed {
            self.io_failures = wrapping(self.io_failures, 1);
        }
    }
}

/// What comes of verifying and writing `buffer`, from the stored bytes `before`
/// and `after`. A storage that never fails (`steady`) refuses nothing that fits.
pub open spec fn committed(
    steady: bool,
    before: Seq<u8>,
    after: Seq<u8>,
    offset: u64,
    buffer: Seq<u8>,
    genuine: bool,
    r: Result<(), DiskError>,
) -> bool {
    &&& after.len() == before.len()
    &&& offset + buffer.len() > before.len() ==> r is Err
    &&& (steady && genuine && offset + buffer.len() <= before.len()) ==> r is Ok
    &&& (steady && r is Err) ==> after == before
    &&& match r {
        Ok(_) => genuine && after == spliced(before, offset as int, buffer),
        Err(DiskError::HashMismatch) => !genuine && after == before,
        Err(DiskError::Io) => genuine,
    }
}

/// What comes of reading a block, from the stored bytes. A storage that never
/// fails (`steady`) gives every block that it has.
pub open spec fn block_read(
    steady: bool,
    stored: Seq<u8>,
    offset: u64,
    length: u32,
    r: Result<Bytes, DiskError>,
) -> bool {
    &&& offset + length > stored.len() ==> r is Err
    &&& (steady && offset + length <= stored.len()) ==> r is Ok
    &&& match r {
        Ok(b) => blob(b) == stored.subrange(offset as int, offset + length),
        Err(e) => e == DiskError::Io,
    }
}

/// Writes `buffer` at `offset` if its hash is the expected one. Another hash
/// leaves the storage as it is.
pub fn verify_and_commit<S: Storage>(
    buffer: &[u8],
    digest: &[u8; 20],
    expected: &[u8; 20],
    storage: &mut S,
    offset: u64,
) -> (r: Result<(), DiskError>)
    ensures
        final(storage).never_fails() == old(storage).never_fails(),
        committed(
            old(storage).never_fails(),
            old(storage).contents(),
            final(storage).contents(),
            offset,
            buffer@,
            digest@ == expected@,
            r,
        ),
{
    if !bytes_equal(digest.as_slice(), expected.as_slice()) {
        return Err(DiskError::HashMismatch);
    }
    match storage.write_block(offset, buffer) {
        Ok(_) => Ok(()),
        Err(_) => Err(DiskError::Io),
    }
}

/// Reads a block.
pub fn read_piece<S: Storage>(storage: &S, offset: u64, length: u32) -> (r: Result<
    Bytes,
    DiskError,
>)
    ensures
        block_read(storage.never_fails(), storage.contents(), offset, length, r),
{
    let mut buf: Vec<u8> = vec![0u8; length as usize];
    match storage.read_block(offset, buf.as_mut_slice()) {
        Ok(_) => Ok(blob_from_vec(buf)),
        Err(_) => Err(DiskError::Io),
    }
}

/// Does disk work on a storage and counts it.
#[derive(Debug)]
pub struct DiskWriter<S: Storage> {
    storage: S,
    metrics: DiskMetrics,
}

impl<S: Storage> DiskWriter<S> {
    /// The bytes that are stored.
    pub closed spec fn stored(&self) -> Seq<u8> {
        self.storage.contents()
    }

    /// Whether the storage never fails.
    pub closed spec fn steady(&self) -> bool {
        self.storage.never_fails()
    }

    /// The counters.
    pub closed spec fn counted(&self) -> DiskMetrics {
        self.metrics
    }

    /// A writer to a storage.
    pub fn new(storage: S) -> (r: DiskWriter<S>)
        ensures
            r.stored() == storage.contents(),
            r.steady() == storage.never_fails(),
            r.counted() == (DiskMetrics {
                pieces_written: 0,
                bytes_written: 0,
                piece_verify_fail: 0,
                io_failures: 0,
            }),
    {
        DiskWriter { storage, metrics: DiskMetrics::default() }
    }

    /// The counters.
    pub fn metrics(&self) -> (r: DiskMetrics)
        ensures
            r == self.counted(),
    {
        self.metrics
    }

    /// The storage.
    pub fn storage(&self) -> (r: &S)
        ensures
            r.contents() == self.stored(),
            r.never_fails() == self.steady(),
    {
        &self.storage
    }

    /// Does one operation.
    pub fn perform(&mut self, op: DiskOp) -> (r: DiskReply)
        ensures
            final(self).steady() == old(self).steady(),
            match (op, r) {
                (
                    DiskOp::VerifyAndWrite { piece, offset, buffer, expected_hash, digest },
                    DiskReply::Completion(done),
                ) => {
                    &&& done.piece == piece
                    &&& committed(
                        old(self).steady(),
                        old(self).stored(),
                        final(self).stored(),
                        offset,
                        blob(buffer),
                        digest@ == expected_hash@,
                        done.result,
                    )
                    &&& final(self).counted() == old(self).counted().after_write(
                        done.result,
                        blob(buffer).len() as u64,
                    )
                },
                (DiskOp::Read { piece: _, offset, length }, DiskReply::Block(got)) => {
                    &&& final(self).stored() == old(self).stored()
                    &&& block_read(old(self).steady(), old(self).stored(), offset, length, got)
                    &&& final(self).counted() == old(self).counted().after_read(got is Err)
                },
                (DiskOp::Shutdown, DiskReply::Stopped) => {
                    &&& final(self).stored() == old(self).stored()
                    &&& final(self).counted() == old(self).counted()
                },
                _ => false,
            },
    {
        match op {
            DiskOp::Shutdown => DiskReply::Stopped,
            DiskOp::VerifyAndWrite { piece, offset, buffer, expected_hash, digest } => {
                let bytes = blob_bytes(&buffer);
                let len: u64 = bytes.len() as u64;
                let result = verify_and_commit(
                    bytes,
                    &digest,
                    &expected_hash,
                    &mut self.storage,
                    offset,
                );
                self.metrics.note_write(result, len);
                DiskReply::Completion(DiskCompletion { piece, result })
            },
            DiskOp::Read { piece: _, offset, length } => {
                let got = read_piece(&self.storage, offset, length);
                self.metrics.note_read(got.is_err());
                DiskReply::Block(got)
            },
        }
    }
}

/// What was written after it was verified is what is read, and a storage that
/// never fails does give it back.
pub proof fn law_written_piece_is_read_back(
    steady: bool,
    before: Seq<u8>,
    after: Seq<u8>,
    offset: u64,
    buffer: Seq<u8>,
    genuine: bool,
    got: Result<Bytes, DiskError>,
)
    requires
        committed(steady, before, after, offset, buffer, genuine, Ok(())),
        buffer.len() <= u32::MAX,
        block_read(steady, after, offset, buffer.len() as u32, got),
    ensures
        genuine,
        got is Ok ==> blob(got->Ok_0) == buffer,
        steady ==> got is Ok,
{
    law_read_gives_back_write(before, offset as int, buffer);
}

/// A piece counts once, and in one place: as written, as refused for its hash,
/// or as failed.
pub proof fn law_each_piece_counts_once(m: DiskMetrics, result: Result<(), DiskError>, len: u64)
    requires
        m.pieces_written < u64::MAX,
        m.piece_verify_fail < u64::MAX,
        m.io_failures < u64::MAX,
    ensures
        ({
            let after = m.after_write(result, len);
            &&& after.pieces_written + after.piece_verify_fail + after.io_failures
                == m.pieces_written + m.piece_verify_fail + m.io_failures + 1
            &&& after.pieces_written > m.pieces_written <==> result is Ok
            &&& result is Err ==> after.bytes_written == m.bytes_written
        }),
{
}

/// What became of a piece tells what became of the storage: it was written where
/// it belongs, and nowhere else, only if it had its hash; one with another hash
/// changed nothing; and one with its hash that did not get written met a failure.
pub proof fn law_only_genuine_pieces_are_written(
    steady: bool,
    before: Seq<u8>,
    after: Seq<u8>,
    offset: u64,
    buffer: Seq<u8>,
    genuine: bool,
    r: Result<(), DiskError>,
)
    requires
        committed(steady, before, after, offset, buffer, genuine, r),
    ensures
        after.len() == before.len(),
        !genuine ==> r == Err::<(), DiskError>(DiskError::HashMismatch) && after == before,
        r is Ok ==> {
            &&& genuine
            &&& offset + buffer.len() <= before.len()
            &&& forall|i: int|
                0 <= i < before.len() ==> #[trigger] after[i] == (if offset <= i < offset
                    + buffer.len() {
                    buffer[i - offset]
                } else {
                    before[i]
                })
        },
        (genuine && steady && offset + buffer.len() <= before.len()) ==> r is Ok,
        (genuine && offset + buffer.len() > before.len()) ==> r == Err::<(), DiskError>(
            DiskError::Io,
        ),
{
}

/// A block that was read is what is stored at its place, as long as was asked for.
pub proof fn law_read_block_is_what_is_stored(
    steady: bool,
    stored: Seq<u8>,
    offset: u64,
    length: u32,
    r: Result<Bytes, DiskError>,
)
    requires
        block_read(steady, stored, offset, length, r),
    ensures
        r matches Ok(b) ==> {
            &&& blob(b).len() == length
            &&& offset + length <= stored.len()
            &&& forall|i: int| 0 <= i < length ==> #[trigger] blob(b)[i] == stored[offset + i]
        },
        (steady && offset + length <= stored.len()) ==> r is Ok,
        r matches Err(e) ==> e == DiskError::Io,
{
}

/// What is counted is what happened: a written piece with its bytes, a piece with
/// another hash, a failure; a read counts only where it failed.
pub proof fn law_counters_tell_what_happened(m: DiskMetrics, len: u64, failed: bool)
    requires
        m.pieces_written < u64::MAX,
        m.piece_verify_fail < u64::MAX,
        m.io_failures < u64::MAX,
        m.bytes_written + len <= u64::MAX,
    ensures
        m.after_write(Ok(()), len) == (DiskMetrics {
            pieces_written: (m.pieces_written + 1) as u64,
            bytes_written: (m.bytes_written + len) as u64,
            ..m
        }),
        m.after_write(Err(DiskError::HashMismatch), len) == (DiskMetrics {
            piece_verify_fail: (m.piece_verify_fail + 1) as u64,
            ..m
        }),
        m.after_write(Err(DiskError::Io), len) == (DiskMetrics {
            io_failures: (m.io_failures + 1) as u64,
            ..m
        }),
        !failed ==> m.after_read(failed) == m,
        failed ==> m.after_read(failed) == (DiskMetrics {
            io_failures: (m.io_failures + 1) as u64,
            ..m
        }),
{
}

} // verus!
