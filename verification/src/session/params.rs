//! What a session knows of its torrent before the first byte arrives.
use vstd::prelude::*;

verus! {

/// Bytes per block, the unit of transfer on the wire.
pub const BLOCK_SIZE: u32 = 16384;

/// A block of a piece.
#[derive(Debug, Clone, Copy, PartialEq, Eq, Hash, Structural)]
pub struct BlockRequest {
    /// Piece index.
    pub piece: u32,
    /// Offset inside the piece.
    pub offset: u32,
    /// Number of bytes.
    pub length: u32,
}

impl BlockRequest {
    /// A request for `length` bytes at `offset` of `piece`.
    pub fn new(piece: u32, offset: u32, length: u32) -> (r: BlockRequest)
        ensures
            r == (BlockRequest { piece, offset, length }),
    {
        BlockRequest { piece, offset, length }
    }
}

/// Static configuration of one torrent.
#[derive(Debug)]
pub struct TorrentParams {
    /// Number of pieces.
    pub piece_count: u32,
    /// Bytes per piece; the last piece may be shorter.
    pub piece_length: u64,
    /// Bytes in all.
    pub total_length: u64,
    /// The pieces' hashes, twenty bytes each.
    pub piece_hashes: Vec<u8>,
    /// The torrent is private: its peers are not to be gossiped.
    pub private: bool,
}

/// Why parameters are not acceptable.
#[derive(Debug, Clone, Copy, PartialEq, Eq, Structural)]
#[non_exhaustive]
pub enum TorrentParamsError {
    /// No pieces.
    ZeroPieceCount,
    /// Pieces without length.
    ZeroPieceLength,
    /// No bytes.
    ZeroTotalLength,
    /// Not twenty bytes of hash per piece.
    PieceHashesLength {
        /// Twenty times the number of pieces.
        expected: usize,
        /// The number of bytes found.
        actual: usize,
    },
    /// More bytes than the pieces can hold.
    TotalLengthOverflow {
        /// Bytes in all.
        total: u64,
        /// Number of pieces.
        piece_count: u32,
        /// Bytes per piece.
        piece_length: u64,
    },
}

/// What torrent parameters hold.
#[verifier::ext_equal]
pub struct ParamsModel {
    /// Number of pieces.
    pub piece_count: u32,
    /// Bytes per piece.
    pub piece_length: u64,
    /// Bytes in all.
    pub total_length: u64,
    /// The pieces' hashes.
    pub piece_hashes: Seq<u8>,
    /// The private flag.
    pub private: bool,
}

/// The smallest number of parts of size `unit` that cover `n`.
pub open spec fn parts(n: int, unit: int) -> int {
    (n + unit - 1) / unit
}

/// `a` or `b`, whichever is smaller.
pub open spec fn min_int(a: int, b: int) -> int {
    if a <= b {
        a
    } else {
        b
    }
}

impl ParamsModel {
    /// Why these parameters are not acceptable, if they are not.
    pub open spec fn defect(self) -> Option<TorrentParamsError> {
        if self.piece_count == 0 {
            Some(TorrentParamsError::ZeroPieceCount)
        } else if self.piece_length == 0 {
            Some(TorrentParamsError::ZeroPieceLength)
        } else if self.total_length == 0 {
            Some(TorrentParamsError::ZeroTotalLength)
        } else if self.piece_hashes.len() != 20 * self.piece_count {
            Some(
                TorrentParamsError::PieceHashesLength {
                    expected: (20 * self.piece_count) as usize,
                    actual: self.piece_hashes.len() as usize,
                },
            )
        } else if self.total_length > self.piece_count * self.piece_length {
            Some(
                TorrentParamsError::TotalLengthOverflow {
                    total: self.total_length,
                    piece_count: self.piece_count,
                    piece_length: self.piece_length,
                },
            )
        } else {
            None
        }
    }

    /// Where piece `p` starts.
    pub open spec fn offset_of(self, p: int) -> int {
        p * self.piece_length
    }

    /// The number of bytes in piece `p`, as far as the wire can count them.
    pub open spec fn size_of(self, p: int) -> u32 {
        min_int(min_int(self.piece_length as int, self.total_length - self.offset_of(p)), u32::MAX as int) as u32
    }

    /// The number of blocks in piece `p`.
    pub open spec fn blocks_of(self, p: int) -> int {
        parts(self.size_of(p) as int, BLOCK_SIZE as int)
    }

    /// The hash of piece `p`.
    pub open spec fn hash_of(self, p: int) -> Seq<u8> {
        self.piece_hashes.subrange(20 * p, 20 * p + 20)
    }

    /// A session can work with these parameters: there are pieces, none starts
    /// behind the end of the torrent, and each has its hash. The last piece may be
    /// short, even empty.
    pub open spec fn workable(self) -> bool {
        &&& self.piece_count > 0
        &&& 20 * self.piece_count <= self.piece_hashes.len()
        &&& self.offset_of(self.piece_count - 1) <= self.total_length
    }
}

/// Where a session can work, every piece starts and ends inside the torrent.
pub proof fn lemma_workable(m: ParamsModel, p: int)
    requires
        m.workable(),
        0 <= p < m.piece_count,
    ensures
        0 <= m.offset_of(p) <= m.total_length,
        m.size_of(p) <= m.piece_length,
        m.offset_of(p) + m.size_of(p) <= m.total_length,
        20 * p + 20 <= m.piece_hashes.len(),
        m.blocks_of(p) >= 0,
        m.blocks_of(p) == 0 <==> m.size_of(p) == 0,
        (m.blocks_of(p) - 1) * BLOCK_SIZE < m.size_of(p) <= m.blocks_of(p) * BLOCK_SIZE,
{
    let len: int = m.piece_length as int;
    assert(0 <= p * len <= (m.piece_count - 1) * len) by (nonlinear_arith)
        requires
            0 <= p <= m.piece_count - 1,
            len >= 0,
    ;
}

/// The pieces of a torrent follow each other without gap or overlap, and the
/// last one ends where the torrent does, wherever no piece is too large to
/// count.
pub proof fn law_pieces_tile_torrent(m: ParamsModel, p: int)
    requires
        m.defect() is None,
        m.workable(),
        m.piece_length <= u32::MAX,
        0 <= p < m.piece_count,
    ensures
        p + 1 < m.piece_count ==> m.offset_of(p) + m.size_of(p) == m.offset_of(p + 1),
        p + 1 == m.piece_count ==> m.offset_of(p) + m.size_of(p) == m.total_length,
{
    lemma_workable(m, p);
    let len: int = m.piece_length as int;
    assert((p + 1) * len == p * len + len) by (nonlinear_arith);
    if p + 1 < m.piece_count {
        lemma_workable(m, p + 1);
    } else {
        assert((p + 1) * len == m.piece_count * len);
    }
}

impl View for TorrentParams {
    type V = ParamsModel;

    open spec fn view(&self) -> ParamsModel {
        ParamsModel {
            piece_count: self.piece_count,
            piece_length: self.piece_length,
            total_length: self.total_length,
            piece_hashes: self.piece_hashes@,
            private: self.private,
        }
    }
}

impl Clone for TorrentParams {
    fn clone(&self) -> (r: Self)
        ensures
            r@ == self@,
    {
        let piece_hashes = self.piece_hashes.clone();
        assert(piece_hashes@ =~= self.piece_hashes@);
        TorrentParams {
            piece_count: self.piece_count,
            piece_length: self.piece_length,
            total_length: self.total_length,
            piece_hashes,
            private: self.private,
        }
    }
}

impl TorrentParams {
    /// The torrent is marked private.
    pub fn is_private(&self) -> (r: bool)
        ensures
            r == self.private,
    {
        self.private
    }

    /// Checks what the session and the disk rely on.
    pub fn validate(&self) -> (r: Result<(), TorrentParamsError>)
        requires
            20 * self.piece_count <= usize::MAX,
        ensures
            match r {
                Ok(_) => self@.defect() is None,
                Err(e) => self@.defect() == Some(e),
            },
    {
        if self.piece_count == 0 {
            return Err(TorrentParamsError::ZeroPieceCount);
        }
        if self.piece_length == 0 {
            return Err(TorrentParamsError::ZeroPieceLength);
        }
        if self.total_length == 0 {
            return Err(TorrentParamsError::ZeroTotalLength);
        }
        let expected: usize = (self.piece_count as usize) * 20;
        if self.piece_hashes.len() != expected {
            return Err(
                TorrentParamsError::PieceHashesLength { expected, actual: self.piece_hashes.len() },
            );
        }
        let count: u128 = self.piece_count as u128;
        let len: u128 = self.piece_length as u128;
        assert(count * len <= 0xffff_ffff * 0xffff_ffff_ffff_ffff) by (nonlinear_arith)
            requires
                0 <= count <= 0xffff_ffff,
                0 <= len <= 0xffff_ffff_ffff_ffff,
        ;
        let max_total: u128 = count * len;
        if self.total_length as u128 > max_total {
            return Err(
                TorrentParamsError::TotalLengthOverflow {
                    total: self.total_length,
                    piece_count: self.piece_count,
                    piece_length: self.piece_length,
                },
            );
        }
        Ok(())
    }

    /// Whether a session can work with these parameters.
    pub fn is_workable(&self) -> (r: bool)
        ensures
            r == self@.workable(),
    {
        if self.piece_count == 0 {
            return false;
        }
        let hashes: u64 = (self.piece_count as u64) * 20;
        if (self.piece_hashes.len() as u64) < hashes {
            return false;
        }
        let before: u128 = (self.piece_count - 1) as u128;
        let len: u128 = self.piece_length as u128;
        assert(before * len <= 0xffff_ffff * 0xffff_ffff_ffff_ffff) by (nonlinear_arith)
            requires
                0 <= before <= 0xffff_ffff,
                0 <= len <= 0xffff_ffff_ffff_ffff,
        ;
        before * len <= self.total_length as u128
    }

    /// The number of bytes in `piece`; the last piece may be short.
    pub fn piece_size(&self, piece: u32) -> (r: u32)
        requires
            piece * self.piece_length <= self.total_length,
        ensures
            r == self@.size_of(piece as int),
    {
        let len: u64 = self.piece_length;
        assert(piece as int * len as int >= 0) by (nonlinear_arith)
            requires
                piece >= 0,
                len >= 0,
        ;
        let start: u64 = (piece as u64) * len;
        let rest: u64 = self.total_length - start;
        let size: u64 = if len <= rest {
            len
        } else {
            rest
        };
        if size <= 0xffff_ffff {
            size as u32
        } else {
            u32::MAX
        }
    }

    /// Where `piece` starts in the torrent.
    pub fn piece_offset(&self, piece: u32) -> (r: u64)
        requires
            piece * self.piece_length <= u64::MAX,
        ensures
            r == self@.offset_of(piece as int),
    {
        assert(piece as int * self.piece_length as int >= 0) by (nonlinear_arith)
            requires
                piece >= 0,
                self.piece_length >= 0,
        ;
        (piece as u64) * self.piece_length
    }

    /// The hash of `piece`.
    pub fn piece_hash(&self, piece: u32) -> (r: [u8; 20])
        requires
            20 * piece + 20 <= self.piece_hashes@.len(),
        ensures
            r@ == self@.hash_of(piece as int),
    {
        let hashes = &self.piece_hashes;
        assert(hashes.len() == hashes@.len());
        let start: usize = (piece as usize) * 20;
        let mut out: [u8; 20] = [0u8; 20];
        let mut i: usize = 0;
        while i < 20
            invariant
                i <= 20,
                start == 20 * piece,
                start + 20 <= hashes@.len(),
                hashes.len() == hashes@.len(),
                forall|j: int| 0 <= j < i ==> out@[j] == hashes@[start + j],
            decreases 20 - i,
        {
            out[i] = hashes[start + i];
            i = i + 1;
        }
        assert(out@ =~= self@.hash_of(piece as int));
        out
    }
}

/// Parameters are taken exactly if there are pieces, they have a length, there are
/// bytes, twenty bytes of hash stand for each piece, and the pieces can hold them
/// all. What is wrong first is what is said.
pub proof fn law_which_parameters_are_taken(m: ParamsModel)
    ensures
        m.defect() is None <==> m.piece_count > 0 && m.piece_length > 0 && m.total_length > 0
            && m.piece_hashes.len() == 20 * m.piece_count && m.total_length <= m.piece_count
            * m.piece_length,
        m.piece_count == 0 ==> m.defect() == Some(TorrentParamsError::ZeroPieceCount),
        (m.piece_count > 0 && m.piece_length == 0) ==> m.defect() == Some(
            TorrentParamsError::ZeroPieceLength,
        ),
        (m.piece_count > 0 && m.piece_length > 0 && m.total_length == 0) ==> m.defect() == Some(
            TorrentParamsError::ZeroTotalLength,
        ),
{
}

/// Each piece has its own twenty bytes of hash, starts behind as many whole pieces
/// as come before it, and is a whole piece or all that is left.
pub proof fn law_each_piece_has_its_place(m: ParamsModel, p: int)
    requires
        m.workable(),
        0 <= p < m.piece_count,
    ensures
        m.offset_of(p) == p * m.piece_length,
        m.hash_of(p).len() == 20,
        forall|i: int| 0 <= i < 20 ==> #[trigger] m.hash_of(p)[i] == m.piece_hashes[20 * p + i],
        ({
            let left = m.total_length - p * m.piece_length;
            &&& (m.piece_length <= left && m.piece_length <= u32::MAX) ==> m.size_of(p)
                == m.piece_length
            &&& (left < m.piece_length && left <= u32::MAX) ==> m.size_of(p) == left
        }),
{
    lemma_workable(m, p);
}

} // verus!
