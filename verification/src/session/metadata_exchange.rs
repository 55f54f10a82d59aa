//! Assembly of the info dictionary of a magnet link from its pieces.
use crate::blob::{blob, blob_bytes};
use crate::ids::PeerSlot;
use crate::lex::{append_bytes, bytes_equal};
use crate::session::info::Info;
use crate::session::params::{parts, ParamsModel, TorrentParams};
use crate::text::{hex_encode, hex_text, number_text, push_number, text};
use bytes::Bytes;
use std::collections::HashMap;
use vstd::prelude::*;

verus! {

broadcast use vstd::std_specs::hash::group_hash_axioms;

/// Bytes per metadata piece.
pub const METADATA_PIECE_SIZE: u64 = 16384;

/// Most bytes of metadata that are taken.
pub const MAX_METADATA_SIZE: u64 = 16_777_216;

/// Most pieces that fetched metadata may declare.
pub const MAX_METADATA_PIECES: u32 = 2_000_000;

/// Longest piece that fetched metadata may declare.
pub const MAX_METADATA_PIECE_LENGTH: u64 = 67_108_864;

/// Why metadata cannot be used.
#[derive(Debug)]
#[non_exhaustive]
pub enum MetadataAssemblyError {
    /// Its hash is not the info hash.
    HashMismatch {
        /// The info hash in hexadecimal.
        expected: String,
        /// The hash found in hexadecimal.
        got: String,
    },
    /// It is no info dictionary that can be used.
    ParseFailed(String),
    /// No peer told its size yet.
    SizeUnknown,
    /// Pieces are missing.
    Incomplete {
        /// Pieces here.
        received: u32,
        /// Pieces in all.
        total: u32,
    },
}

/// What a metadata error says.
pub enum MetadataFault {
    /// Its hash is not the info hash.
    HashMismatch {
        /// The info hash in hexadecimal.
        expected: Seq<char>,
        /// The hash found in hexadecimal.
        got: Seq<char>,
    },
    /// It is no info dictionary that can be used.
    ParseFailed(Seq<char>),
    /// No peer told its size yet.
    SizeUnknown,
    /// Pieces are missing.
    Incomplete {
        /// Pieces here.
        received: u32,
        /// Pieces in all.
        total: u32,
    },
}

impl View for MetadataAssemblyError {
    type V = MetadataFault;

    open spec fn view(&self) -> MetadataFault {
        match *self {
            MetadataAssemblyError::HashMismatch { expected, got } => MetadataFault::HashMismatch {
                expected: expected@,
                got: got@,
            },
            MetadataAssemblyError::ParseFailed(why) => MetadataFault::ParseFailed(why@),
            MetadataAssemblyError::SizeUnknown => MetadataFault::SizeUnknown,
            MetadataAssemblyError::Incomplete { received, total } => MetadataFault::Incomplete {
                received,
                total,
            },
        }
    }
}

/// Collects the pieces of an info dictionary.
#[derive(Debug)]
pub struct MetadataAssembler {
    info_hash: [u8; 20],
    total_size: Option<u64>,
    pieces: Vec<Option<Bytes>>,
    pending_requests: HashMap<u32, PeerSlot>,
}

/// What an assembler holds.
#[verifier::ext_equal]
pub struct AssemblerModel {
    /// The hash that the metadata must have.
    pub info_hash: Seq<u8>,
    /// Its size, once a peer told it.
    pub total_size: Option<u64>,
    /// The pieces that are here.
    pub pieces: Seq<Option<Seq<u8>>>,
    /// The pieces asked for, and of whom.
    pub pending: Map<u32, PeerSlot>,
}

/// What each slot of a vector of buffers holds.
pub open spec fn blobs(v: Seq<Option<Bytes>>) -> Seq<Option<Seq<u8>>> {
    Seq::new(
        v.len(),
        |i: int|
            match v[i] {
                Some(b) => Some(blob(b)),
                None => None,
            },
    )
}

/// The pieces one after the other; a missing piece adds nothing.
pub open spec fn joined(pieces: Seq<Option<Seq<u8>>>) -> Seq<u8>
    decreases pieces.len(),
{
    if pieces.len() == 0 {
        Seq::empty()
    } else {
        joined(pieces.drop_last()) + match pieces.last() {
            Some(b) => b,
            None => Seq::empty(),
        }
    }
}

/// The number of pieces that are here.
pub open spec fn count_here(pieces: Seq<Option<Seq<u8>>>) -> nat
    decreases pieces.len(),
{
    if pieces.len() == 0 {
        0
    } else {
        count_here(pieces.drop_last()) + if pieces.last() is Some {
            1nat
        } else {
            0nat
        }
    }
}

/// `s`, no longer than `n`.
pub open spec fn cut(s: Seq<u8>, n: int) -> Seq<u8> {
    if s.len() <= n {
        s
    } else {
        s.take(n)
    }
}

impl AssemblerModel {
    /// An assembler that knows nothing but the hash.
    pub open spec fn fresh(info_hash: Seq<u8>) -> AssemblerModel {
        AssemblerModel {
            info_hash,
            total_size: None,
            pieces: Seq::empty(),
            pending: Map::empty(),
        }
    }

    /// The size is within bounds, and there are as many pieces as it needs.
    pub open spec fn wf(self) -> bool {
        match self.total_size {
            Some(size) => size <= MAX_METADATA_SIZE && self.pieces.len() == parts(
                size as int,
                METADATA_PIECE_SIZE as int,
            ),
            None => self.pieces.len() == 0,
        }
    }

    /// With the size known. Only the first size within bounds counts.
    pub open spec fn sized(self, size: u64) -> AssemblerModel {
        if self.total_size is Some || size > MAX_METADATA_SIZE {
            self
        } else {
            AssemblerModel {
                total_size: Some(size),
                pieces: Seq::new(parts(size as int, METADATA_PIECE_SIZE as int) as nat, |i: int| None),
                pending: Map::empty(),
                ..self
            }
        }
    }

    /// All pieces are here, and there are some.
    pub open spec fn complete(self) -> bool {
        self.pieces.len() > 0 && forall|i: int|
            0 <= i < self.pieces.len() ==> (#[trigger] self.pieces[i]) is Some
    }

    /// Piece `p` is neither here nor asked for.
    pub open spec fn needs(self, p: int) -> bool {
        0 <= p < self.pieces.len() && self.pieces[p] is None && !self.pending.contains_key(p as u32)
    }

    /// `p` is the first piece that is needed.
    pub open spec fn first_needed(self, p: Option<u32>) -> bool {
        match p {
            Some(i) => self.needs(i as int) && forall|j: int| 0 <= j < i ==> !#[trigger] self.needs(j),
            None => forall|j: int| !#[trigger] self.needs(j),
        }
    }

    /// With piece `p` asked of `peer`.
    pub open spec fn asked(self, p: u32, peer: PeerSlot) -> AssemblerModel {
        AssemblerModel { pending: self.pending.insert(p, peer), ..self }
    }

    /// With piece `p` no longer asked for.
    pub open spec fn unasked(self, p: u32) -> AssemblerModel {
        AssemblerModel { pending: self.pending.remove(p), ..self }
    }

    /// With piece `p` here.
    pub open spec fn stored(self, p: u32, data: Seq<u8>) -> AssemblerModel {
        AssemblerModel {
            pieces: self.pieces.update(p as int, Some(data)),
            pending: self.pending.remove(p),
            ..self
        }
    }

    /// Why piece `p` cannot be stored, if it cannot.
    pub open spec fn refuses(self, p: u32) -> Option<MetadataFault> {
        if self.total_size is None {
            Some(MetadataFault::SizeUnknown)
        } else if p >= self.pieces.len() {
            Some(
                MetadataFault::Incomplete {
                    received: count_here(self.pieces) as u32,
                    total: self.pieces.len() as u32,
                },
            )
        } else {
            None
        }
    }

    /// The metadata that the pieces make up.
    pub open spec fn metadata(self) -> Seq<u8> {
        cut(
            joined(self.pieces),
            match self.total_size {
                Some(size) => size as int,
                None => 0,
            },
        )
    }
}

proof fn lemma_count_here(pieces: Seq<Option<Seq<u8>>>)
    ensures
        count_here(pieces) <= pieces.len(),
    decreases pieces.len(),
{
    if pieces.len() > 0 {
        lemma_count_here(pieces.drop_last());
    }
}

/// The number of metadata pieces that `size` bytes need.
pub fn metadata_piece_count(size: u64) -> (r: u32)
    requires
        size <= MAX_METADATA_SIZE,
    ensures
        r == parts(size as int, METADATA_PIECE_SIZE as int),
{
    ((size + (METADATA_PIECE_SIZE - 1)) / METADATA_PIECE_SIZE) as u32
}

impl View for MetadataAssembler {
    type V = AssemblerModel;

    closed spec fn view(&self) -> AssemblerModel {
        AssemblerModel {
            info_hash: self.info_hash@,
            total_size: self.total_size,
            pieces: blobs(self.pieces@),
            pending: self.pending_requests@,
        }
    }
}

impl MetadataAssembler {
    /// An assembler for metadata with the given hash.
    pub fn new(info_hash: [u8; 20]) -> (r: MetadataAssembler)
        ensures
            r@ == AssemblerModel::fresh(info_hash@),
            r@.wf(),
    {
        let r = MetadataAssembler {
            info_hash,
            total_size: None,
            pieces: Vec::new(),
            pending_requests: HashMap::new(),
        };
        assert(r@ =~= AssemblerModel::fresh(info_hash@));
        r
    }

    /// Tells the size of the metadata. Only the first size counts, and one
    /// above the limit does not.
    pub fn set_total_size(&mut self, size: u64)
        requires
            old(self)@.wf(),
        ensures
            final(self)@ == old(self)@.sized(size),
            final(self)@.wf(),
    {
        if self.total_size.is_some() || size > MAX_METADATA_SIZE {
            return;
        }
        let count: u32 = metadata_piece_count(size);
        let mut pieces: Vec<Option<Bytes>> = Vec::new();
        let mut i: u32 = 0;
        while i < count
            invariant
                i <= count,
                pieces@.len() == i,
                forall|j: int| 0 <= j < i ==> pieces@[j] is None,
            decreases count - i,
        {
            pieces.push(None);
            i = i + 1;
        }
        self.total_size = Some(size);
        self.pieces = pieces;
        self.pending_requests.clear();
        assert(self@ =~= old(self)@.sized(size));
    }

    /// Whether the size is known.
    pub fn has_size(&self) -> (r: bool)
        ensures
            r == self@.total_size is Some,
    {
        self.total_size.is_some()
    }

    /// The size, if it is known.
    pub fn total_size(&self) -> (r: Option<u64>)
        ensures
            r == self@.total_size,
    {
        self.total_size
    }

    /// The number of pieces.
    pub fn piece_count(&self) -> (r: u32)
        requires
            self@.wf(),
        ensures
            r == self@.pieces.len(),
    {
        self.pieces.len() as u32
    }

    /// Whether all pieces are here.
    pub fn is_complete(&self) -> (r: bool)
        ensures
            r == self@.complete(),
    {
        if self.pieces.len() == 0 {
            return false;
        }
        let mut i: usize = 0;
        while i < self.pieces.len()
            invariant
                i <= self.pieces@.len(),
                forall|j: int| 0 <= j < i ==> (#[trigger] self@.pieces[j]) is Some,
            decreases self.pieces@.len() - i,
        {
            if self.pieces[i].is_none() {
                assert(self@.pieces[i as int] is None);
                return false;
            }
            i = i + 1;
        }
        true
    }

    /// Whether `piece` is neither here nor asked for.
    pub fn needs_piece(&self, piece: u32) -> (r: bool)
        ensures
            r == self@.needs(piece as int),
    {
        let idx: usize = piece as usize;
        if idx >= self.pieces.len() {
            return false;
        }
        self.pieces[idx].is_none() && !self.pending_requests.contains_key(&piece)
    }

    /// The first piece that is needed.
    pub fn next_needed_piece(&self) -> (r: Option<u32>)
        requires
            self@.wf(),
        ensures
            self@.first_needed(r),
    {
        let count: u32 = self.piece_count();
        let mut i: u32 = 0;
        while i < count
            invariant
                i <= count,
                count == self@.pieces.len(),
                forall|j: int| 0 <= j < i ==> !#[trigger] self@.needs(j),
            decreases count - i,
        {
            if self.needs_piece(i) {
                return Some(i);
            }
            i = i + 1;
        }
        None
    }

    /// Notes that `piece` was asked of `peer`.
    pub fn mark_pending(&mut self, piece: u32, peer: PeerSlot)
        ensures
            final(self)@ == old(self)@.asked(piece, peer),
    {
        self.pending_requests.insert(piece, peer);
        assert(self@ =~= old(self)@.asked(piece, peer));
    }

    /// Stores a piece. It is no longer asked for then.
    pub fn receive_piece(&mut self, piece: u32, data: Bytes) -> (r: Result<
        (),
        MetadataAssemblyError,
    >)
        requires
            old(self)@.wf(),
        ensures
            final(self)@.wf(),
            match r {
                Ok(_) => old(self)@.refuses(piece) is None && final(self)@ == old(self)@.stored(
                    piece,
                    blob(data),
                ),
                Err(e) => old(self)@.refuses(piece) == Some(e@) && final(self)@ == old(self)@,
            },
    {
        if self.total_size.is_none() {
            return Err(MetadataAssemblyError::SizeUnknown);
        }
        let idx: usize = piece as usize;
        if idx >= self.pieces.len() {
            return Err(
                MetadataAssemblyError::Incomplete {
                    received: self.received_count(),
                    total: self.piece_count(),
                },
            );
        }
        self.pieces.set(idx, Some(data));
        self.pending_requests.remove(&piece);
        assert(self@ =~= old(self)@.stored(piece, blob(data)));
        Ok(())
    }

    /// A peer refused `piece`: it is no longer asked for.
    pub fn receive_reject(&mut self, piece: u32)
        ensures
            final(self)@ == old(self)@.unasked(piece),
    {
        self.pending_requests.remove(&piece);
        assert(self@ =~= old(self)@.unasked(piece));
    }

    /// The metadata, once all pieces are here: the pieces one after the other,
    /// cut to the size.
    pub fn try_assemble(&self) -> (r: Option<Vec<u8>>)
        requires
            self@.wf(),
        ensures
            match r {
                Some(b) => self@.complete() && b@ == self@.metadata(),
                None => !self@.complete(),
            },
    {
        if !self.is_complete() {
            return None;
        }
        let total: usize = match self.total_size {
            Some(size) => size as usize,
            None => 0,
        };
        let mut out: Vec<u8> = Vec::new();
        let mut i: usize = 0;
        let ghost pieces = self@.pieces;
        assert(pieces.take(0) =~= Seq::<Option<Seq<u8>>>::empty());
        while i < self.pieces.len()
            invariant
                i <= self.pieces@.len(),
                pieces == blobs(self.pieces@),
                out@ == joined(pieces.take(i as int)),
            decreases self.pieces@.len() - i,
        {
            assert(pieces.take(i + 1).drop_last() =~= pieces.take(i as int));
            if let Some(data) = &self.pieces[i] {
                append_bytes(&mut out, blob_bytes(data));
            } else {
                assert(out@ + Seq::<u8>::empty() =~= out@);
            }
            i = i + 1;
        }
        assert(pieces.take(i as int) =~= pieces);
        out.truncate(total);
        assert(out@ =~= self@.metadata());
        Some(out)
    }

    /// Holds the assembled metadata against the info hash and takes the torrent's
    /// parameters from it. `digest` is the SHA-1 of the assembled metadata, and
    /// `parsed` what parsing it as an info dictionary gave.
    pub fn verify_and_parse(&self, digest: &[u8; 20], parsed: Result<&Info, String>) -> (r: Result<
        (Vec<u8>, TorrentParams),
        MetadataAssemblyError,
    >)
        requires
            self@.wf(),
            (parsed is Ok && parsed->Ok_0.v1 is Some) ==> parsed->Ok_0.v1->0.files.total()
                <= u64::MAX,
        ensures
            match r {
                Ok((bytes, params)) => {
                    &&& metadata_fault(self@, digest@, parsed) is None
                    &&& bytes@ == self@.metadata()
                    &&& params@ == params_from(*parsed->Ok_0)
                },
                Err(e) => metadata_fault(self@, digest@, parsed) == Some(e@),
            },
    {
        if self.total_size.is_none() {
            return Err(MetadataAssemblyError::SizeUnknown);
        }
        let assembled = match self.try_assemble() {
            Some(a) => a,
            None => {
                return Err(
                    MetadataAssemblyError::Incomplete {
                        received: self.received_count(),
                        total: self.piece_count(),
                    },
                );
            },
        };
        if !bytes_equal(digest.as_slice(), self.info_hash.as_slice()) {
            return Err(
                MetadataAssemblyError::HashMismatch {
                    expected: hex_encode(self.info_hash.as_slice()),
                    got: hex_encode(digest.as_slice()),
                },
            );
        }
        match parsed {
            Err(why) => Err(MetadataAssemblyError::ParseFailed(why)),
            Ok(info) => {
                let v1 = match &info.v1 {
                    Some(v1) => v1,
                    None => {
                        return Err(MetadataAssemblyError::ParseFailed(text("not a v1 info dict")));
                    },
                };
                let count: usize = v1.pieces.len() / 20;
                if count as u64 > 0xffff_ffff {
                    return Err(MetadataAssemblyError::ParseFailed(text("piece count overflow")));
                }
                let piece_count: u32 = count as u32;
                if piece_count > MAX_METADATA_PIECES {
                    let mut why = text("piece_count ");
                    push_number(&mut why, piece_count as u64);
                    why.push_str(" exceeds safety limit of 2 000 000");
                    return Err(MetadataAssemblyError::ParseFailed(why));
                }
                if info.piece_length > MAX_METADATA_PIECE_LENGTH {
                    let mut why = text("piece_length ");
                    push_number(&mut why, info.piece_length);
                    why.push_str(" exceeds safety limit of 64 MiB");
                    return Err(MetadataAssemblyError::ParseFailed(why));
                }
                let piece_hashes = v1.pieces.clone();
                assert(piece_hashes@ =~= v1.pieces@);
                let params = TorrentParams {
                    piece_count,
                    piece_length: info.piece_length,
                    total_length: v1.files.total_length(),
                    piece_hashes,
                    private: info.private,
                };
                Ok((assembled, params))
            },
        }
    }

    /// The number of pieces that are here.
    fn received_count(&self) -> (r: u32)
        requires
            self@.wf(),
        ensures
            r == count_here(self@.pieces),
    {
        let ghost pieces = self@.pieces;
        let mut n: u32 = 0;
        let mut i: usize = 0;
        assert(pieces.take(0) =~= Seq::<Option<Seq<u8>>>::empty());
        while i < self.pieces.len()
            invariant
                self@.wf(),
                i <= self.pieces@.len(),
                pieces == blobs(self.pieces@),
                self@.pieces == pieces,
                n == count_here(pieces.take(i as int)),
                n <= i,
            decreases self.pieces@.len() - i,
        {
            assert(pieces.take(i + 1).drop_last() =~= pieces.take(i as int));
            if self.pieces[i].is_some() {
                n = n + 1;
            }
            i = i + 1;
        }
        assert(pieces.take(i as int) =~= pieces);
        n
    }
}

/// The parameters that an info dictionary declares.
pub open spec fn params_from(info: Info) -> ParamsModel {
    ParamsModel {
        piece_count: (info.v1->0.pieces@.len() / 20) as u32,
        piece_length: info.piece_length,
        total_length: info.v1->0.files.total() as u64,
        piece_hashes: info.v1->0.pieces@,
        private: info.private,
    }
}

/// Why an info dictionary cannot be used, if it cannot.
pub open spec fn info_fault(info: Info) -> Option<Seq<char>> {
    if info.v1 is None {
        Some("not a v1 info dict"@)
    } else if info.v1->0.pieces@.len() / 20 > u32::MAX {
        Some("piece count overflow"@)
    } else if info.v1->0.pieces@.len() / 20 > MAX_METADATA_PIECES {
        Some(
            "piece_count "@ + number_text(info.v1->0.pieces@.len() / 20)
                + " exceeds safety limit of 2 000 000"@,
        )
    } else if info.piece_length > MAX_METADATA_PIECE_LENGTH {
        Some(
            "piece_length "@ + number_text(info.piece_length as nat)
                + " exceeds safety limit of 64 MiB"@,
        )
    } else {
        None
    }
}

/// Why the collected metadata cannot be used, if it cannot: size unknown,
/// pieces missing, the wrong hash, or no usable info dictionary, in this order.
pub open spec fn metadata_fault(
    m: AssemblerModel,
    digest: Seq<u8>,
    parsed: Result<&Info, String>,
) -> Option<MetadataFault> {
    if m.total_size is None {
        Some(MetadataFault::SizeUnknown)
    } else if !m.complete() {
        Some(
            MetadataFault::Incomplete {
                received: count_here(m.pieces) as u32,
                total: m.pieces.len() as u32,
            },
        )
    } else if digest != m.info_hash {
        Some(MetadataFault::HashMismatch { expected: hex_text(m.info_hash), got: hex_text(digest) })
    } else {
        match parsed {
            Err(why) => Some(MetadataFault::ParseFailed(why@)),
            Ok(info) => match info_fault(*info) {
                Some(why) => Some(MetadataFault::ParseFailed(why)),
                None => None,
            },
        }
    }
}

/// The bytes that wrap an info dictionary into a torrent file: `d4:info`, the
/// dictionary, `e`.
pub fn info_envelope(info_bytes: &[u8]) -> (r: Vec<u8>)
    ensures
        r@ == seq![100u8, 52u8, 58u8, 105u8, 110u8, 102u8, 111u8] + info_bytes@ + seq![101u8],
{
    let mut out: Vec<u8> = Vec::new();
    out.push(100);
    out.push(52);
    out.push(58);
    out.push(105);
    out.push(110);
    out.push(102);
    out.push(111);
    append_bytes(&mut out, info_bytes);
    out.push(101);
    assert(out@ =~= seq![100u8, 52u8, 58u8, 105u8, 110u8, 102u8, 111u8] + info_bytes@ + seq![101u8]);
    out
}

/// A size is believed once: whatever a later peer says changes nothing.
pub proof fn law_first_size_counts(m: AssemblerModel, a: u64, b: u64)
    requires
        a <= MAX_METADATA_SIZE,
    ensures
        m.sized(a).sized(b) == m.sized(a),
        m.total_size is None ==> m.sized(a).total_size == Some(a),
{
}

/// A piece that was asked for is needed again after it was refused, unless it
/// is here.
pub proof fn law_refused_piece_needed_again(m: AssemblerModel, p: u32, peer: PeerSlot)
    requires
        m.needs(p as int),
    ensures
        !m.asked(p, peer).needs(p as int),
        m.asked(p, peer).unasked(p).needs(p as int),
{
}

/// Metadata that is accepted has the hash that was asked for.
pub proof fn law_accepted_metadata_has_hash(
    m: AssemblerModel,
    digest: Seq<u8>,
    parsed: Result<&Info, String>,
)
    requires
        metadata_fault(m, digest, parsed) is None,
    ensures
        m.complete(),
        digest == m.info_hash,
        params_from(*parsed->Ok_0).piece_count <= MAX_METADATA_PIECES,
        params_from(*parsed->Ok_0).piece_length <= MAX_METADATA_PIECE_LENGTH,
{
}

/// Fetched metadata is taken exactly if it is whole, has the hash that was asked
/// for, could be parsed, is of the first version, and declares no more than two
/// million pieces of at most 64 MiB. What is wrong first is what is said.
pub proof fn law_which_metadata_is_taken(
    m: AssemblerModel,
    digest: Seq<u8>,
    parsed: Result<&Info, String>,
)
    ensures
        ({
            let whole = m.pieces.len() > 0 && forall|i: int|
                0 <= i < m.pieces.len() ==> (#[trigger] m.pieces[i]) is Some;
            let usable = parsed is Ok && parsed->Ok_0.v1 is Some
                && parsed->Ok_0.v1->0.pieces@.len() / 20 <= 2_000_000
                && parsed->Ok_0.piece_length <= 67_108_864;
            let fault = metadata_fault(m, digest, parsed);
            &&& fault is None <==> m.total_size is Some && whole && digest == m.info_hash && usable
            &&& m.total_size is None ==> fault == Some(MetadataFault::SizeUnknown)
            &&& (m.total_size is Some && !whole) ==> fault is Some && fault->0 is Incomplete
            &&& (m.total_size is Some && whole && digest != m.info_hash) ==> fault is Some
                && fault->0 is HashMismatch
            &&& (m.total_size is Some && whole && digest == m.info_hash && !usable)
                ==> fault is Some && fault->0 is ParseFailed
        }),
{
}

/// The first piece that is neither here nor asked for is the next to ask for, and
/// asking for a piece, taking that back or storing it changes that piece alone.
pub proof fn law_pieces_of_metadata_are_kept_apart(
    m: AssemblerModel,
    p: u32,
    peer: PeerSlot,
    data: Seq<u8>,
    i: int,
)
    requires
        m.wf(),
        p < m.pieces.len(),
        0 <= i < m.pieces.len(),
        i != p,
    ensures
        m.asked(p, peer).pending.contains_key(p) && m.asked(p, peer).pending[p] == peer,
        !m.unasked(p).pending.contains_key(p),
        m.stored(p, data).pieces[p as int] == Some(data),
        !m.stored(p, data).pending.contains_key(p),
        m.stored(p, data).pieces[i] == m.pieces[i],
        m.asked(p, peer).needs(i) == m.needs(i),
        m.unasked(p).needs(i) == m.needs(i),
        m.stored(p, data).needs(i) == m.needs(i),
        !m.stored(p, data).needs(p as int),
        m.needs(i) <==> m.pieces[i] is None && !m.pending.contains_key(i as u32),
{
    assert(m.pieces.len() <= u32::MAX);
    assert(i as u32 != p);
}

} // verus!
