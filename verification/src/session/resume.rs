//! Resume state: which pieces of a torrent were verified, and the sidecar file
//! that carries this over a restart.
use crate::bencode::decode::{decode, default_options};
use crate::bencode::encode::encode;
use crate::bencode::fields::{
    bytes_field, bytes_of, codes, flat, int_field, int_of, lemma_ascending_found,
    lemma_codes_less, lemma_flat, lemma_push_ascends, put_last,
};
use crate::bencode::grammar::read_all;
use crate::bencode::laws::{fits, law_decode_undoes_encode};
use crate::bencode::tree::Tree;
use crate::bencode::value::{entry_trees, Dict, Value};
use crate::lex::{bytes_equal, lex_less};
use crate::session::bitfield::{
    bit_at, law_flags_pack, law_packed_form_is_unique, law_unpack_undoes_pack, packed,
    packs, unpack_bits,
};
pub use crate::session::bitfield::pack_bitfield;
use crate::session::flush::{
    join_name, joined, lemma_sidecars_apart, name_sidecar, sidecar_name, sidecar_write, tmp_path,
    Flush, SidecarWrite,
};
use crate::text::{int_text, number_text, push_int, push_number, text};
use std::borrow::Cow;
use vstd::prelude::*;
use vstd::utf8::is_ascii_chars;

verus! {

/// Usual limit on the time of a flush at shutdown: five seconds, in
/// nanoseconds.
pub const DEFAULT_SHUTDOWN_TIMEOUT: u64 = 5_000_000_000;

/// The version of the sidecar's format.
pub const SCHEMA_VERSION: i64 = 1;

/// Longest sidecar that is read.
pub const MAX_SIDECAR_BYTES: u64 = 8_388_608;

/// Most pieces that a sidecar may speak of.
pub const MAX_PIECE_COUNT: u32 = 1_000_000;

/// A torrent's resume state.
#[derive(Debug, PartialEq, Eq)]
pub struct ResumeSnapshot {
    /// The torrent.
    pub info_hash: [u8; 20],
    /// Which pieces were verified.
    pub have: Vec<bool>,
    /// The number of pieces.
    pub piece_count: u32,
    /// Bytes per piece.
    pub piece_length: u64,
    /// The length of the torrent.
    pub total_length: u64,
}

/// A torrent's resume state, by value.
#[verifier::ext_equal]
pub struct SnapshotModel {
    /// The torrent.
    pub info_hash: Seq<u8>,
    /// Which pieces were verified.
    pub have: Seq<bool>,
    /// The number of pieces.
    pub piece_count: u32,
    /// Bytes per piece.
    pub piece_length: u64,
    /// The length of the torrent.
    pub total_length: u64,
}

impl View for ResumeSnapshot {
    type V = SnapshotModel;

    open spec fn view(&self) -> SnapshotModel {
        SnapshotModel {
            info_hash: self.info_hash@,
            have: self.have@,
            piece_count: self.piece_count,
            piece_length: self.piece_length,
            total_length: self.total_length,
        }
    }
}

/// Why resume state cannot be kept or read.
#[derive(Debug)]
#[non_exhaustive]
pub enum ResumeSinkError {
    /// The file system failed.
    Io(String),
    /// The sidecar is not what it should be.
    InvalidSchema(String),
    /// The sidecar is of a later version.
    UnsupportedVersion(i64),
    /// There are not as many flags as pieces.
    HaveLengthMismatch {
        /// The number of flags.
        have_len: usize,
        /// The number of pieces.
        piece_count: u32,
    },
}

/// Why a sidecar cannot be read, by value.
pub enum SidecarFault {
    /// The sidecar is not what it should be.
    Schema(Seq<char>),
    /// The sidecar is of a later version.
    Version(i64),
}

impl ResumeSinkError {
    /// The error is this fault.
    pub open spec fn is_fault(self, fault: SidecarFault) -> bool {
        match (self, fault) {
            (ResumeSinkError::InvalidSchema(why), SidecarFault::Schema(want)) => why@ == want,
            (ResumeSinkError::UnsupportedVersion(v), SidecarFault::Version(want)) => v == want,
            _ => false,
        }
    }
}

proof fn lemma_packed(p: Seq<u8>, have: Seq<bool>)
    requires
        packs(p, have),
    ensures
        p == packed(have),
{
    law_flags_pack(have);
    law_packed_form_is_unique(p, packed(have), have);
}

/// What is said of a bitfield of `len` bytes that is too short.
pub open spec fn too_short(len: nat, piece_count: u32) -> Seq<char> {
    "bitfield too short: "@ + number_text(len) + " bytes for "@ + number_text(piece_count as nat)
        + " pieces (need "@ + number_text((piece_count as nat + 7) / 8) + ")"@
}

/// Reads the first `piece_count` flags of a packed bitfield, whatever follows
/// them.
pub fn unpack_bitfield(packed: &[u8], piece_count: u32) -> (r: Result<Vec<bool>, ResumeSinkError>)
    ensures
        match r {
            Ok(have) => packed@.len() >= (piece_count + 7) / 8 && have@ == Seq::new(
                piece_count as nat,
                |i: int| bit_at(packed@, i),
            ),
            Err(e) => packed@.len() < (piece_count + 7) / 8 && e.is_fault(
                SidecarFault::Schema(too_short(packed@.len(), piece_count)),
            ),
        },
{
    let needed: usize = if piece_count % 8 == 0 {
        (piece_count / 8) as usize
    } else {
        (piece_count / 8) as usize + 1
    };
    if packed.len() < needed {
        let mut why = text("bitfield too short: ");
        push_number(&mut why, packed.len() as u64);
        why.push_str(" bytes for ");
        push_number(&mut why, piece_count as u64);
        why.push_str(" pieces (need ");
        push_number(&mut why, needed as u64);
        why.push_str(")");
        return Err(ResumeSinkError::InvalidSchema(why));
    }
    Ok(unpack_bits(packed, piece_count as usize))
}

/// A length as an integer of the sidecar, which has no room for the largest.
pub open spec fn clamped(n: u64) -> i64 {
    if n > i64::MAX {
        i64::MAX
    } else {
        n as i64
    }
}

/// The entries of the sidecar.
pub open spec fn sidecar_entries(s: SnapshotModel) -> Seq<(Seq<u8>, Tree)> {
    Seq::empty().push((codes("bitfield"@), Tree::Bytes(packed(s.have)))).push(
        (codes("info_hash"@), Tree::Bytes(s.info_hash)),
    ).push((codes("piece_count"@), Tree::Int(s.piece_count as i64))).push(
        (codes("piece_length"@), Tree::Int(clamped(s.piece_length))),
    ).push((codes("total_length"@), Tree::Int(clamped(s.total_length)))).push(
        (codes("version"@), Tree::Int(SCHEMA_VERSION)),
    )
}

/// The keys of the sidecar are ASCII and come in this order.
proof fn lemma_keys()
    ensures
        is_ascii_chars("bitfield"@),
        is_ascii_chars("info_hash"@),
        is_ascii_chars("piece_count"@),
        is_ascii_chars("piece_length"@),
        is_ascii_chars("total_length"@),
        is_ascii_chars("version"@),
        lex_less(codes("bitfield"@), codes("info_hash"@)),
        lex_less(codes("info_hash"@), codes("piece_count"@)),
        lex_less(codes("piece_count"@), codes("piece_length"@)),
        lex_less(codes("piece_length"@), codes("total_length"@)),
        lex_less(codes("total_length"@), codes("version"@)),
{
    reveal_strlit("bitfield");
    reveal_strlit("info_hash");
    reveal_strlit("piece_count");
    reveal_strlit("piece_length");
    reveal_strlit("total_length");
    reveal_strlit("version");
    lemma_codes_less("bitfield"@, "info_hash"@, 0);
    lemma_codes_less("info_hash"@, "piece_count"@, 0);
    lemma_codes_less("piece_count"@, "piece_length"@, 6);
    lemma_codes_less("piece_length"@, "total_length"@, 0);
    lemma_codes_less("total_length"@, "version"@, 0);
}

/// The bytes of a sidecar.
pub fn encode_snapshot(snap: &ResumeSnapshot) -> (r: Vec<u8>)
    ensures
        r@ == Tree::Dict(sidecar_entries(snap@)).enc(),
{
    let bitfield = pack_bitfield(snap.have.as_slice());
    proof {
        lemma_packed(bitfield@, snap.have@);
        lemma_keys();
    }
    let mut dict: Dict<'_> = Dict::new();
    assert(entry_trees(dict@) =~= Seq::<(Seq<u8>, Tree)>::empty());
    put_last(&mut dict, "bitfield", Value::Bytes(Cow::Owned(bitfield)));
    let hash: Vec<u8> = vstd::slice::slice_to_vec(snap.info_hash.as_slice());
    assert(hash@ =~= snap.info_hash@);
    put_last(&mut dict, "info_hash", Value::Bytes(Cow::Owned(hash)));
    put_last(&mut dict, "piece_count", Value::Int(snap.piece_count as i64));
    put_last(&mut dict, "piece_length", Value::Int(clamp(snap.piece_length)));
    put_last(&mut dict, "total_length", Value::Int(clamp(snap.total_length)));
    put_last(&mut dict, "version", Value::Int(SCHEMA_VERSION));
    assert(entry_trees(dict@) =~= sidecar_entries(snap@));
    encode(&Value::Dict(dict))
}

/// The length, or the largest integer of the sidecar.
fn clamp(n: u64) -> (r: i64)
    ensures
        r == clamped(n),
{
    if n > i64::MAX as u64 {
        i64::MAX
    } else {
        n as i64
    }
}

/// A fault of the sidecar's format.
pub open spec fn schema_fault(why: Seq<char>) -> Result<SnapshotModel, SidecarFault> {
    Err(SidecarFault::Schema(why))
}

/// What the entries of a sidecar say, or the first thing that is wrong with
/// them.
pub open spec fn snapshot_of(entries: Seq<(Seq<u8>, Tree)>) -> Result<
    SnapshotModel,
    SidecarFault,
> {
    match int_of(entries, "version"@) {
        None => schema_fault("missing 'version'"@),
        Some(version) => if version > SCHEMA_VERSION {
            Err(SidecarFault::Version(version))
        } else {
            match bytes_of(entries, "info_hash"@) {
                None => schema_fault("missing 'info_hash'"@),
                Some(hash) => if hash.len() != 20 {
                    schema_fault("'info_hash' has len "@ + number_text(hash.len()) + " (want 20)"@)
                } else {
                    shape_of(entries, hash)
                },
            }
        },
    }
}

/// The rest of what the entries say, after the hash.
pub open spec fn shape_of(entries: Seq<(Seq<u8>, Tree)>, hash: Seq<u8>) -> Result<
    SnapshotModel,
    SidecarFault,
> {
    match int_of(entries, "piece_count"@) {
        None => schema_fault("missing 'piece_count'"@),
        Some(count) => if count < 0 || count > u32::MAX {
            schema_fault("'piece_count' out of u32 range: "@ + int_text(count as int))
        } else if count > MAX_PIECE_COUNT {
            schema_fault(
                "'piece_count' "@ + number_text(count as nat) + " exceeds MAX_PIECE_COUNT "@
                    + number_text(MAX_PIECE_COUNT as nat),
            )
        } else {
            lengths_of(entries, hash, count as u32)
        },
    }
}

/// The rest of what the entries say, after the number of pieces.
pub open spec fn lengths_of(
    entries: Seq<(Seq<u8>, Tree)>,
    hash: Seq<u8>,
    piece_count: u32,
) -> Result<SnapshotModel, SidecarFault> {
    match int_of(entries, "piece_length"@) {
        None => schema_fault("missing 'piece_length'"@),
        Some(piece_length) => if piece_length < 0 {
            schema_fault("'piece_length' negative: "@ + int_text(piece_length as int))
        } else {
            match int_of(entries, "total_length"@) {
                None => schema_fault("missing 'total_length'"@),
                Some(total_length) => if total_length < 0 {
                    schema_fault("'total_length' negative: "@ + int_text(total_length as int))
                } else {
                    flags_of(entries, hash, piece_count, piece_length as u64, total_length as u64)
                },
            }
        },
    }
}

/// The rest of what the entries say, after the lengths.
pub open spec fn flags_of(
    entries: Seq<(Seq<u8>, Tree)>,
    info_hash: Seq<u8>,
    piece_count: u32,
    piece_length: u64,
    total_length: u64,
) -> Result<SnapshotModel, SidecarFault> {
    match bytes_of(entries, "bitfield"@) {
        None => schema_fault("missing 'bitfield'"@),
        Some(bits) => if bits.len() < (piece_count + 7) / 8 {
            schema_fault(too_short(bits.len(), piece_count))
        } else {
            Ok(
                SnapshotModel {
                    info_hash,
                    have: Seq::new(piece_count as nat, |i: int| bit_at(bits, i)),
                    piece_count,
                    piece_length,
                    total_length,
                },
            )
        },
    }
}

/// What the bytes of a sidecar say, or what is wrong with them.
pub open spec fn read_sidecar(bytes: Seq<u8>) -> Result<SnapshotModel, SidecarFault> {
    match read_all(bytes, default_options()) {
        Err(e) => schema_fault("bencode decode: "@ + e.spelled()),
        Ok(Tree::Dict(entries)) => snapshot_of(entries),
        Ok(_) => schema_fault("sidecar root is not a dict"@),
    }
}

/// The result is what was said.
pub open spec fn matches_read(
    r: Result<ResumeSnapshot, ResumeSinkError>,
    want: Result<SnapshotModel, SidecarFault>,
) -> bool {
    match (r, want) {
        (Ok(snap), Ok(model)) => snap@ == model,
        (Err(e), Err(fault)) => e.is_fault(fault),
        _ => false,
    }
}

/// A fault of the sidecar's format.
fn invalid<T>(why: &str) -> (r: Result<T, ResumeSinkError>)
    ensures
        r is Err,
        r->Err_0.is_fault(SidecarFault::Schema(why@)),
{
    Err(ResumeSinkError::InvalidSchema(text(why)))
}

/// A fault of the sidecar's format that names a number.
fn invalid_int<T>(why: &str, n: i64) -> (r: Result<T, ResumeSinkError>)
    ensures
        r is Err,
        r->Err_0.is_fault(SidecarFault::Schema(why@ + int_text(n as int))),
{
    let mut msg = text(why);
    push_int(&mut msg, n);
    Err(ResumeSinkError::InvalidSchema(msg))
}

/// What the bytes of a sidecar say, or the first thing that is wrong with them.
pub fn decode_snapshot(bytes: &[u8]) -> (r: Result<ResumeSnapshot, ResumeSinkError>)
    ensures
        matches_read(r, read_sidecar(bytes@)),
{
    let value = match decode(bytes) {
        Ok(value) => value,
        Err(e) => {
            let mut why = text("bencode decode: ");
            why.push_str(e.debug_text().as_str());
            return Err(ResumeSinkError::InvalidSchema(why));
        },
    };
    match &value {
        Value::Dict(dict) => snapshot_from(dict),
        _ => invalid("sidecar root is not a dict"),
    }
}

/// What the entries of a sidecar say.
fn snapshot_from(dict: &Dict<'_>) -> (r: Result<ResumeSnapshot, ResumeSinkError>)
    ensures
        matches_read(r, snapshot_of(entry_trees(dict@))),
{
    proof {
        lemma_keys();
    }
    let version: i64 = match int_field(dict, "version") {
        Some(version) => version,
        None => {
            return invalid("missing 'version'");
        },
    };
    if version > SCHEMA_VERSION {
        return Err(ResumeSinkError::UnsupportedVersion(version));
    }
    let hash = match bytes_field(dict, "info_hash") {
        Some(hash) => hash,
        None => {
            return invalid("missing 'info_hash'");
        },
    };
    if hash.len() != 20 {
        let mut why = text("'info_hash' has len ");
        push_number(&mut why, hash.len() as u64);
        why.push_str(" (want 20)");
        return Err(ResumeSinkError::InvalidSchema(why));
    }
    let mut info_hash: [u8; 20] = [0u8; 20];
    let mut i: usize = 0;
    while i < 20
        invariant
            i <= 20,
            hash@.len() == 20,
            forall|j: int| 0 <= j < i ==> info_hash@[j] == hash@[j],
        decreases 20 - i,
    {
        info_hash[i] = hash[i];
        i = i + 1;
    }
    assert(info_hash@ =~= hash@);
    shape_from(dict, info_hash)
}

/// The rest of what the entries say, after the hash.
fn shape_from(dict: &Dict<'_>, info_hash: [u8; 20]) -> (r: Result<ResumeSnapshot, ResumeSinkError>)
    ensures
        matches_read(r, shape_of(entry_trees(dict@), info_hash@)),
{
    proof {
        lemma_keys();
    }
    let count: i64 = match int_field(dict, "piece_count") {
        Some(count) => count,
        None => {
            return invalid("missing 'piece_count'");
        },
    };
    if count < 0 || count > u32::MAX as i64 {
        return invalid_int("'piece_count' out of u32 range: ", count);
    }
    let piece_count: u32 = count as u32;
    if piece_count > MAX_PIECE_COUNT {
        let mut why = text("'piece_count' ");
        push_number(&mut why, piece_count as u64);
        why.push_str(" exceeds MAX_PIECE_COUNT ");
        push_number(&mut why, MAX_PIECE_COUNT as u64);
        return Err(ResumeSinkError::InvalidSchema(why));
    }
    let piece_length: i64 = match int_field(dict, "piece_length") {
        Some(piece_length) => piece_length,
        None => {
            return invalid("missing 'piece_length'");
        },
    };
    if piece_length < 0 {
        return invalid_int("'piece_length' negative: ", piece_length);
    }
    let total_length: i64 = match int_field(dict, "total_length") {
        Some(total_length) => total_length,
        None => {
            return invalid("missing 'total_length'");
        },
    };
    if total_length < 0 {
        return invalid_int("'total_length' negative: ", total_length);
    }
    match bytes_field(dict, "bitfield") {
        Some(bits) => match unpack_bitfield(bits, piece_count) {
            Ok(have) => Ok(
                ResumeSnapshot {
                    info_hash,
                    have,
                    piece_count,
                    piece_length: piece_length as u64,
                    total_length: total_length as u64,
                },
            ),
            Err(e) => Err(e),
        },
        None => invalid("missing 'bitfield'"),
    }
}

/// Refuses a sidecar that is too long to be read.
pub fn check_sidecar_size(len: u64) -> (r: Result<(), ResumeSinkError>)
    ensures
        match r {
            Ok(_) => len <= MAX_SIDECAR_BYTES,
            Err(e) => len > MAX_SIDECAR_BYTES && e.is_fault(
                SidecarFault::Schema(
                    "sidecar "@ + number_text(len as nat) + " bytes exceeds MAX_SIDECAR_BYTES "@
                        + number_text(MAX_SIDECAR_BYTES as nat),
                ),
            ),
        },
{
    if len > MAX_SIDECAR_BYTES {
        let mut why = text("sidecar ");
        push_number(&mut why, len);
        why.push_str(" bytes exceeds MAX_SIDECAR_BYTES ");
        push_number(&mut why, MAX_SIDECAR_BYTES);
        Err(ResumeSinkError::InvalidSchema(why))
    } else {
        Ok(())
    }
}

/// The snapshots by value.
pub open spec fn snapshots_view(s: Seq<ResumeSnapshot>) -> Seq<SnapshotModel> {
    Seq::new(s.len(), |i: int| s[i]@)
}

/// Where the snapshot of a torrent stands among those that are pending.
pub open spec fn pending_at(s: Seq<SnapshotModel>, info_hash: Seq<u8>) -> Option<int>
    decreases s.len(),
{
    if s.len() == 0 {
        None
    } else {
        match pending_at(s.drop_last(), info_hash) {
            Some(i) => Some(i),
            None => if s.last().info_hash == info_hash {
                Some(s.len() - 1)
            } else {
                None
            },
        }
    }
}

/// What is pending after `snap` came: it replaces an earlier one of the same
/// torrent in its place.
pub open spec fn enqueued(s: Seq<SnapshotModel>, snap: SnapshotModel) -> Seq<SnapshotModel> {
    match pending_at(s, snap.info_hash) {
        Some(i) => s.update(i, snap),
        None => s.push(snap),
    }
}

proof fn lemma_pending_at(s: Seq<SnapshotModel>, info_hash: Seq<u8>)
    ensures
        match pending_at(s, info_hash) {
            Some(i) => 0 <= i < s.len() && s[i].info_hash == info_hash && forall|j: int|
                0 <= j < i ==> (#[trigger] s[j]).info_hash != info_hash,
            None => forall|j: int| 0 <= j < s.len() ==> (#[trigger] s[j]).info_hash != info_hash,
        },
    decreases s.len(),
{
    if s.len() > 0 {
        let front = s.drop_last();
        lemma_pending_at(front, info_hash);
        match pending_at(front, info_hash) {
            Some(i) => {
                assert(s[i] == front[i]);
                assert forall|j: int| 0 <= j < i implies (#[trigger] s[j]).info_hash
                    != info_hash by {
                    assert(front[j] == s[j]);
                }
            },
            None => {
                assert forall|j: int| 0 <= j < s.len() - 1 implies (#[trigger] s[j]).info_hash
                    != info_hash by {
                    assert(front[j] == s[j]);
                }
            },
        }
    }
}

/// No torrent has two pending snapshots.
pub open spec fn one_each(s: Seq<SnapshotModel>) -> bool {
    forall|i: int, j: int|
        0 <= i < j < s.len() ==> (#[trigger] s[i]).info_hash != (#[trigger] s[j]).info_hash
}

/// A new snapshot leaves one per torrent, and it is the one of its torrent.
pub proof fn law_latest_snapshot_wins(s: Seq<SnapshotModel>, snap: SnapshotModel)
    requires
        one_each(s),
    ensures
        one_each(enqueued(s, snap)),
        ({
            let i = pending_at(enqueued(s, snap), snap.info_hash);
            i is Some && enqueued(s, snap)[i->0] == snap
        }),
        forall|j: int|
            0 <= j < s.len() && (#[trigger] s[j]).info_hash != snap.info_hash ==> enqueued(
                s,
                snap,
            )[j] == s[j],
{
    let after = enqueued(s, snap);
    lemma_pending_at(s, snap.info_hash);
    lemma_pending_at(after, snap.info_hash);
    match pending_at(s, snap.info_hash) {
        Some(i) => {
            assert(after[i] == snap);
            assert forall|a: int, b: int| 0 <= a < b < after.len() implies (
            #[trigger] after[a]).info_hash != (#[trigger] after[b]).info_hash by {
                assert(s[a].info_hash != s[b].info_hash);
            }
        },
        None => {
            assert(after.last() == snap);
            assert(after[s.len() as int] == snap);
            assert forall|a: int, b: int| 0 <= a < b < after.len() implies (
            #[trigger] after[a]).info_hash != (#[trigger] after[b]).info_hash by {
                assert(after[a] == s[a]);
                if b < s.len() {
                    assert(after[b] == s[b]);
                }
            }
        },
    }
}

/// What was written into a sidecar is what is read from it, for every snapshot
/// with one flag per piece that the format has room for.
pub proof fn law_sidecar_roundtrip(s: SnapshotModel)
    requires
        s.info_hash.len() == 20,
        s.have.len() == s.piece_count,
        s.piece_count <= MAX_PIECE_COUNT,
        s.piece_length <= i64::MAX,
        s.total_length <= i64::MAX,
        Tree::Dict(sidecar_entries(s)).enc().len() <= usize::MAX,
    ensures
        read_sidecar(Tree::Dict(sidecar_entries(s)).enc()) == Ok::<SnapshotModel, SidecarFault>(s),
{
    let entries = sidecar_entries(s);
    let t = Tree::Dict(entries);
    lemma_keys();
    let e0 = Seq::<(Seq<u8>, Tree)>::empty();
    let e1 = e0.push(entries[0]);
    let e2 = e1.push(entries[1]);
    let e3 = e2.push(entries[2]);
    let e4 = e3.push(entries[3]);
    let e5 = e4.push(entries[4]);
    assert(entries =~= e5.push(entries[5]));
    lemma_push_ascends(e0, entries[0]);
    lemma_push_ascends(e1, entries[1]);
    lemma_push_ascends(e2, entries[2]);
    lemma_push_ascends(e3, entries[3]);
    lemma_push_ascends(e4, entries[4]);
    lemma_push_ascends(e5, entries[5]);
    assert(flat(entries));
    lemma_flat(entries);
    assert(fits(t, default_options()));
    law_decode_undoes_encode(t, default_options());
    lemma_ascending_found(entries, 0);
    lemma_ascending_found(entries, 1);
    lemma_ascending_found(entries, 2);
    lemma_ascending_found(entries, 3);
    lemma_ascending_found(entries, 4);
    lemma_ascending_found(entries, 5);
    law_flags_pack(s.have);
    law_unpack_undoes_pack(packed(s.have), s.have);
    assert(Seq::new(s.piece_count as nat, |i: int| bit_at(packed(s.have), i)) =~= Seq::new(
        s.have.len(),
        |i: int| bit_at(packed(s.have), i),
    ));
}

/// Keeps the latest snapshot of each torrent until it is written to a sidecar
/// in a directory.
#[derive(Debug)]
pub struct FileResumeSink {
    dir: Vec<u8>,
    pending: Vec<ResumeSnapshot>,
}

impl FileResumeSink {
    /// The directory.
    pub closed spec fn root(&self) -> Seq<u8> {
        self.dir@
    }

    /// The snapshots that were not written yet.
    pub closed spec fn waiting(&self) -> Seq<SnapshotModel> {
        snapshots_view(self.pending@)
    }

    /// No torrent has two pending snapshots, and each has a flag per piece.
    pub open spec fn wf(&self) -> bool {
        &&& one_each(self.waiting())
        &&& forall|i: int|
            0 <= i < self.waiting().len() ==> (#[trigger] self.waiting()[i]).have.len()
                == self.waiting()[i].piece_count
    }

    /// A sink that writes into `dir`.
    pub fn new(dir: Vec<u8>) -> (r: FileResumeSink)
        ensures
            r.wf(),
            r.root() == dir@,
            r.waiting() == Seq::<SnapshotModel>::empty(),
    {
        let r = FileResumeSink { dir, pending: Vec::new() };
        assert(r.waiting() =~= Seq::<SnapshotModel>::empty());
        r
    }

    /// Where the sidecar of a torrent stands.
    pub fn sidecar_path(&self, info_hash: &[u8; 20]) -> (r: Vec<u8>)
        ensures
            r@ == joined(self.root(), sidecar_name(info_hash@, ".resume"@)),
    {
        proof {
            reveal_strlit(".resume");
        }
        join_name(self.dir.as_slice(), name_sidecar(info_hash, ".resume").as_slice())
    }

    /// Keeps a snapshot, in place of an earlier one of the same torrent.
    /// Refuses one without a flag per piece.
    pub fn enqueue(&mut self, snap: ResumeSnapshot) -> (r: Result<(), ResumeSinkError>)
        requires
            old(self).wf(),
        ensures
            final(self).wf(),
            final(self).root() == old(self).root(),
            if snap.have@.len() == snap.piece_count {
                r is Ok && final(self).waiting() == enqueued(old(self).waiting(), snap@)
            } else {
                &&& r == Err::<(), ResumeSinkError>(
                    ResumeSinkError::HaveLengthMismatch {
                        have_len: snap.have@.len() as usize,
                        piece_count: snap.piece_count,
                    },
                )
                &&& final(self).waiting() == old(self).waiting()
            },
    {
        if snap.have.len() != snap.piece_count as usize {
            return Err(
                ResumeSinkError::HaveLengthMismatch {
                    have_len: snap.have.len(),
                    piece_count: snap.piece_count,
                },
            );
        }
        let ghost before = self.waiting();
        let ghost model = snap@;
        proof {
            law_latest_snapshot_wins(before, model);
            lemma_pending_at(before, model.info_hash);
        }
        match find_snapshot(&self.pending, &snap.info_hash) {
            Some(i) => {
                self.pending.set(i, snap);
                assert(self.waiting() =~= before.update(i as int, model));
            },
            None => {
                self.pending.push(snap);
                assert(self.waiting() =~= before.push(model));
            },
        }
        Ok(())
    }

    /// Hands over the writes of everything that is pending, to be begun by
    /// `deadline` where there is one.
    fn take_writes(&mut self, deadline: Option<u64>) -> (r: Flush)
        ensures
            final(self).root() == old(self).root(),
            final(self).waiting() == Seq::<SnapshotModel>::empty(),
            r.wf(),
            r.handed() == 0,
            r.until() == deadline,
            writes_match(r.all(), old(self).root(), old(self).waiting()),
    {
        let mut writes: Vec<SidecarWrite> = Vec::new();
        let mut i: usize = 0;
        let ghost all = self.waiting();
        proof {
            reveal_strlit(".resume");
        }
        while i < self.pending.len()
            invariant
                i <= self.pending@.len(),
                *self == *old(self),
                all == self.waiting(),
                is_ascii_chars(".resume"@),
                writes@.len() == i,
                forall|j: int|
                    0 <= j < i ==> write_matches(#[trigger] writes@[j], self.root(), all[j]),
            decreases self.pending@.len() - i,
        {
            let snap = &self.pending[i];
            let payload = encode_snapshot(snap);
            let ghost before = writes@;
            writes.push(sidecar_write(self.dir.as_slice(), &snap.info_hash, ".resume", payload));
            assert forall|j: int| 0 <= j < i + 1 implies write_matches(
                #[trigger] writes@[j],
                self.root(),
                all[j],
            ) by {
                if j < i {
                    assert(writes@[j] == before[j]);
                }
            }
            i = i + 1;
        }
        self.pending = Vec::new();
        assert(self.waiting() =~= Seq::<SnapshotModel>::empty());
        Flush::new(writes, deadline)
    }

    /// Hands over the writes of everything that is pending.
    pub fn flush_now(&mut self) -> (r: Flush)
        ensures
            final(self).wf(),
            final(self).root() == old(self).root(),
            final(self).waiting() == Seq::<SnapshotModel>::empty(),
            r.wf(),
            r.handed() == 0,
            r.until() is None,
            writes_match(r.all(), old(self).root(), old(self).waiting()),
    {
        self.take_writes(None)
    }

    /// Hands over the writes of everything that is pending, to be begun within
    /// `timeout` from `now` on.
    pub fn flush_graceful(&mut self, now: u64, timeout: u64) -> (r: Flush)
        requires
            now + timeout <= u64::MAX,
        ensures
            final(self).wf(),
            final(self).root() == old(self).root(),
            final(self).waiting() == Seq::<SnapshotModel>::empty(),
            r.wf(),
            r.handed() == 0,
            r.until() == Some((now + timeout) as u64),
            writes_match(r.all(), old(self).root(), old(self).waiting()),
    {
        self.take_writes(Some(now + timeout))
    }
}

/// The write puts the snapshot's sidecar in its place.
pub open spec fn write_matches(w: SidecarWrite, dir: Seq<u8>, snap: SnapshotModel) -> bool {
    &&& w.path@ == joined(dir, sidecar_name(snap.info_hash, ".resume"@))
    &&& w.tmp@ == tmp_path(w.path@)
    &&& w.payload@ == Tree::Dict(sidecar_entries(snap)).enc()
}

/// One write per snapshot, in order.
pub open spec fn writes_match(
    writes: Seq<SidecarWrite>,
    dir: Seq<u8>,
    snaps: Seq<SnapshotModel>,
) -> bool {
    &&& writes.len() == snaps.len()
    &&& forall|i: int| 0 <= i < writes.len() ==> write_matches(#[trigger] writes[i], dir, snaps[i])
}

/// Where the snapshot of a torrent stands.
fn find_snapshot(pending: &Vec<ResumeSnapshot>, info_hash: &[u8; 20]) -> (r: Option<usize>)
    ensures
        match (r, pending_at(snapshots_view(pending@), info_hash@)) {
            (Some(i), Some(j)) => i == j,
            (None, None) => true,
            _ => false,
        },
{
    let ghost all = snapshots_view(pending@);
    let mut found: Option<usize> = None;
    let mut i: usize = 0;
    assert(all.take(0) =~= Seq::<SnapshotModel>::empty());
    while i < pending.len()
        invariant
            i <= pending@.len(),
            all == snapshots_view(pending@),
            match (found, pending_at(all.take(i as int), info_hash@)) {
                (Some(a), Some(b)) => a == b,
                (None, None) => true,
                _ => false,
            },
        decreases pending@.len() - i,
    {
        assert(all.take(i + 1).drop_last() =~= all.take(i as int));
        assert(all[i as int] == pending@[i as int]@);
        if found.is_none() && bytes_equal(
            pending[i].info_hash.as_slice(),
            info_hash.as_slice(),
        ) {
            found = Some(i);
        }
        i = i + 1;
    }
    assert(all.take(i as int) =~= all);
    found
}

/// A sidecar says each thing under its own name: which pieces are here, packed,
/// the hash, how many pieces there are and how long, and its version.
pub proof fn law_sidecar_names_its_fields(s: SnapshotModel)
    ensures
        ({
            let e = sidecar_entries(s);
            &&& e.len() == 6
            &&& e.contains((codes("bitfield"@), Tree::Bytes(packed(s.have))))
            &&& e.contains((codes("info_hash"@), Tree::Bytes(s.info_hash)))
            &&& e.contains((codes("piece_count"@), Tree::Int(s.piece_count as i64)))
            &&& e.contains((codes("version"@), Tree::Int(1)))
            &&& s.piece_length <= i64::MAX ==> e.contains(
                (codes("piece_length"@), Tree::Int(s.piece_length as i64)),
            )
            &&& s.total_length <= i64::MAX ==> e.contains(
                (codes("total_length"@), Tree::Int(s.total_length as i64)),
            )
            &&& s.piece_length > i64::MAX ==> e.contains(
                (codes("piece_length"@), Tree::Int(i64::MAX)),
            )
            &&& s.total_length > i64::MAX ==> e.contains(
                (codes("total_length"@), Tree::Int(i64::MAX)),
            )
        }),
{
    let e = sidecar_entries(s);
    assert(e[0] == (codes("bitfield"@), Tree::Bytes(packed(s.have))));
    assert(e[1] == (codes("info_hash"@), Tree::Bytes(s.info_hash)));
    assert(e[2] == (codes("piece_count"@), Tree::Int(s.piece_count as i64)));
    assert(e[3] == (codes("piece_length"@), Tree::Int(clamped(s.piece_length))));
    assert(e[4] == (codes("total_length"@), Tree::Int(clamped(s.total_length))));
    assert(e[5] == (codes("version"@), Tree::Int(1)));
}

/// Entries of a sidecar are taken exactly if the version is known, the hash has
/// twenty bytes, there are no more than a million pieces, no length is negative and
/// there is a flag for each piece. What they say is what stands under each name. A
/// later version is told from a fault.
pub proof fn law_which_sidecars_are_taken(entries: Seq<(Seq<u8>, Tree)>)
    ensures
        ({
            let version = int_of(entries, "version"@);
            let hash = bytes_of(entries, "info_hash"@);
            let count = int_of(entries, "piece_count"@);
            let piece_length = int_of(entries, "piece_length"@);
            let total_length = int_of(entries, "total_length"@);
            let bits = bytes_of(entries, "bitfield"@);
            let r = snapshot_of(entries);
            &&& r is Ok <==> {
                &&& version is Some && version->0 <= 1
                &&& hash is Some && hash->0.len() == 20
                &&& count is Some && 0 <= count->0 <= 1_000_000
                &&& piece_length is Some && piece_length->0 >= 0
                &&& total_length is Some && total_length->0 >= 0
                &&& bits is Some && bits->0.len() * 8 >= count->0
            }
            &&& (r matches Ok(s) ==> {
                &&& s.info_hash == hash->0
                &&& s.piece_count == count->0
                &&& s.piece_length == piece_length->0
                &&& s.total_length == total_length->0
                &&& s.have.len() == count->0
                &&& forall|i: int| 0 <= i < s.have.len() ==> #[trigger] s.have[i] == bit_at(bits->0, i)
            })
            &&& (version is Some && version->0 > 1) ==> r == Err::<SnapshotModel, SidecarFault>(
                SidecarFault::Version(version->0),
            )
            &&& (r matches Err(SidecarFault::Version(_)) ==> version is Some && version->0 > 1)
        }),
{
}

/// What is flushed is one sidecar per torrent, in the order in which they came, and
/// each is read back as what was to be kept. No two stand at one place, and none is
/// written in its place before it is whole.
pub proof fn law_flushed_snapshots_are_read_back(
    writes: Seq<SidecarWrite>,
    dir: Seq<u8>,
    snaps: Seq<SnapshotModel>,
    i: int,
    j: int,
)
    requires
        writes_match(writes, dir, snaps),
        one_each(snaps),
        0 <= i < snaps.len(),
        0 <= j < snaps.len(),
        i != j,
        snaps[i].info_hash.len() == 20,
        snaps[j].info_hash.len() == 20,
        snaps[i].have.len() == snaps[i].piece_count,
        snaps[i].piece_count <= MAX_PIECE_COUNT,
        snaps[i].piece_length <= i64::MAX,
        snaps[i].total_length <= i64::MAX,
        writes[i].payload@.len() <= usize::MAX,
    ensures
        writes.len() == snaps.len(),
        read_sidecar(writes[i].payload@) == Ok::<SnapshotModel, SidecarFault>(snaps[i]),
        writes[i].path@ != writes[j].path@,
        writes[i].tmp@ != writes[i].path@,
        writes[i].path@.len() >= dir.len() && writes[i].path@.take(dir.len() as int) == dir,
{
    assert(write_matches(writes[i], dir, snaps[i]));
    assert(write_matches(writes[j], dir, snaps[j]));
    law_sidecar_roundtrip(snaps[i]);
    reveal_strlit(".resume");
    reveal_strlit(".tmp");
    if i < j {
        assert(snaps[i].info_hash != snaps[j].info_hash);
    } else {
        assert(snaps[j].info_hash != snaps[i].info_hash);
    }
    lemma_sidecars_apart(dir, snaps[i].info_hash, snaps[j].info_hash, ".resume"@);
    assert(writes[i].path@.take(dir.len() as int) =~= dir);
    assert(writes[i].tmp@.len() == writes[i].path@.len() + 4);
}

} // verus!
