//! The sidecar file that carries a torrent's counters over a restart.
use crate::bencode::decode::{decode, default_options};
use crate::bencode::fields::{
    ascii, codes, flat, int_field, int_of, lemma_ascending_found, lemma_codes_less, lemma_flat,
    lemma_push_ascends,
};
use crate::bencode::grammar::read_all;
use crate::bencode::laws::{fits, law_decode_undoes_encode};
use crate::bencode::tree::{enc_bytes, enc_entries, enc_int, Tree};
use crate::bencode::value::{Dict, Value};
use crate::decimal::{dec_digits, push_decimal};
use crate::lex::{append_bytes, bytes_equal, lex_less};
use crate::session::flush::{
    join_name, joined, lemma_sidecars_apart, name_sidecar, sidecar_name, sidecar_write, tmp_path,
    Flush, SidecarWrite,
};
use crate::session::stats::StatsSnapshot;
use crate::text::text;
use vstd::prelude::*;
use vstd::utf8::is_ascii_chars;

verus! {

/// Usual limit on the time of a flush at shutdown: five seconds, in
/// nanoseconds.
pub const DEFAULT_SHUTDOWN_TIMEOUT: u64 = 5_000_000_000;

/// Why counters cannot be kept or read.
#[derive(Debug)]
#[non_exhaustive]
pub enum StatsSinkError {
    /// The file system failed, or a sidecar is not what it should be.
    Io(String),
    /// There is no room for more.
    Backpressure,
}

/// The bytes of a sidecar: `d10:downloadedi<n>e8:uploadedi<n>ee`.
pub open spec fn stats_bytes(uploaded: u64, downloaded: u64) -> Seq<u8> {
    codes("d10:downloadedi"@) + dec_digits(downloaded as nat) + codes("e8:uploadedi"@)
        + dec_digits(uploaded as nat) + codes("ee"@)
}

/// The bytes of a sidecar.
pub fn encode_bencode(snap: &StatsSnapshot) -> (r: Vec<u8>)
    ensures
        r@ == stats_bytes(snap.uploaded, snap.downloaded),
{
    proof {
        reveal_strlit("d10:downloadedi");
        reveal_strlit("e8:uploadedi");
        reveal_strlit("ee");
    }
    let mut out: Vec<u8> = Vec::new();
    append_bytes(&mut out, ascii("d10:downloadedi"));
    push_decimal(&mut out, snap.downloaded);
    append_bytes(&mut out, ascii("e8:uploadedi"));
    push_decimal(&mut out, snap.uploaded);
    append_bytes(&mut out, ascii("ee"));
    assert(out@ =~= stats_bytes(snap.uploaded, snap.downloaded));
    out
}

/// The counters that the entries of a sidecar give, first those sent; or what is
/// wrong with them.
pub open spec fn counters_of(entries: Seq<(Seq<u8>, Tree)>) -> Result<(u64, u64), Seq<char>> {
    match (int_of(entries, "downloaded"@), int_of(entries, "uploaded"@)) {
        (None, _) => Err("sidecar missing 'downloaded'"@),
        (_, None) => Err("sidecar missing 'uploaded'"@),
        (Some(downloaded), Some(uploaded)) => if downloaded < 0 || uploaded < 0 {
            Err("sidecar counters must be non-negative"@)
        } else {
            Ok((uploaded as u64, downloaded as u64))
        },
    }
}

/// The counters that the bytes of a sidecar give, or what is wrong with them.
pub open spec fn read_stats(bytes: Seq<u8>) -> Result<(u64, u64), Seq<char>> {
    match read_all(bytes, default_options()) {
        Err(e) => Err("sidecar bencode decode: "@ + e.spelled()),
        Ok(Tree::Dict(entries)) => counters_of(entries),
        Ok(_) => Err("sidecar root is not a dict"@),
    }
}

/// The keys of the sidecar are ASCII and come in this order.
proof fn lemma_keys()
    ensures
        is_ascii_chars("downloaded"@),
        is_ascii_chars("uploaded"@),
        lex_less(codes("downloaded"@), codes("uploaded"@)),
{
    reveal_strlit("downloaded");
    reveal_strlit("uploaded");
    lemma_codes_less("downloaded"@, "uploaded"@, 0);
}

/// Reads the counters of a torrent from the bytes of its sidecar.
pub fn decode_sidecar(bytes: &[u8], info_hash: &[u8; 20]) -> (r: Result<
    StatsSnapshot,
    StatsSinkError,
>)
    ensures
        match (r, read_stats(bytes@)) {
            (Ok(snap), Ok((uploaded, downloaded))) => {
                &&& snap.info_hash == *info_hash
                &&& snap.uploaded == uploaded
                &&& snap.downloaded == downloaded
            },
            (Err(StatsSinkError::Io(why)), Err(want)) => why@ == want,
            _ => false,
        },
{
    proof {
        lemma_keys();
    }
    let value = match decode(bytes) {
        Ok(value) => value,
        Err(e) => {
            let mut why = text("sidecar bencode decode: ");
            why.push_str(e.debug_text().as_str());
            return Err(StatsSinkError::Io(why));
        },
    };
    let dict = match &value {
        Value::Dict(dict) => dict,
        _ => {
            return Err(StatsSinkError::Io(text("sidecar root is not a dict")));
        },
    };
    let downloaded: i64 = match int_field(dict, "downloaded") {
        Some(n) => n,
        None => {
            return Err(StatsSinkError::Io(text("sidecar missing 'downloaded'")));
        },
    };
    let uploaded: i64 = match int_field(dict, "uploaded") {
        Some(n) => n,
        None => {
            return Err(StatsSinkError::Io(text("sidecar missing 'uploaded'")));
        },
    };
    if downloaded < 0 || uploaded < 0 {
        return Err(StatsSinkError::Io(text("sidecar counters must be non-negative")));
    }
    Ok(
        StatsSnapshot {
            info_hash: *info_hash,
            uploaded: uploaded as u64,
            downloaded: downloaded as u64,
        },
    )
}

/// The entries of the sidecar.
pub open spec fn stats_entries(uploaded: u64, downloaded: u64) -> Seq<(Seq<u8>, Tree)> {
    Seq::empty().push((codes("downloaded"@), Tree::Int(downloaded as i64))).push(
        (codes("uploaded"@), Tree::Int(uploaded as i64)),
    )
}

/// Within the range of its integers, the sidecar is the bencode form of a
/// dictionary of the two counters.
pub proof fn law_stats_are_bencode(uploaded: u64, downloaded: u64)
    requires
        uploaded <= i64::MAX,
        downloaded <= i64::MAX,
    ensures
        stats_bytes(uploaded, downloaded) == Tree::Dict(stats_entries(uploaded, downloaded)).enc(),
{
    let entries = stats_entries(uploaded, downloaded);
    reveal_strlit("d10:downloadedi");
    reveal_strlit("e8:uploadedi");
    reveal_strlit("ee");
    reveal_strlit("downloaded");
    reveal_strlit("uploaded");
    reveal_with_fuel(dec_digits, 3);
    let one = entries.subrange(1, 2);
    let none = one.subrange(1, 1);
    assert(none =~= Seq::empty());
    assert(enc_entries(none) =~= Seq::<u8>::empty());
    let key0 = codes("downloaded"@);
    let key1 = codes("uploaded"@);
    assert(key0.len() == 10 && key1.len() == 8);
    assert(dec_digits(10) =~= seq![49u8, 48u8]);
    assert(dec_digits(8) =~= seq![56u8]);
    assert(codes("d10:downloadedi"@) =~= seq![100u8] + enc_bytes(key0) + seq![105u8]);
    assert(codes("e8:uploadedi"@) =~= seq![101u8] + enc_bytes(key1) + seq![105u8]);
    assert(codes("ee"@) =~= seq![101u8, 101u8]);
    assert(entries[0].1.enc() == enc_int(downloaded as i64));
    assert(one[0].1.enc() == enc_int(uploaded as i64));
    assert(enc_entries(one) =~= enc_bytes(key1) + enc_int(uploaded as i64));
    assert(enc_entries(entries) =~= enc_bytes(key0) + enc_int(downloaded as i64) + enc_entries(
        one,
    ));
    assert(stats_bytes(uploaded, downloaded) =~= Tree::Dict(entries).enc());
}

/// What was written into a sidecar is what is read from it, within the range of
/// its integers.
pub proof fn law_stats_roundtrip(uploaded: u64, downloaded: u64)
    requires
        uploaded <= i64::MAX,
        downloaded <= i64::MAX,
        stats_bytes(uploaded, downloaded).len() <= usize::MAX,
    ensures
        read_stats(stats_bytes(uploaded, downloaded)) == Ok::<(u64, u64), Seq<char>>(
            (uploaded, downloaded),
        ),
{
    let entries = stats_entries(uploaded, downloaded);
    let t = Tree::Dict(entries);
    lemma_keys();
    law_stats_are_bencode(uploaded, downloaded);
    let e0 = Seq::<(Seq<u8>, Tree)>::empty();
    let e1 = e0.push(entries[0]);
    assert(entries =~= e1.push(entries[1]));
    lemma_push_ascends(e0, entries[0]);
    lemma_push_ascends(e1, entries[1]);
    assert(flat(entries));
    lemma_flat(entries);
    assert(fits(t, default_options()));
    law_decode_undoes_encode(t, default_options());
    lemma_ascending_found(entries, 0);
    lemma_ascending_found(entries, 1);
}

/// Where the counters of a torrent stand among those that are pending.
pub open spec fn pending_at(s: Seq<StatsSnapshot>, info_hash: Seq<u8>) -> Option<int>
    decreases s.len(),
{
    if s.len() == 0 {
        None
    } else {
        match pending_at(s.drop_last(), info_hash) {
            Some(i) => Some(i),
            None => if s.last().info_hash@ == info_hash {
                Some(s.len() - 1)
            } else {
                None
            },
        }
    }
}

/// What is pending after `snap` came: it replaces earlier counters of the same
/// torrent in their place.
pub open spec fn enqueued(s: Seq<StatsSnapshot>, snap: StatsSnapshot) -> Seq<StatsSnapshot> {
    match pending_at(s, snap.info_hash@) {
        Some(i) => s.update(i, snap),
        None => s.push(snap),
    }
}

proof fn lemma_pending_at(s: Seq<StatsSnapshot>, info_hash: Seq<u8>)
    ensures
        match pending_at(s, info_hash) {
            Some(i) => 0 <= i < s.len() && s[i].info_hash@ == info_hash && forall|j: int|
                0 <= j < i ==> (#[trigger] s[j]).info_hash@ != info_hash,
            None => forall|j: int| 0 <= j < s.len() ==> (#[trigger] s[j]).info_hash@ != info_hash,
        },
    decreases s.len(),
{
    if s.len() > 0 {
        let front = s.drop_last();
        lemma_pending_at(front, info_hash);
        match pending_at(front, info_hash) {
            Some(i) => {
                assert(s[i] == front[i]);
                assert forall|j: int| 0 <= j < i implies (#[trigger] s[j]).info_hash@
                    != info_hash by {
                    assert(front[j] == s[j]);
                }
            },
            None => {
                assert forall|j: int| 0 <= j < s.len() - 1 implies (#[trigger] s[j]).info_hash@
                    != info_hash by {
                    assert(front[j] == s[j]);
                }
            },
        }
    }
}

/// No torrent has counters pending twice.
pub open spec fn one_each(s: Seq<StatsSnapshot>) -> bool {
    forall|i: int, j: int|
        0 <= i < j < s.len() ==> (#[trigger] s[i]).info_hash@ != (#[trigger] s[j]).info_hash@
}

/// New counters leave one per torrent, and they are those of their torrent.
pub proof fn law_latest_counters_win(s: Seq<StatsSnapshot>, snap: StatsSnapshot)
    requires
        one_each(s),
    ensures
        one_each(enqueued(s, snap)),
        ({
            let i = pending_at(enqueued(s, snap), snap.info_hash@);
            i is Some && enqueued(s, snap)[i->0] == snap
        }),
        forall|j: int|
            0 <= j < s.len() && (#[trigger] s[j]).info_hash@ != snap.info_hash@ ==> enqueued(
                s,
                snap,
            )[j] == s[j],
{
    let after = enqueued(s, snap);
    lemma_pending_at(s, snap.info_hash@);
    lemma_pending_at(after, snap.info_hash@);
    match pending_at(s, snap.info_hash@) {
        Some(i) => {
            assert(after[i] == snap);
            assert forall|a: int, b: int| 0 <= a < b < after.len() implies (
            #[trigger] after[a]).info_hash@ != (#[trigger] after[b]).info_hash@ by {
                assert(s[a].info_hash@ != s[b].info_hash@);
            }
        },
        None => {
            assert(after.last() == snap);
            assert(after[s.len() as int] == snap);
            assert forall|a: int, b: int| 0 <= a < b < after.len() implies (
            #[trigger] after[a]).info_hash@ != (#[trigger] after[b]).info_hash@ by {
                assert(after[a] == s[a]);
                if b < s.len() {
                    assert(after[b] == s[b]);
                }
            }
        },
    }
}

/// Keeps the latest counters of each torrent until they are written to a
/// sidecar in a directory.
#[derive(Debug)]
pub struct FileStatsSink {
    dir: Vec<u8>,
    pending: Vec<StatsSnapshot>,
}

/// The write puts the sidecar of the counters in its place.
pub open spec fn write_matches(w: SidecarWrite, dir: Seq<u8>, snap: StatsSnapshot) -> bool {
    &&& w.path@ == joined(dir, sidecar_name(snap.info_hash@, ".stats"@))
    &&& w.tmp@ == tmp_path(w.path@)
    &&& w.payload@ == stats_bytes(snap.uploaded, snap.downloaded)
}

/// One write per torrent, in order.
pub open spec fn writes_match(
    writes: Seq<SidecarWrite>,
    dir: Seq<u8>,
    snaps: Seq<StatsSnapshot>,
) -> bool {
    &&& writes.len() == snaps.len()
    &&& forall|i: int| 0 <= i < writes.len() ==> write_matches(#[trigger] writes[i], dir, snaps[i])
}

impl FileStatsSink {
    /// The directory.
    pub closed spec fn root(&self) -> Seq<u8> {
        self.dir@
    }

    /// The counters that were not written yet.
    pub closed spec fn waiting(&self) -> Seq<StatsSnapshot> {
        self.pending@
    }

    /// No torrent has counters pending twice.
    pub open spec fn wf(&self) -> bool {
        one_each(self.waiting())
    }

    /// A sink that writes into `dir`.
    pub fn new(dir: Vec<u8>) -> (r: FileStatsSink)
        ensures
            r.wf(),
            r.root() == dir@,
            r.waiting() == Seq::<StatsSnapshot>::empty(),
    {
        FileStatsSink { dir, pending: Vec::new() }
    }

    /// Where the sidecar of a torrent stands.
    pub fn sidecar_path(&self, info_hash: &[u8; 20]) -> (r: Vec<u8>)
        ensures
            r@ == joined(self.root(), sidecar_name(info_hash@, ".stats"@)),
    {
        proof {
            reveal_strlit(".stats");
        }
        join_name(self.dir.as_slice(), name_sidecar(info_hash, ".stats").as_slice())
    }

    /// Keeps counters, in place of earlier ones of the same torrent.
    pub fn enqueue(&mut self, snapshot: StatsSnapshot) -> (r: Result<(), StatsSinkError>)
        requires
            old(self).wf(),
        ensures
            r is Ok,
            final(self).wf(),
            final(self).root() == old(self).root(),
            final(self).waiting() == enqueued(old(self).waiting(), snapshot),
    {
        let ghost before = self.waiting();
        proof {
            law_latest_counters_win(before, snapshot);
            lemma_pending_at(before, snapshot.info_hash@);
        }
        match find_snapshot(&self.pending, &snapshot.info_hash) {
            Some(i) => {
                self.pending.set(i, snapshot);
            },
            None => {
                self.pending.push(snapshot);
            },
        }
        Ok(())
    }

    /// Hands over the writes of everything that is pending, to be begun by
    /// `deadline` where there is one.
    fn take_writes(&mut self, deadline: Option<u64>) -> (r: Flush)
        ensures
            final(self).root() == old(self).root(),
            final(self).waiting() == Seq::<StatsSnapshot>::empty(),
            r.wf(),
            r.handed() == 0,
            r.until() == deadline,
            writes_match(r.all(), old(self).root(), old(self).waiting()),
    {
        let mut writes: Vec<SidecarWrite> = Vec::new();
        let mut i: usize = 0;
        let ghost all = self.waiting();
        proof {
            reveal_strlit(".stats");
        }
        while i < self.pending.len()
            invariant
                i <= self.pending@.len(),
                *self == *old(self),
                all == self.waiting(),
                is_ascii_chars(".stats"@),
                writes@.len() == i,
                forall|j: int|
                    0 <= j < i ==> write_matches(#[trigger] writes@[j], self.root(), all[j]),
            decreases self.pending@.len() - i,
        {
            let snap = &self.pending[i];
            let payload = encode_bencode(snap);
            let ghost before = writes@;
            writes.push(sidecar_write(self.dir.as_slice(), &snap.info_hash, ".stats", payload));
            assert forall|j: int| 0 <= j < i + 1 implies write_matches(
                #[trigger] writes@[j],
                self.root(),
                all[j],
            ) by {
                if j < i {
                    assert(writes@[j] == before[j]);
                }
            }
            i = i + 1;
        }
        self.pending = Vec::new();
        Flush::new(writes, deadline)
    }

    /// Hands over the writes of everything that is pending.
    pub fn flush_now(&mut self) -> (r: Flush)
        ensures
            final(self).wf(),
            final(self).root() == old(self).root(),
            final(self).waiting() == Seq::<StatsSnapshot>::empty(),
            r.wf(),
            r.handed() == 0,
            r.until() is None,
            writes_match(r.all(), old(self).root(), old(self).waiting()),
    {
        self.take_writes(None)
    }

    /// Hands over the writes of everything that is pending, to be begun within
    /// `timeout` from `now` on.
    pub fn flush_graceful(&mut self, now: u64, timeout: u64) -> (r: Flush)
        requires
            now + timeout <= u64::MAX,
        ensures
            final(self).wf(),
            final(self).root() == old(self).root(),
            final(self).waiting() == Seq::<StatsSnapshot>::empty(),
            r.wf(),
            r.handed() == 0,
            r.until() == Some((now + timeout) as u64),
            writes_match(r.all(), old(self).root(), old(self).waiting()),
    {
        self.take_writes(Some(now + timeout))
    }
}

/// Where the counters of a torrent stand.
fn find_snapshot(pending: &Vec<StatsSnapshot>, info_hash: &[u8; 20]) -> (r: Option<usize>)
    ensures
        match (r, pending_at(pending@, info_hash@)) {
            (Some(i), Some(j)) => i == j,
            (None, None) => true,
            _ => false,
        },
{
    let mut found: Option<usize> = None;
    let mut i: usize = 0;
    assert(pending@.take(0) =~= Seq::<StatsSnapshot>::empty());
    while i < pending.len()
        invariant
            i <= pending@.len(),
            match (found, pending_at(pending@.take(i as int), info_hash@)) {
                (Some(a), Some(b)) => a == b,
                (None, None) => true,
                _ => false,
            },
        decreases pending@.len() - i,
    {
        assert(pending@.take(i + 1).drop_last() =~= pending@.take(i as int));
        if found.is_none() && bytes_equal(
            pending[i].info_hash.as_slice(),
            info_hash.as_slice(),
        ) {
            found = Some(i);
        }
        i = i + 1;
    }
    assert(pending@.take(i as int) =~= pending@);
    found
}

/// A sidecar says each counter under its own name: what was sent as uploaded, what
/// was received as downloaded.
pub proof fn law_stats_name_their_counters(uploaded: u64, downloaded: u64)
    requires
        uploaded <= i64::MAX,
        downloaded <= i64::MAX,
    ensures
        ({
            let e = stats_entries(uploaded, downloaded);
            &&& stats_bytes(uploaded, downloaded) == Tree::Dict(e).enc()
            &&& e.len() == 2
            &&& e.contains((codes("uploaded"@), Tree::Int(uploaded as i64)))
            &&& e.contains((codes("downloaded"@), Tree::Int(downloaded as i64)))
        }),
{
    law_stats_are_bencode(uploaded, downloaded);
    let e = stats_entries(uploaded, downloaded);
    assert(e[0] == (codes("downloaded"@), Tree::Int(downloaded as i64)));
    assert(e[1] == (codes("uploaded"@), Tree::Int(uploaded as i64)));
}

/// Counters are taken exactly if both are there and neither is negative, and they
/// are what stands under their names.
pub proof fn law_which_stats_are_taken(entries: Seq<(Seq<u8>, Tree)>)
    ensures
        ({
            let up = int_of(entries, "uploaded"@);
            let down = int_of(entries, "downloaded"@);
            let r = counters_of(entries);
            &&& r is Ok <==> up is Some && down is Some && up->0 >= 0 && down->0 >= 0
            &&& (r matches Ok((u, d)) ==> u == up->0 && d == down->0)
        }),
{
}

/// What is flushed is one sidecar per torrent, in the order in which they came, and
/// each is read back as what was to be kept. No two stand at one place, and none is
/// written in its place before it is whole.
pub proof fn law_flushed_counters_are_read_back(
    writes: Seq<SidecarWrite>,
    dir: Seq<u8>,
    snaps: Seq<StatsSnapshot>,
    i: int,
    j: int,
)
    requires
        writes_match(writes, dir, snaps),
        one_each(snaps),
        0 <= i < snaps.len(),
        0 <= j < snaps.len(),
        i != j,
        snaps[i].uploaded <= i64::MAX,
        snaps[i].downloaded <= i64::MAX,
        writes[i].payload@.len() <= usize::MAX,
    ensures
        writes.len() == snaps.len(),
        read_stats(writes[i].payload@) == Ok::<(u64, u64), Seq<char>>(
            (snaps[i].uploaded, snaps[i].downloaded),
        ),
        writes[i].path@ != writes[j].path@,
        writes[i].tmp@ != writes[i].path@,
        writes[i].path@.len() >= dir.len() && writes[i].path@.take(dir.len() as int) == dir,
{
    assert(write_matches(writes[i], dir, snaps[i]));
    assert(write_matches(writes[j], dir, snaps[j]));
    law_stats_roundtrip(snaps[i].uploaded, snaps[i].downloaded);
    reveal_strlit(".stats");
    reveal_strlit(".tmp");
    if i < j {
        assert(snaps[i].info_hash@ != snaps[j].info_hash@);
    } else {
        assert(snaps[j].info_hash@ != snaps[i].info_hash@);
    }
    lemma_sidecars_apart(dir, snaps[i].info_hash@, snaps[j].info_hash@, ".stats"@);
    assert(writes[i].path@.take(dir.len() as int) =~= dir);
    assert(writes[i].tmp@.len() == writes[i].path@.len() + 4);
}

} // verus!
