//! A cache of whole pieces, shared by all torrents: bounded in bytes, the piece
//! that was not asked for the longest first to go. Of several that miss the
//! same piece at once, one loads it and the others wait for it.
use crate::blob::{blob, blob_bytes, blob_share};
use crate::lex::bytes_equal;
use crate::session::disk::DiskError;
use crate::arith::{wrapped, wrapping};
use bytes::Bytes;
use vstd::prelude::*;

verus! {

/// A torrent's hash and a piece of it.
pub type CacheKey = ([u8; 20], u32);

/// A torrent's hash and a piece of it, by value.
pub type KeyModel = (Seq<u8>, u32);

/// Usual number of bytes: 64 MiB.
pub const DEFAULT_READ_CACHE_BYTES: usize = 67_108_864;

/// How many can wait for one load.
pub const SINGLEFLIGHT_FANOUT: usize = 128;

/// Counters of a cache.
#[derive(Debug, Clone, Copy, PartialEq, Eq, Structural)]
pub struct CacheStats {
    /// Pieces that were there.
    pub hits: u64,
    /// Pieces that were not there and had to be loaded.
    pub misses: u64,
    /// Pieces that were not there but on their way.
    pub singleflight_joins: u64,
    /// Pieces that had to go.
    pub evictions: u64,
    /// Reads past the cache.
    pub bypass_reads: u64,
    /// Pieces in the cache.
    pub entries: usize,
    /// Their bytes.
    pub total_bytes: usize,
}

/// What a look into the cache gives.
#[derive(Debug)]
pub enum Lookup {
    /// The piece.
    Hit(Bytes),
    /// The piece is on its way: wait for it.
    Pending,
    /// The piece is not there: load it.
    Miss,
}

/// What a look into the cache gives, by value.
pub enum LookupModel {
    /// The piece.
    Hit(Seq<u8>),
    /// The piece is on its way.
    Pending,
    /// The piece is not there.
    Miss,
}

impl View for Lookup {
    type V = LookupModel;

    open spec fn view(&self) -> LookupModel {
        match self {
            Lookup::Hit(b) => LookupModel::Hit(blob(*b)),
            Lookup::Pending => LookupModel::Pending,
            Lookup::Miss => LookupModel::Miss,
        }
    }
}

/// A piece in the cache.
#[derive(Debug)]
struct CacheEntry {
    key: CacheKey,
    bytes: Bytes,
    last_access: u64,
}

/// A piece in the cache, by value.
#[verifier::ext_equal]
pub struct EntryModel {
    /// Which piece.
    pub key: KeyModel,
    /// Its bytes.
    pub bytes: Seq<u8>,
    /// When it was last asked for, in looks into the cache.
    pub last_access: u64,
}

/// The key by value.
pub open spec fn key_view(key: CacheKey) -> KeyModel {
    (key.0@, key.1)
}

/// Where a piece stands.
pub open spec fn place_of(entries: Seq<EntryModel>, key: KeyModel) -> Option<int>
    decreases entries.len(),
{
    if entries.len() == 0 {
        None
    } else if entries.last().key == key {
        Some(entries.len() - 1)
    } else {
        place_of(entries.drop_last(), key)
    }
}

/// The bytes of the pieces together.
pub open spec fn total(entries: Seq<EntryModel>) -> nat
    decreases entries.len(),
{
    if entries.len() == 0 {
        0
    } else {
        total(entries.drop_last()) + entries.last().bytes.len()
    }
}

/// The first of the pieces that were not asked for the longest.
pub open spec fn coldest(entries: Seq<EntryModel>) -> int
    decreases entries.len(),
{
    if entries.len() <= 1 {
        0
    } else {
        let c = coldest(entries.drop_last());
        if entries.last().last_access < entries[c].last_access {
            entries.len() - 1
        } else {
            c
        }
    }
}

/// What is left once `size` bytes fit beside it, or nothing.
pub open spec fn evicted(entries: Seq<EntryModel>, size: nat, cap: nat) -> Seq<EntryModel>
    decreases entries.len(),
{
    let c = coldest(entries);
    if total(entries) + size > cap && 0 <= c < entries.len() {
        evicted(entries.remove(c), size, cap)
    } else {
        entries
    }
}

/// The cache by value.
#[verifier::ext_equal]
pub struct CacheModel {
    /// Most bytes.
    pub cap: nat,
    /// The pieces.
    pub entries: Seq<EntryModel>,
    /// The pieces that are on their way.
    pub pending: Seq<KeyModel>,
    /// Looks into the cache so far.
    pub tick: u64,
    /// Pieces that were there.
    pub hits: u64,
    /// Pieces that were not there and had to be loaded.
    pub misses: u64,
    /// Pieces that were not there but on their way.
    pub joins: u64,
    /// Pieces that had to go.
    pub evictions: u64,
    /// Reads past the cache.
    pub bypass_reads: u64,
}

/// The key stands in the sequence.
pub open spec fn waits(pending: Seq<KeyModel>, key: KeyModel) -> bool {
    exists|i: int| 0 <= i < pending.len() && #[trigger] pending[i] == key
}

/// The keys without one of them.
pub open spec fn keys_without(pending: Seq<KeyModel>, key: KeyModel) -> Seq<KeyModel>
    decreases pending.len(),
{
    if pending.len() == 0 {
        pending
    } else if pending.last() == key {
        keys_without(pending.drop_last(), key)
    } else {
        keys_without(pending.drop_last(), key).push(pending.last())
    }
}

impl CacheModel {
    /// No piece is there twice, and the bytes are within the budget.
    pub open spec fn wf(self) -> bool {
        &&& total(self.entries) <= self.cap
        &&& forall|i: int, j: int|
            0 <= i < j < self.entries.len() ==> (#[trigger] self.entries[i]).key != (
            #[trigger] self.entries[j]).key
    }

    /// One more look into the cache.
    pub open spec fn looked(self) -> CacheModel {
        CacheModel { tick: wrapped(self.tick, 1), ..self }
    }

    /// The piece at place `i` was asked for.
    pub open spec fn touched(self, i: int) -> CacheModel {
        CacheModel {
            entries: self.entries.update(
                i,
                EntryModel { last_access: self.tick, ..self.entries[i] },
            ),
            hits: wrapped(self.hits, 1),
            ..self
        }
    }

    /// After a probe.
    pub open spec fn probed(self, key: KeyModel) -> CacheModel {
        match place_of(self.entries, key) {
            Some(i) => self.looked().touched(i),
            None => self.looked(),
        }
    }

    /// What a probe gives.
    pub open spec fn held(self, key: KeyModel) -> Option<Seq<u8>> {
        match place_of(self.entries, key) {
            Some(i) => Some(self.entries[i].bytes),
            None => None,
        }
    }

    /// What a look into the cache gives.
    pub open spec fn found(self, key: KeyModel) -> LookupModel {
        match self.held(key) {
            Some(bytes) => LookupModel::Hit(bytes),
            None => if waits(self.pending, key) {
                LookupModel::Pending
            } else {
                LookupModel::Miss
            },
        }
    }

    /// After a look into the cache.
    pub open spec fn looked_up(self, key: KeyModel) -> CacheModel {
        match self.found(key) {
            LookupModel::Hit(_) => self.probed(key),
            LookupModel::Pending => CacheModel {
                joins: wrapped(self.joins, 1),
                ..self.looked()
            },
            LookupModel::Miss => CacheModel {
                misses: wrapped(self.misses, 1),
                pending: self.pending.push(key),
                ..self.looked()
            },
        }
    }

    /// The pieces without one.
    pub open spec fn others(self, key: KeyModel) -> Seq<EntryModel> {
        match place_of(self.entries, key) {
            Some(i) => self.entries.remove(i),
            None => self.entries,
        }
    }

    /// After a piece came in: others go until it fits. One that is larger than
    /// the budget is not kept.
    pub open spec fn inserted(self, key: KeyModel, bytes: Seq<u8>) -> CacheModel {
        let others = self.others(key);
        let kept = evicted(others, bytes.len(), self.cap);
        let gone = (others.len() - kept.len()) as u64;
        let made = CacheModel {
            entries: kept,
            evictions: wrapped(self.evictions, gone),
            ..self
        };
        if bytes.len() > self.cap {
            made
        } else {
            let tick = wrapped(self.tick, 1);
            CacheModel {
                entries: kept.push(EntryModel { key, bytes, last_access: tick }),
                tick,
                ..made
            }
        }
    }

    /// After a load came to its end.
    pub open spec fn loaded(self, key: KeyModel, result: Option<Seq<u8>>) -> CacheModel {
        let settled = CacheModel { pending: keys_without(self.pending, key), ..self };
        match result {
            Some(bytes) => settled.inserted(key, bytes),
            None => settled,
        }
    }
}

pub proof fn lemma_place_of(entries: Seq<EntryModel>, key: KeyModel)
    ensures
        match place_of(entries, key) {
            Some(i) => 0 <= i < entries.len() && entries[i].key == key,
            None => forall|j: int| 0 <= j < entries.len() ==> (#[trigger] entries[j]).key != key,
        },
    decreases entries.len(),
{
    if entries.len() > 0 && entries.last().key != key {
        let front = entries.drop_last();
        lemma_place_of(front, key);
        match place_of(front, key) {
            Some(i) => {
                assert(front[i] == entries[i]);
            },
            None => {
                assert forall|j: int| 0 <= j < entries.len() implies (#[trigger] entries[j]).key
                    != key by {
                    if j < entries.len() - 1 {
                        assert(front[j] == entries[j]);
                    }
                }
            },
        }
    }
}

/// The coldest piece was asked for no later than any other.
pub proof fn lemma_coldest(entries: Seq<EntryModel>)
    requires
        entries.len() > 0,
    ensures
        0 <= coldest(entries) < entries.len(),
        forall|j: int|
            0 <= j < entries.len() ==> entries[coldest(entries)].last_access <= (
            #[trigger] entries[j]).last_access,
    decreases entries.len(),
{
    if entries.len() > 1 {
        let front = entries.drop_last();
        lemma_coldest(front);
        let c = coldest(front);
        assert(front[c] == entries[c]);
        assert forall|j: int| 0 <= j < entries.len() implies entries[coldest(entries)].last_access
            <= (#[trigger] entries[j]).last_access by {
            if j < front.len() {
                assert(front[j] == entries[j]);
            }
        }
    }
}

/// Taking a piece out takes its bytes out.
proof fn lemma_total_remove(entries: Seq<EntryModel>, i: int)
    requires
        0 <= i < entries.len(),
    ensures
        total(entries) == total(entries.remove(i)) + entries[i].bytes.len(),
    decreases entries.len(),
{
    let rest = entries.remove(i);
    if i == entries.len() - 1 {
        assert(rest =~= entries.drop_last());
    } else {
        let front = entries.drop_last();
        lemma_total_remove(front, i);
        assert(front[i] == entries[i]);
        assert(rest.drop_last() =~= front.remove(i));
        assert(rest.last() == entries.last());
    }
}

/// A piece that is asked for keeps its bytes.
proof fn lemma_total_touch(entries: Seq<EntryModel>, i: int, tick: u64)
    requires
        0 <= i < entries.len(),
    ensures
        total(entries.update(i, EntryModel { last_access: tick, ..entries[i] })) == total(entries),
    decreases entries.len(),
{
    let after = entries.update(i, EntryModel { last_access: tick, ..entries[i] });
    if i == entries.len() - 1 {
        assert(after.drop_last() =~= entries.drop_last());
    } else {
        lemma_total_touch(entries.drop_last(), i, tick);
        assert(entries.drop_last()[i] == entries[i]);
        assert(after.drop_last() =~= entries.drop_last().update(
            i,
            EntryModel { last_access: tick, ..entries[i] },
        ));
    }
}

/// What is left after evicting: nothing new, in the same order, within bounds.
proof fn lemma_evicted(entries: Seq<EntryModel>, size: nat, cap: nat)
    ensures
        evicted(entries, size, cap).len() <= entries.len(),
        total(evicted(entries, size, cap)) <= total(entries),
        total(evicted(entries, size, cap)) + size <= cap || evicted(entries, size, cap).len() == 0,
        forall|x: EntryModel|
            evicted(entries, size, cap).contains(x) ==> #[trigger] entries.contains(x),
        (forall|i: int, j: int|
            0 <= i < j < entries.len() ==> (#[trigger] entries[i]).key != (
            #[trigger] entries[j]).key) ==> forall|i: int, j: int|
            0 <= i < j < evicted(entries, size, cap).len() ==> (#[trigger] evicted(
                entries,
                size,
                cap,
            )[i]).key != (#[trigger] evicted(entries, size, cap)[j]).key,
    decreases entries.len(),
{
    if total(entries) + size > cap && entries.len() > 0 {
        lemma_coldest(entries);
        let c = coldest(entries);
        let rest = entries.remove(c);
        lemma_total_remove(entries, c);
        lemma_evicted(rest, size, cap);
        assert forall|x: EntryModel| evicted(entries, size, cap).contains(x) implies
            #[trigger] entries.contains(x) by {
            assert(rest.contains(x));
            let i = choose|i: int| 0 <= i < rest.len() && rest[i] == x;
            if i < c {
                assert(entries[i] == x);
            } else {
                assert(entries[i + 1] == x);
            }
        }
        if forall|i: int, j: int|
            0 <= i < j < entries.len() ==> (#[trigger] entries[i]).key != (
            #[trigger] entries[j]).key {
            assert forall|i: int, j: int| 0 <= i < j < rest.len() implies (
            #[trigger] rest[i]).key != (#[trigger] rest[j]).key by {
                let a = if i < c {
                    i
                } else {
                    i + 1
                };
                let b = if j < c {
                    j
                } else {
                    j + 1
                };
                assert(rest[i] == entries[a]);
                assert(rest[j] == entries[b]);
            }
        }
    }
}

/// A cache of pieces.
#[derive(Debug)]
pub struct ReadCache {
    cap_bytes: usize,
    entries: Vec<CacheEntry>,
    pending: Vec<CacheKey>,
    total_bytes: usize,
    next_tick: u64,
    hits: u64,
    misses: u64,
    singleflight_joins: u64,
    evictions: u64,
    bypass_reads: u64,
}

/// The pieces by value.
closed spec fn entries_view(s: Seq<CacheEntry>) -> Seq<EntryModel> {
    Seq::new(
        s.len(),
        |i: int|
            EntryModel {
                key: key_view(s[i].key),
                bytes: blob(s[i].bytes),
                last_access: s[i].last_access,
            },
    )
}

/// The keys by value.
pub open spec fn keys_view(s: Seq<CacheKey>) -> Seq<KeyModel> {
    Seq::new(s.len(), |i: int| key_view(s[i]))
}

/// Whether two keys are the same.
fn same_key(a: &CacheKey, b: &CacheKey) -> (r: bool)
    ensures
        r == (key_view(*a) == key_view(*b)),
{
    a.1 == b.1 && bytes_equal(a.0.as_slice(), b.0.as_slice())
}

impl ReadCache {
    /// The cache by value.
    pub closed spec fn view(&self) -> CacheModel {
        CacheModel {
            cap: self.cap_bytes as nat,
            entries: entries_view(self.entries@),
            pending: keys_view(self.pending@),
            tick: self.next_tick,
            hits: self.hits,
            misses: self.misses,
            joins: self.singleflight_joins,
            evictions: self.evictions,
            bypass_reads: self.bypass_reads,
        }
    }

    /// The bytes are counted, within the budget, and no piece is there twice.
    pub closed spec fn wf(&self) -> bool {
        &&& self@.wf()
        &&& self.total_bytes == total(self@.entries)
    }

    /// A cache for `cap_bytes` bytes.
    pub fn new(cap_bytes: usize) -> (r: ReadCache)
        ensures
            r.wf(),
            r@ == (CacheModel {
                cap: cap_bytes as nat,
                entries: Seq::empty(),
                pending: Seq::empty(),
                tick: 0,
                hits: 0,
                misses: 0,
                joins: 0,
                evictions: 0,
                bypass_reads: 0,
            }),
    {
        let r = ReadCache {
            cap_bytes,
            entries: Vec::new(),
            pending: Vec::new(),
            total_bytes: 0,
            next_tick: 0,
            hits: 0,
            misses: 0,
            singleflight_joins: 0,
            evictions: 0,
            bypass_reads: 0,
        };
        assert(r@.entries =~= Seq::<EntryModel>::empty());
        assert(r@.pending =~= Seq::<KeyModel>::empty());
        r
    }

    /// A cache of the usual size.
    pub fn with_defaults() -> (r: ReadCache)
        ensures
            r.wf(),
            r@ == (CacheModel {
                cap: DEFAULT_READ_CACHE_BYTES as nat,
                entries: Seq::empty(),
                pending: Seq::empty(),
                tick: 0,
                hits: 0,
                misses: 0,
                joins: 0,
                evictions: 0,
                bypass_reads: 0,
            }),
    {
        ReadCache::new(DEFAULT_READ_CACHE_BYTES)
    }

    /// The counters.
    pub fn stats(&self) -> (r: CacheStats)
        requires
            self.wf(),
        ensures
            r.hits == self@.hits,
            r.misses == self@.misses,
            r.singleflight_joins == self@.joins,
            r.evictions == self@.evictions,
            r.bypass_reads == self@.bypass_reads,
            r.entries == self@.entries.len(),
            r.total_bytes == total(self@.entries),
    {
        CacheStats {
            hits: self.hits,
            misses: self.misses,
            singleflight_joins: self.singleflight_joins,
            evictions: self.evictions,
            bypass_reads: self.bypass_reads,
            entries: self.entries.len(),
            total_bytes: self.total_bytes,
        }
    }

    /// Where a piece stands.
    fn find(&self, key: &CacheKey) -> (r: Option<usize>)
        ensures
            match (r, place_of(self@.entries, key_view(*key))) {
                (Some(i), Some(j)) => i == j,
                (None, None) => true,
                _ => false,
            },
    {
        let ghost all = self@.entries;
        let ghost k = key_view(*key);
        let mut i: usize = self.entries.len();
        assert(all.take(all.len() as int) =~= all);
        while i > 0
            invariant
                i <= self.entries@.len(),
                all == entries_view(self.entries@),
                all == self@.entries,
                k == key_view(*key),
                place_of(all.take(i as int), k) == place_of(all, k),
            decreases i,
        {
            let ghost now = all.take(i as int);
            assert(now.last() == all[i - 1]);
            assert(now.drop_last() =~= all.take(i - 1));
            if same_key(&self.entries[i - 1].key, key) {
                return Some(i - 1);
            }
            i = i - 1;
        }
        assert(all.take(0) =~= Seq::<EntryModel>::empty());
        None
    }

    /// Whether a piece is on its way.
    fn is_pending(&self, key: &CacheKey) -> (r: bool)
        ensures
            r == waits(self@.pending, key_view(*key)),
    {
        let ghost all = self@.pending;
        let mut i: usize = 0;
        while i < self.pending.len()
            invariant
                i <= self.pending@.len(),
                all == keys_view(self.pending@),
                all == self@.pending,
                forall|j: int| 0 <= j < i ==> #[trigger] all[j] != key_view(*key),
            decreases self.pending@.len() - i,
        {
            assert(all[i as int] == key_view(self.pending@[i as int]));
            if same_key(&self.pending[i], key) {
                return true;
            }
            i = i + 1;
        }
        false
    }

    /// One more look into the cache.
    fn bump_tick(&mut self) -> (r: u64)
        ensures
            final(self)@ == old(self)@.looked(),
            old(self).wf() ==> final(self).wf(),
            r == final(self)@.tick,
            final(self).entries == old(self).entries,
            final(self).total_bytes == old(self).total_bytes,
            final(self).pending == old(self).pending,
    {
        self.next_tick = wrapping(self.next_tick, 1);
        self.next_tick
    }

    /// Hands out the piece at place `i`.
    fn touch(&mut self, i: usize) -> (r: Bytes)
        requires
            old(self).wf(),
            i < old(self)@.entries.len(),
        ensures
            final(self).wf(),
            final(self)@ == old(self)@.touched(i as int),
            blob(r) == old(self)@.entries[i as int].bytes,
    {
        let ghost before = self@;
        let tick: u64 = self.next_tick;
        self.entries[i].last_access = tick;
        self.hits = wrapping(self.hits, 1);
        proof {
            lemma_total_touch(before.entries, i as int, tick);
            assert(self@.entries =~= before.touched(i as int).entries);
            assert(self@ =~= before.touched(i as int));
            assert forall|a: int, b: int| 0 <= a < b < self@.entries.len() implies (
            #[trigger] self@.entries[a]).key != (#[trigger] self@.entries[b]).key by {
                assert(self@.entries[a].key == before.entries[a].key);
                assert(self@.entries[b].key == before.entries[b].key);
            }
        }
        blob_share(&self.entries[i].bytes)
    }

    /// The piece, if it is there. Loads nothing.
    pub fn probe(&mut self, key: CacheKey) -> (r: Option<Bytes>)
        requires
            old(self).wf(),
        ensures
            final(self).wf(),
            final(self)@ == old(self)@.probed(key_view(key)),
            match (r, old(self)@.held(key_view(key))) {
                (Some(a), Some(b)) => blob(a) == b,
                (None, None) => true,
                _ => false,
            },
    {
        let found = self.find(&key);
        proof {
            lemma_place_of(self@.entries, key_view(key));
        }
        self.bump_tick();
        match found {
            Some(i) => Some(self.touch(i)),
            None => None,
        }
    }

    /// The piece, if it is there; otherwise whether to wait for it or to load
    /// it. Whoever is told to load it is the only one until
    /// [`ReadCache::finalize_miss`].
    pub fn lookup(&mut self, key: CacheKey) -> (r: Lookup)
        requires
            old(self).wf(),
        ensures
            final(self).wf(),
            final(self)@ == old(self)@.looked_up(key_view(key)),
            r@ == old(self)@.found(key_view(key)),
    {
        let found = self.find(&key);
        let waiting = self.is_pending(&key);
        proof {
            lemma_place_of(self@.entries, key_view(key));
        }
        self.bump_tick();
        match found {
            Some(i) => Lookup::Hit(self.touch(i)),
            None => {
                let ghost before = self@;
                if waiting {
                    self.singleflight_joins = wrapping(self.singleflight_joins, 1);
                    assert(self@ =~= (CacheModel { joins: wrapped(before.joins, 1), ..before }));
                    Lookup::Pending
                } else {
                    self.pending.push(key);
                    self.misses = wrapping(self.misses, 1);
                    assert(self@.pending =~= before.pending.push(key_view(key)));
                    Lookup::Miss
                }
            },
        }
    }

    /// Takes note of the end of a load, and of the piece if there is one.
    pub fn finalize_miss(&mut self, key: CacheKey, result: &Result<Bytes, DiskError>)
        requires
            old(self).wf(),
        ensures
            final(self).wf(),
            final(self)@ == old(self)@.loaded(
                key_view(key),
                match *result {
                    Ok(b) => Some(blob(b)),
                    Err(_) => None,
                },
            ),
    {
        let ghost before = self@;
        let mut kept: Vec<CacheKey> = Vec::new();
        let mut i: usize = 0;
        let ghost all = keys_view(self.pending@);
        assert(all.take(0) =~= Seq::<KeyModel>::empty());
        assert(keys_view(kept@) =~= Seq::<KeyModel>::empty());
        while i < self.pending.len()
            invariant
                i <= self.pending@.len(),
                *self == *old(self),
                all == keys_view(self.pending@),
                keys_view(kept@) == keys_without(all.take(i as int), key_view(key)),
            decreases self.pending@.len() - i,
        {
            assert(all.take(i + 1).drop_last() =~= all.take(i as int));
            assert(all[i as int] == key_view(self.pending@[i as int]));
            let k: CacheKey = self.pending[i];
            if !same_key(&k, &key) {
                let ghost so_far = keys_view(kept@);
                kept.push(k);
                assert(keys_view(kept@) =~= so_far.push(key_view(k)));
            }
            i = i + 1;
        }
        assert(all.take(i as int) =~= all);
        self.pending = kept;
        assert(self@ =~= (CacheModel {
            pending: keys_without(before.pending, key_view(key)),
            ..before
        }));
        if let Ok(bytes) = result {
            self.insert_evicting(key, blob_share(bytes));
        }
    }

    /// Keeps a piece that was just verified.
    pub fn insert_verified(&mut self, key: CacheKey, bytes: Bytes)
        requires
            old(self).wf(),
        ensures
            final(self).wf(),
            final(self)@ == old(self)@.inserted(key_view(key), blob(bytes)),
    {
        self.insert_evicting(key, bytes);
    }

    /// Counts a read past the cache.
    pub fn read_bypass(&mut self)
        ensures
            old(self).wf() ==> final(self).wf(),
            final(self)@ == (CacheModel {
                bypass_reads: wrapped(old(self)@.bypass_reads, 1),
                ..old(self)@
            }),
    {
        self.bypass_reads = wrapping(self.bypass_reads, 1);
    }

    /// The first of the pieces that were not asked for the longest.
    fn find_coldest(&self) -> (r: usize)
        requires
            self.entries@.len() > 0,
        ensures
            r == coldest(self@.entries),
            r < self.entries@.len(),
    {
        let ghost all = self@.entries;
        let mut best: usize = 0;
        let mut i: usize = 1;
        while i < self.entries.len()
            invariant
                1 <= i <= self.entries@.len(),
                all == entries_view(self.entries@),
                best < i,
                best == coldest(all.take(i as int)),
            decreases self.entries@.len() - i,
        {
            let ghost next = all.take(i + 1);
            assert(next.drop_last() =~= all.take(i as int));
            assert(next[best as int] == all[best as int]);
            if self.entries[i].last_access < self.entries[best].last_access {
                best = i;
            }
            i = i + 1;
        }
        assert(all.take(i as int) =~= all);
        best
    }

    /// Takes out the piece at place `i`.
    fn take_out(&mut self, i: usize)
        requires
            old(self).wf(),
            i < old(self)@.entries.len(),
        ensures
            final(self).wf(),
            final(self)@ == (CacheModel {
                entries: old(self)@.entries.remove(i as int),
                ..old(self)@
            }),
    {
        let ghost before = self@;
        proof {
            lemma_total_remove(before.entries, i as int);
        }
        let gone = self.entries.remove(i);
        self.total_bytes = self.total_bytes - blob_bytes(&gone.bytes).len();
        proof {
            assert(self@.entries =~= before.entries.remove(i as int));
            assert forall|a: int, b: int| 0 <= a < b < self@.entries.len() implies (
            #[trigger] self@.entries[a]).key != (#[trigger] self@.entries[b]).key by {
                let x = if a < i {
                    a
                } else {
                    a + 1
                };
                let y = if b < i {
                    b
                } else {
                    b + 1
                };
                assert(self@.entries[a] == before.entries[x]);
                assert(self@.entries[b] == before.entries[y]);
            }
        }
    }

    /// Keeps a piece, after others went to make room.
    fn insert_evicting(&mut self, key: CacheKey, bytes: Bytes)
        requires
            old(self).wf(),
        ensures
            final(self).wf(),
            final(self)@ == old(self)@.inserted(key_view(key), blob(bytes)),
    {
        let ghost start = self@;
        let ghost k = key_view(key);
        proof {
            lemma_place_of(start.entries, k);
        }
        if let Some(i) = self.find(&key) {
            self.take_out(i);
        }
        let ghost others = start.others(k);
        assert(self@ =~= (CacheModel { entries: others, ..start }));
        let size: usize = blob_bytes(&bytes).len();
        let ghost n = others.len();
        proof {
            assert(self.entries.len() == n);
        }
        while self.entries.len() > 0 && size > self.cap_bytes - self.total_bytes
            invariant
                self.wf(),
                size == blob(bytes).len(),
                self@.cap == start.cap,
                self@.entries.len() <= n,
                n <= usize::MAX,
                evicted(self@.entries, size as nat, start.cap) == evicted(
                    others,
                    size as nat,
                    start.cap,
                ),
                self@ == (CacheModel {
                    entries: self@.entries,
                    evictions: wrapped(start.evictions, (n - self@.entries.len()) as u64),
                    ..start
                }),
            decreases self@.entries.len(),
        {
            let ghost before = self@;
            let victim: usize = self.find_coldest();
            proof {
                lemma_coldest(before.entries);
            }
            self.take_out(victim);
            self.evictions = wrapping(self.evictions, 1);
            assert(self@ =~= (CacheModel {
                entries: before.entries.remove(victim as int),
                evictions: wrapped(before.evictions, 1),
                ..before
            }));
        }
        let ghost kept = evicted(others, size as nat, start.cap);
        assert(self@.entries == kept);
        if size > self.cap_bytes {
            return;
        }
        let ghost made = self@;
        proof {
            lemma_evicted(others, size as nat, start.cap);
            lemma_kept_without(start, k, size as nat);
        }
        let tick: u64 = self.bump_tick();
        self.total_bytes = self.total_bytes + size;
        let ghost model = EntryModel { key: k, bytes: blob(bytes), last_access: tick };
        self.entries.push(CacheEntry { key, bytes, last_access: tick });
        proof {
            assert(self@.entries =~= kept.push(model));
            assert(kept.push(model).drop_last() =~= kept);
            assert(self@ =~= start.inserted(k, blob(bytes)));
        }
    }
}

/// What is kept beside a new piece is not that piece.
proof fn lemma_kept_without(m: CacheModel, key: KeyModel, size: nat)
    requires
        m.wf(),
    ensures
        forall|i: int|
            0 <= i < evicted(m.others(key), size, m.cap).len() ==> (#[trigger] evicted(
                m.others(key),
                size,
                m.cap,
            )[i]).key != key,
{
    let others = m.others(key);
    let kept = evicted(others, size, m.cap);
    lemma_place_of(m.entries, key);
    lemma_evicted(others, size, m.cap);
    assert forall|i: int| 0 <= i < kept.len() implies (#[trigger] kept[i]).key != key by {
        assert(kept.contains(kept[i]));
        assert(others.contains(kept[i]));
        let j = choose|j: int| 0 <= j < others.len() && others[j] == kept[i];
        match place_of(m.entries, key) {
            Some(p) => {
                let q = if j < p {
                    j
                } else {
                    j + 1
                };
                assert(others[j] == m.entries[q]);
                if q < p {
                    assert(m.entries[q].key != m.entries[p].key);
                } else {
                    assert(m.entries[p].key != m.entries[q].key);
                }
            },
            None => {},
        }
    }
}

/// A piece that fits the budget is there after it came in, with its bytes.
pub proof fn law_inserted_piece_is_held(m: CacheModel, key: KeyModel, bytes: Seq<u8>)
    requires
        bytes.len() <= m.cap,
    ensures
        m.inserted(key, bytes).held(key) == Some(bytes),
        m.inserted(key, bytes).found(key) == LookupModel::Hit(bytes),
{
}

/// A piece is loaded once: after a miss, further looks wait for it until the
/// load is over.
pub proof fn law_one_load_at_a_time(m: CacheModel, key: KeyModel)
    requires
        m.found(key) is Miss,
    ensures
        m.looked_up(key).found(key) is Pending,
        m.looked_up(key).looked_up(key).found(key) is Pending,
{
    let after = m.looked_up(key);
    assert(after.pending[m.pending.len() as int] == key);
    assert(waits(after.pending, key));
}

/// After a load is over nobody waits for it; where it failed, the next look
/// starts it again.
pub proof fn law_load_ends(m: CacheModel, key: KeyModel, result: Option<Seq<u8>>)
    ensures
        !waits(m.loaded(key, result).pending, key),
        m.held(key) is None ==> m.loaded(key, None).found(key) is Miss,
{
    lemma_keys_without(m.pending, key);
}

proof fn lemma_keys_without(pending: Seq<KeyModel>, key: KeyModel)
    ensures
        !waits(keys_without(pending, key), key),
    decreases pending.len(),
{
    if pending.len() > 0 {
        let front = pending.drop_last();
        lemma_keys_without(front, key);
        let rest = keys_without(front, key);
        let r = keys_without(pending, key);
        if waits(r, key) {
            let i = choose|i: int| 0 <= i < r.len() && #[trigger] r[i] == key;
            assert(i < rest.len());
            assert(rest[i] == key);
        }
    }
}

/// A read past the cache leaves the pieces as they are.
pub proof fn law_bypass_keeps_pieces(m: CacheModel, key: KeyModel)
    ensures
        (CacheModel { bypass_reads: wrapped(m.bypass_reads, 1), ..m }).entries == m.entries,
        (CacheModel { bypass_reads: wrapped(m.bypass_reads, 1), ..m }).found(key) == m.found(key),
{
}

/// Every piece that has to go was asked for no later than every piece that
/// stays.
pub proof fn law_coldest_goes_first(
    entries: Seq<EntryModel>,
    size: nat,
    cap: nat,
    gone: EntryModel,
    stays: EntryModel,
)
    requires
        entries.contains(gone),
        !evicted(entries, size, cap).contains(gone),
        evicted(entries, size, cap).contains(stays),
    ensures
        gone.last_access <= stays.last_access,
    decreases entries.len(),
{
    if total(entries) + size > cap && entries.len() > 0 {
        lemma_coldest(entries);
        lemma_evicted(entries, size, cap);
        let c = coldest(entries);
        let rest = entries.remove(c);
        let i = choose|i: int| 0 <= i < entries.len() && entries[i] == gone;
        assert(entries.contains(stays));
        let j = choose|j: int| 0 <= j < entries.len() && entries[j] == stays;
        if i != c {
            if i < c {
                assert(rest[i] == gone);
            } else {
                assert(rest[i - 1] == gone);
            }
            assert(rest.contains(gone));
            law_coldest_goes_first(rest, size, cap, gone, stays);
        }
    }
}

/// A look finds a piece exactly if it is there, with its bytes, and then it is the
/// last that was asked for; the others keep their places, bytes and times. A piece
/// that is not there is waited for where its load is under way; else the look
/// starts one. No look takes a piece out.
pub proof fn law_look_finds_what_is_there(m: CacheModel, key: KeyModel, at: int)
    requires
        m.wf(),
    ensures
        ({
            let n = m.looked_up(key);
            let there = 0 <= at < m.entries.len() && m.entries[at].key == key;
            let absent = forall|i: int|
                0 <= i < m.entries.len() ==> (#[trigger] m.entries[i]).key != key;
            let loading = exists|i: int| 0 <= i < m.pending.len() && #[trigger] m.pending[i] == key;
            &&& n.entries.len() == m.entries.len()
            &&& n.cap == m.cap && n.evictions == m.evictions && n.bypass_reads == m.bypass_reads
            &&& m.tick < u64::MAX ==> n.tick == m.tick + 1
            &&& there ==> {
                &&& m.found(key) == LookupModel::Hit(m.entries[at].bytes)
                &&& m.held(key) == Some(m.entries[at].bytes)
                &&& n.entries[at].key == key && n.entries[at].bytes == m.entries[at].bytes
                &&& n.entries[at].last_access == n.tick
                &&& forall|i: int|
                    0 <= i < m.entries.len() && i != at ==> #[trigger] n.entries[i] == m.entries[i]
                &&& n.pending == m.pending
                &&& m.hits < u64::MAX ==> n.hits == m.hits + 1
                &&& n.misses == m.misses && n.joins == m.joins
                &&& m.probed(key) == n
            }
            &&& absent ==> n.entries == m.entries && n.hits == m.hits && m.held(key) is None
            &&& (absent && loading) ==> {
                &&& m.found(key) is Pending
                &&& n.pending == m.pending && n.misses == m.misses
                &&& m.joins < u64::MAX ==> n.joins == m.joins + 1
            }
            &&& (absent && !loading) ==> {
                &&& m.found(key) is Miss
                &&& n.pending == m.pending.push(key) && n.joins == m.joins
                &&& m.misses < u64::MAX ==> n.misses == m.misses + 1
            }
        }),
{
    lemma_place_of(m.entries, key);
    if 0 <= at < m.entries.len() && m.entries[at].key == key {
        let p = place_of(m.entries, key)->0;
        if p < at {
            assert(m.entries[p].key != m.entries[at].key);
        } else if at < p {
            assert(m.entries[at].key != m.entries[p].key);
        }
    }
}

/// Pieces go only where there is too little room: as long as all fit, none does.
proof fn lemma_nothing_goes(entries: Seq<EntryModel>, size: nat, cap: nat)
    requires
        total(entries) + size <= cap,
    ensures
        evicted(entries, size, cap) == entries,
{
}

/// No more pieces go than have to: what stays would not fit with any one of those
/// that went.
proof fn lemma_no_more_goes(entries: Seq<EntryModel>, size: nat, cap: nat)
    requires
        evicted(entries, size, cap).len() < entries.len(),
    ensures
        exists|x: EntryModel| #[trigger]
            entries.contains(x) && total(evicted(entries, size, cap)) + x.bytes.len() + size > cap,
    decreases entries.len(),
{
    lemma_coldest(entries);
    let c = coldest(entries);
    let rest = entries.remove(c);
    lemma_total_remove(entries, c);
    if evicted(rest, size, cap).len() < rest.len() {
        lemma_no_more_goes(rest, size, cap);
        let x = choose|x: EntryModel| #[trigger]
            rest.contains(x) && total(evicted(rest, size, cap)) + x.bytes.len() + size > cap;
        let i = choose|i: int| 0 <= i < rest.len() && rest[i] == x;
        let j = if i < c { i } else { i + 1 };
        assert(entries[j] == x);
        assert(entries.contains(x));
    } else {
        lemma_evicted(rest, size, cap);
        assert(evicted(rest, size, cap) == rest) by {
            if total(rest) + size > cap && rest.len() > 0 {
                lemma_coldest(rest);
                lemma_evicted(rest.remove(coldest(rest)), size, cap);
            }
        }
        assert(entries.contains(entries[c]));
    }
}

/// A piece that comes in is there with its bytes, as the last that was asked for,
/// in place of an older copy. Where everything fits, every other piece stays as it
/// is and none is counted as gone. Where it does not, every piece that stays is as
/// it was. A piece that no room could hold does not stay.
pub proof fn law_insertion_keeps_what_fits(m: CacheModel, key: KeyModel, bytes: Seq<u8>, i: int)
    requires
        m.wf(),
        0 <= i < m.entries.len(),
        m.entries[i].key != key,
    ensures
        ({
            let n = m.inserted(key, bytes);
            let last = n.entries.last();
            &&& bytes.len() <= m.cap ==> {
                &&& n.entries.len() > 0
                &&& last.key == key && last.bytes == bytes && last.last_access == n.tick
                &&& m.tick < u64::MAX ==> n.tick == m.tick + 1
            }
            &&& (total(m.entries) + bytes.len() <= m.cap) ==> {
                &&& n.entries.contains(m.entries[i])
                &&& n.evictions == m.evictions
            }
            &&& forall|k: int|
                0 <= k < n.entries.len() && (#[trigger] n.entries[k]).key != key
                    ==> m.entries.contains(n.entries[k])
            &&& total(n.entries) <= m.cap
            &&& bytes.len() > m.cap ==> forall|k: int|
                0 <= k < n.entries.len() ==> (#[trigger] n.entries[k]).key != key
            &&& n.cap == m.cap && n.pending == m.pending && n.hits == m.hits && n.misses == m.misses
            &&& n.joins == m.joins && n.bypass_reads == m.bypass_reads
        }),
{
    let n = m.inserted(key, bytes);
    let others = m.others(key);
    let kept = evicted(others, bytes.len(), m.cap);
    lemma_place_of(m.entries, key);
    lemma_evicted(others, bytes.len(), m.cap);
    if let Some(p) = place_of(m.entries, key) {
        lemma_total_remove(m.entries, p);
        let j = if i < p { i } else { i - 1 };
        assert(others[j] == m.entries[i]);
    } else {
        assert(others[i] == m.entries[i]);
    }
    assert forall|x: EntryModel| #[trigger] others.contains(x) implies m.entries.contains(x) && x.key
        != key by {
        let j = choose|j: int| 0 <= j < others.len() && others[j] == x;
        match place_of(m.entries, key) {
            Some(p) => {
                let k = if j < p { j } else { j + 1 };
                assert(m.entries[k] == x);
                if k < p {
                    assert(m.entries[k].key != m.entries[p].key);
                } else {
                    assert(m.entries[p].key != m.entries[k].key);
                }
            },
            None => {
                assert(m.entries[j] == x);
            },
        }
    }
    assert forall|k: int| 0 <= k < kept.len() implies others.contains(#[trigger] kept[k]) by {
        assert(kept.contains(kept[k]));
    }
    assert forall|k: int| 0 <= k < n.entries.len() && (#[trigger] n.entries[k]).key != key implies m.entries.contains(
    n.entries[k]) by {
        if k < kept.len() {
            assert(n.entries[k] == kept[k]);
            assert(others.contains(kept[k]));
        }
    }
    if total(m.entries) + bytes.len() <= m.cap {
        lemma_nothing_goes(others, bytes.len(), m.cap);
        let j = choose|j: int| 0 <= j < others.len() && others[j] == m.entries[i];
        assert(n.entries[j] == m.entries[i]);
    }
    if bytes.len() <= m.cap {
        assert(n.entries.drop_last() =~= kept);
        if kept.len() == 0 {
            assert(total(kept) == 0);
        }
    } else {
        assert forall|k: int| 0 <= k < n.entries.len() implies (#[trigger] n.entries[k]).key != key by {
            assert(others.contains(kept[k]));
        }
    }
}

/// Pieces go only until the new one fits: where any went, the pieces that stay and
/// the new one would be too many with one more of those that were there.
pub proof fn law_no_more_goes_than_has_to(m: CacheModel, key: KeyModel, bytes: Seq<u8>)
    requires
        m.wf(),
        bytes.len() <= m.cap,
        m.inserted(key, bytes).entries.len() <= m.others(key).len(),
    ensures
        exists|x: EntryModel| #[trigger]
            m.others(key).contains(x) && total(m.inserted(key, bytes).entries) + x.bytes.len()
                > m.cap,
{
    let others = m.others(key);
    let kept = evicted(others, bytes.len(), m.cap);
    let n = m.inserted(key, bytes);
    lemma_evicted(others, bytes.len(), m.cap);
    lemma_no_more_goes(others, bytes.len(), m.cap);
    assert(n.entries.drop_last() =~= kept);
    let x = choose|x: EntryModel| #[trigger]
        others.contains(x) && total(kept) + x.bytes.len() + bytes.len() > m.cap;
    assert(others.contains(x));
}

/// What a load gave comes in, and a load that failed brings nothing and takes
/// nothing. Nobody waits for it any more, and every other load goes on.
pub proof fn law_load_brings_what_was_read(m: CacheModel, key: KeyModel, bytes: Seq<u8>, other: KeyModel)
    requires
        m.wf(),
    ensures
        m.loaded(key, None).entries == m.entries,
        bytes.len() <= m.cap ==> m.loaded(key, Some(bytes)).held(key) == Some(bytes),
        other != key ==> (waits(m.loaded(key, Some(bytes)).pending, other) <==> waits(
            m.pending,
            other,
        )),
        other != key ==> (waits(m.loaded(key, None).pending, other) <==> waits(m.pending, other)),
        !waits(m.loaded(key, None).pending, key),
        !waits(m.loaded(key, Some(bytes)).pending, key),
{
    lemma_keys_without(m.pending, key);
    if other != key {
        lemma_others_wait(m.pending, key, other);
    }
}

proof fn lemma_others_wait(pending: Seq<KeyModel>, key: KeyModel, other: KeyModel)
    requires
        other != key,
    ensures
        waits(keys_without(pending, key), other) <==> waits(pending, other),
    decreases pending.len(),
{
    if pending.len() > 0 {
        let front = pending.drop_last();
        let rest = keys_without(front, key);
        let r = keys_without(pending, key);
        lemma_others_wait(front, key, other);
        if waits(r, other) {
            let i = choose|i: int| 0 <= i < r.len() && #[trigger] r[i] == other;
            if i < rest.len() {
                assert(rest[i] == other);
                let j = choose|j: int| 0 <= j < front.len() && #[trigger] front[j] == other;
                assert(pending[j] == other);
            } else {
                assert(pending[pending.len() - 1] == other);
            }
        }
        if waits(pending, other) {
            let j = choose|j: int| 0 <= j < pending.len() && #[trigger] pending[j] == other;
            if j < front.len() {
                assert(front[j] == other);
                let i = choose|i: int| 0 <= i < rest.len() && #[trigger] rest[i] == other;
                assert(r[i] == other);
            } else {
                assert(r[rest.len() as int] == other);
            }
        }
    }
}

} // verus!
