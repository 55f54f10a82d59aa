//! A bounded pool of open files, least recently used first to go.
//!
//! Times are nanoseconds on one monotonic clock.
use vstd::prelude::*;

verus! {

/// A file: the storage that it belongs to and its place in it.
#[derive(Debug, Clone, Copy, PartialEq, Eq, Hash, Structural)]
pub struct FdKey {
    /// The storage.
    pub storage_id: u64,
    /// Its place.
    pub entry_idx: u32,
}

/// A file in the pool.
#[derive(Debug)]
pub struct FdSlot<H> {
    /// Which file.
    pub key: FdKey,
    /// When it was last asked for.
    pub last_touched: u64,
    /// The open file.
    pub handle: H,
}

/// Bounded pool of open files. `H` is the handle of an open file.
#[derive(Debug)]
pub struct FdPool<H> {
    cap: usize,
    slots: Vec<FdSlot<H>>,
    opens_total: u64,
}

/// The bounds of the number of open files.
pub open spec fn clamped_cap(cap: int) -> int {
    if cap < 4 {
        4
    } else if cap > 65_536 {
        65_536
    } else {
        cap
    }
}

/// The place of `key`, if it is in the pool.
pub open spec fn place_of<H>(slots: Seq<FdSlot<H>>, key: FdKey) -> Option<int>
    decreases slots.len(),
{
    if slots.len() == 0 {
        None
    } else if slots.last().key == key {
        Some(slots.len() - 1)
    } else {
        place_of(slots.drop_last(), key)
    }
}

/// The file at place `i` is one that was not asked for the longest, the first
/// of them.
pub open spec fn oldest<H>(slots: Seq<FdSlot<H>>, i: int) -> bool {
    &&& 0 <= i < slots.len()
    &&& forall|j: int|
        0 <= j < slots.len() ==> slots[i].last_touched <= (#[trigger] slots[j]).last_touched
    &&& forall|j: int|
        0 <= j < i ==> slots[i].last_touched < (#[trigger] slots[j]).last_touched
}

pub proof fn lemma_place_of<H>(slots: Seq<FdSlot<H>>, key: FdKey)
    ensures
        match place_of(slots, key) {
            Some(i) => 0 <= i < slots.len() && slots[i].key == key,
            None => forall|j: int| 0 <= j < slots.len() ==> (#[trigger] slots[j]).key != key,
        },
    decreases slots.len(),
{
    if slots.len() > 0 && slots.last().key != key {
        let front = slots.drop_last();
        lemma_place_of(front, key);
        match place_of(front, key) {
            Some(i) => {
                assert(front[i] == slots[i]);
            },
            None => {
                assert forall|j: int| 0 <= j < slots.len() implies (#[trigger] slots[j]).key
                    != key by {
                    if j < slots.len() - 1 {
                        assert(front[j] == slots[j]);
                    }
                }
            },
        }
    }
}

impl<H> FdPool<H> {
    /// The files in the pool.
    pub closed spec fn view(&self) -> Seq<FdSlot<H>> {
        self.slots@
    }

    /// The most files that may be open.
    pub closed spec fn limit(&self) -> int {
        self.cap as int
    }

    /// How many files were opened so far, wrapping.
    pub closed spec fn opens(&self) -> u64 {
        self.opens_total
    }

    /// No file twice, and never more than the limit.
    pub open spec fn wf(&self) -> bool {
        &&& 4 <= self.limit() <= 65_536
        &&& self@.len() <= self.limit()
        &&& forall|i: int, j: int|
            0 <= i < self@.len() && 0 <= j < self@.len() && i != j ==> (#[trigger] self@[i]).key
                != (#[trigger] self@[j]).key
    }

    /// A pool of at most `cap` files, within sensible bounds.
    pub fn with_cap(cap: usize) -> (r: FdPool<H>)
        ensures
            r.wf(),
            r.limit() == clamped_cap(cap as int),
            r@ == Seq::<FdSlot<H>>::empty(),
            r.opens() == 0,
    {
        let clamped: usize = if cap < 4 {
            4
        } else if cap > 65_536 {
            65_536
        } else {
            cap
        };
        FdPool { cap: clamped, slots: Vec::new(), opens_total: 0 }
    }

    /// A pool of the usual size.
    pub fn with_default_cap() -> (r: FdPool<H>)
        ensures
            r.wf(),
            r.limit() == 128,
            r@ == Seq::<FdSlot<H>>::empty(),
            r.opens() == 0,
    {
        FdPool::with_cap(FdPool::<H>::default_cap())
    }

    /// The most files that may be open.
    pub fn cap(&self) -> (r: usize)
        ensures
            r == self.limit(),
    {
        self.cap
    }

    /// How many files were opened so far.
    pub fn opens_total(&self) -> (r: u64)
        ensures
            r == self.opens(),
    {
        self.opens_total
    }

    /// The usual size of a pool.
    pub fn default_cap() -> (r: usize)
        ensures
            r == 128,
    {
        128
    }

    fn find(&self, key: FdKey) -> (r: Option<usize>)
        requires
            self.wf(),
        ensures
            match (r, place_of(self@, key)) {
                (Some(i), Some(j)) => i == j && i < self@.len() && self@[i as int].key == key,
                (None, None) => true,
                _ => false,
            },
    {
        let mut i: usize = 0;
        proof {
            lemma_place_of(self@, key);
        }
        while i < self.slots.len()
            invariant
                self.wf(),
                i <= self@.len(),
                self@.len() == self.slots@.len(),
                self@ == self.slots@,
                forall|j: int| 0 <= j < i ==> (#[trigger] self@[j]).key != key,
                match place_of(self@, key) {
                    Some(j) => 0 <= j < self@.len() && self@[j].key == key,
                    None => forall|j: int| 0 <= j < self@.len() ==> (#[trigger] self@[j]).key != key,
                },
            decreases self.slots@.len() - i,
        {
            if self.slots[i].key == key {
                assert(self@[i as int].key == key);
                return Some(i);
            }
            i = i + 1;
        }
        None
    }

    /// The open file of `key`, if it is in the pool. It counts as asked for now.
    pub fn get(&mut self, key: FdKey, now: u64) -> (r: Option<usize>)
        requires
            old(self).wf(),
        ensures
            final(self).wf(),
            final(self).limit() == old(self).limit(),
            final(self).opens() == old(self).opens(),
            match place_of(old(self)@, key) {
                Some(i) => {
                    &&& r == Some(i as usize)
                    &&& i < final(self)@.len()
                    &&& final(self)@ == old(self)@.update(
                        i,
                        FdSlot { last_touched: now, ..old(self)@[i] },
                    )
                },
                None => r is None && final(self)@ == old(self)@,
            },
    {
        match self.find(key) {
            None => None,
            Some(i) => {
                self.slots[i].last_touched = now;
                assert(self@ =~= old(self)@.update(
                    i as int,
                    FdSlot { last_touched: now, ..old(self)@[i as int] },
                ));
                assert forall|a: int, b: int|
                    0 <= a < self@.len() && 0 <= b < self@.len() && a != b implies (
                #[trigger] self@[a]).key != (#[trigger] self@[b]).key by {
                    assert(old(self)@[a].key != old(self)@[b].key);
                }
                Some(i)
            },
        }
    }

    /// The handle at place `i`.
    pub fn handle(&self, i: usize) -> (r: &H)
        requires
            i < self@.len(),
        ensures
            *r == self@[i as int].handle,
    {
        &self.slots[i].handle
    }

    /// Makes room for one more file: a full pool gives up the file that was not
    /// asked for the longest.
    pub fn make_room(&mut self) -> (r: Option<FdSlot<H>>)
        requires
            old(self).wf(),
        ensures
            final(self).wf(),
            final(self).limit() == old(self).limit(),
            final(self).opens() == old(self).opens(),
            final(self)@.len() < final(self).limit(),
            if old(self)@.len() < old(self).limit() {
                r is None && final(self)@ == old(self)@
            } else {
                exists|i: int| #[trigger]
                    oldest(old(self)@, i) && r == Some(old(self)@[i]) && final(self)@ == old(
                        self,
                    )@.remove(i)
            },
    {
        if self.slots.len() < self.cap {
            return None;
        }
        let ghost before = self@;
        let victim: usize = self.lru_victim();
        let gone = self.slots.remove(victim);
        assert(oldest(before, victim as int));
        assert forall|a: int, b: int|
            0 <= a < self@.len() && 0 <= b < self@.len() && a != b implies (#[trigger] self@[a]).key
            != (#[trigger] self@[b]).key by {
            let oa: int = if a < victim {
                a
            } else {
                a + 1
            };
            let ob: int = if b < victim {
                b
            } else {
                b + 1
            };
            assert(before[oa].key != before[ob].key);
        }
        Some(gone)
    }

    /// The file that was not asked for the longest.
    fn lru_victim(&self) -> (r: usize)
        requires
            self@.len() > 0,
        ensures
            oldest(self@, r as int),
    {
        let mut best: usize = 0;
        let mut i: usize = 1;
        while i < self.slots.len()
            invariant
                self@ == self.slots@,
                self@.len() > 0,
                1 <= i <= self@.len(),
                best < i,
                forall|j: int|
                    0 <= j < i ==> self@[best as int].last_touched <= (
                    #[trigger] self@[j]).last_touched,
                forall|j: int|
                    0 <= j < best ==> self@[best as int].last_touched < (
                    #[trigger] self@[j]).last_touched,
            decreases self@.len() - i,
        {
            if self.slots[i].last_touched < self.slots[best].last_touched {
                best = i;
            }
            i = i + 1;
        }
        best
    }

    /// Takes a file in that was just opened. Room must have been made for it.
    pub fn insert(&mut self, key: FdKey, handle: H, now: u64)
        requires
            old(self).wf(),
            old(self)@.len() < old(self).limit(),
            place_of(old(self)@, key) is None,
        ensures
            final(self).wf(),
            final(self).limit() == old(self).limit(),
            final(self)@ == old(self)@.push(FdSlot { key, last_touched: now, handle }),
            final(self).opens() == if old(self).opens() == u64::MAX {
                0
            } else {
                (old(self).opens() + 1) as u64
            },
    {
        proof {
            lemma_place_of(self@, key);
        }
        let ghost before = self@;
        self.opens_total = self.opens_total.wrapping_add(1);
        self.slots.push(FdSlot { key, last_touched: now, handle });
        assert forall|a: int, b: int|
            0 <= a < self@.len() && 0 <= b < self@.len() && a != b implies (#[trigger] self@[a]).key
            != (#[trigger] self@[b]).key by {
            if a < before.len() {
                assert(before[a].key != key);
            }
            if b < before.len() {
                assert(before[b].key != key);
            }
        }
    }
}

/// The number of files that may be open is the one asked for, but at least four
/// and at most 65 536.
pub proof fn law_limit_is_within_bounds(cap: int)
    ensures
        4 <= clamped_cap(cap) <= 65_536,
        4 <= cap <= 65_536 ==> clamped_cap(cap) == cap,
        cap < 4 ==> clamped_cap(cap) == 4,
        cap > 65_536 ==> clamped_cap(cap) == 65_536,
{
}

/// The file that goes was used no later than any other, and a file is found under
/// its key wherever it stands.
pub proof fn law_least_recently_used_goes<H>(slots: Seq<FdSlot<H>>, i: int, j: int)
    requires
        0 <= j < slots.len(),
        forall|a: int, b: int|
            0 <= a < slots.len() && 0 <= b < slots.len() && a != b ==> (#[trigger] slots[a]).key
                != (#[trigger] slots[b]).key,
    ensures
        oldest(slots, i) ==> 0 <= i < slots.len() && slots[i].last_touched
            <= slots[j].last_touched,
        place_of(slots, slots[j].key) == Some(j),
{
    lemma_place_of(slots, slots[j].key);
}

} // verus!
