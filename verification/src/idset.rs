//! Sets of twenty-byte identifiers: hashes of torrents, ids of peers.
use crate::lex::bytes_equal;
use vstd::prelude::*;

verus! {

/// Identifiers by value.
pub open spec fn hashes_view(s: Seq<[u8; 20]>) -> Seq<Seq<u8>> {
    Seq::new(s.len(), |i: int| s[i]@)
}

/// The identifier is one of these.
pub open spec fn among(hashes: Seq<Seq<u8>>, hash: Seq<u8>) -> bool {
    exists|i: int| 0 <= i < hashes.len() && #[trigger] hashes[i] == hash
}

/// No identifier stands twice.
pub open spec fn hashes_distinct(hashes: Seq<Seq<u8>>) -> bool {
    forall|i: int, j: int|
        0 <= i < j < hashes.len() ==> #[trigger] hashes[i] != #[trigger] hashes[j]
}

/// The identifiers without one of them.
pub open spec fn without(hashes: Seq<Seq<u8>>, hash: Seq<u8>) -> Seq<Seq<u8>>
    decreases hashes.len(),
{
    if hashes.len() == 0 {
        hashes
    } else if hashes.last() == hash {
        without(hashes.drop_last(), hash)
    } else {
        without(hashes.drop_last(), hash).push(hashes.last())
    }
}

pub proof fn lemma_without(hashes: Seq<Seq<u8>>, hash: Seq<u8>)
    ensures
        hashes_distinct(hashes) ==> hashes_distinct(without(hashes, hash)),
        forall|h: Seq<u8>| #[trigger]
            among(without(hashes, hash), h) <==> among(hashes, h) && h != hash,
        without(hashes, hash).len() <= hashes.len(),
        among(hashes, hash) ==> without(hashes, hash).len() < hashes.len(),
    decreases hashes.len(),
{
    let r = without(hashes, hash);
    if hashes.len() > 0 {
        let front = hashes.drop_last();
        let last = hashes.last();
        let rest = without(front, hash);
        lemma_without(front, hash);
        if among(hashes, hash) && last != hash {
            let i = choose|i: int| 0 <= i < hashes.len() && #[trigger] hashes[i] == hash;
            assert(front[i] == hash);
        }
        if hashes_distinct(hashes) {
            assert forall|i: int, j: int| 0 <= i < j < front.len() implies #[trigger] front[i]
                != #[trigger] front[j] by {
                assert(hashes[i] != hashes[j]);
            }
            assert(!among(front, last)) by {
                if among(front, last) {
                    let i = choose|i: int| 0 <= i < front.len() && #[trigger] front[i] == last;
                    assert(hashes[i] != hashes[hashes.len() - 1]);
                }
            }
            if last != hash {
                assert(!among(rest, last));
                assert forall|i: int, j: int| 0 <= i < j < r.len() implies #[trigger] r[i]
                    != #[trigger] r[j] by {
                    assert(r[i] == rest[i]);
                    if j < rest.len() {
                        assert(r[j] == rest[j]);
                    } else {
                        assert(among(rest, rest[i]));
                    }
                }
            }
        }
        assert forall|h: Seq<u8>| #[trigger] among(r, h) <==> among(hashes, h) && h != hash by {
            if among(r, h) {
                let i = choose|i: int| 0 <= i < r.len() && #[trigger] r[i] == h;
                if last != hash && i == rest.len() {
                    assert(hashes[hashes.len() - 1] == h);
                } else {
                    assert(rest[i] == h);
                    assert(among(rest, h));
                    let k = choose|k: int| 0 <= k < front.len() && #[trigger] front[k] == h;
                    assert(hashes[k] == h);
                }
            }
            if among(hashes, h) && h != hash {
                let i = choose|i: int| 0 <= i < hashes.len() && #[trigger] hashes[i] == h;
                if i < front.len() {
                    assert(front[i] == h);
                    assert(among(front, h));
                    assert(among(rest, h));
                    let k = choose|k: int| 0 <= k < rest.len() && #[trigger] rest[k] == h;
                    assert(r[k] == h);
                } else {
                    assert(r[rest.len() as int] == h);
                }
            }
        }
    }
}

/// An identifier that was taken out is gone, and every other one is as before.
pub proof fn law_removed_id_is_gone(hashes: Seq<Seq<u8>>, hash: Seq<u8>, other: Seq<u8>)
    ensures
        !among(without(hashes, hash), hash),
        other != hash ==> (among(without(hashes, hash), other) <==> among(hashes, other)),
{
    lemma_without(hashes, hash);
}

/// Taking an identifier out undoes putting it in, when it was not there before.
pub proof fn law_remove_undoes_insert(hashes: Seq<Seq<u8>>, hash: Seq<u8>)
    requires
        !among(hashes, hash),
    ensures
        among(hashes.push(hash), hash),
        without(hashes.push(hash), hash) == hashes,
    decreases hashes.len(),
{
    let all = hashes.push(hash);
    assert(all[hashes.len() as int] == hash);
    assert(all.drop_last() =~= hashes);
    lemma_without_absent(hashes, hash);
}

proof fn lemma_without_absent(hashes: Seq<Seq<u8>>, hash: Seq<u8>)
    requires
        !among(hashes, hash),
    ensures
        without(hashes, hash) == hashes,
    decreases hashes.len(),
{
    if hashes.len() > 0 {
        let front = hashes.drop_last();
        assert(!among(front, hash)) by {
            if among(front, hash) {
                let i = choose|i: int| 0 <= i < front.len() && #[trigger] front[i] == hash;
                assert(hashes[i] == hash);
            }
        }
        assert(hashes[hashes.len() - 1] != hash);
        lemma_without_absent(front, hash);
        assert(front.push(hashes.last()) =~= hashes);
    }
}

/// A set of identifiers, in the order in which they came.
#[derive(Debug)]
pub struct IdSet {
    items: Vec<[u8; 20]>,
}

impl IdSet {
    /// The identifiers.
    pub closed spec fn view(&self) -> Seq<Seq<u8>> {
        hashes_view(self.items@)
    }

    /// No identifier stands twice.
    pub open spec fn wf(&self) -> bool {
        hashes_distinct(self@)
    }

    /// No identifiers.
    pub fn new() -> (r: IdSet)
        ensures
            r.wf(),
            r@ == Seq::<Seq<u8>>::empty(),
    {
        let r = IdSet { items: Vec::new() };
        assert(r@ =~= Seq::<Seq<u8>>::empty());
        r
    }

    /// How many there are.
    pub fn len(&self) -> (r: usize)
        ensures
            r == self@.len(),
    {
        self.items.len()
    }

    /// Whether one is there.
    pub fn contains(&self, id: &[u8; 20]) -> (r: bool)
        ensures
            r == among(self@, id@),
    {
        let ghost all = self@;
        let mut i: usize = 0;
        while i < self.items.len()
            invariant
                i <= self.items@.len(),
                all == hashes_view(self.items@),
                all == self@,
                forall|j: int| 0 <= j < i ==> #[trigger] all[j] != id@,
            decreases self.items@.len() - i,
        {
            assert(all[i as int] == self.items@[i as int]@);
            if bytes_equal(self.items[i].as_slice(), id.as_slice()) {
                return true;
            }
            i = i + 1;
        }
        false
    }

    /// Puts one in. `false` where it was there already.
    pub fn insert(&mut self, id: [u8; 20]) -> (r: bool)
        requires
            old(self).wf(),
        ensures
            final(self).wf(),
            r == !among(old(self)@, id@),
            final(self)@ == (if among(old(self)@, id@) {
                old(self)@
            } else {
                old(self)@.push(id@)
            }),
    {
        if self.contains(&id) {
            return false;
        }
        let ghost before = self@;
        self.items.push(id);
        assert(self@ =~= before.push(id@));
        assert(forall|i: int| 0 <= i < before.len() ==> #[trigger] before[i] != id@);
        true
    }

    /// Takes one out.
    pub fn remove(&mut self, id: &[u8; 20])
        requires
            old(self).wf(),
        ensures
            final(self).wf(),
            final(self)@ == without(old(self)@, id@),
    {
        let ghost all = self@;
        let mut kept: Vec<[u8; 20]> = Vec::new();
        let mut i: usize = 0;
        assert(all.take(0) =~= Seq::<Seq<u8>>::empty());
        assert(hashes_view(kept@) =~= Seq::<Seq<u8>>::empty());
        while i < self.items.len()
            invariant
                i <= self.items@.len(),
                *self == *old(self),
                all == hashes_view(self.items@),
                hashes_view(kept@) == without(all.take(i as int), id@),
            decreases self.items@.len() - i,
        {
            assert(all.take(i + 1).drop_last() =~= all.take(i as int));
            assert(all[i as int] == self.items@[i as int]@);
            let item: [u8; 20] = self.items[i];
            if !bytes_equal(item.as_slice(), id.as_slice()) {
                let ghost before = hashes_view(kept@);
                kept.push(item);
                assert(hashes_view(kept@) =~= before.push(item@));
            }
            i = i + 1;
        }
        assert(all.take(i as int) =~= all);
        self.items = kept;
        proof {
            lemma_without(all, id@);
        }
    }

    /// All of them.
    pub fn to_vec(&self) -> (r: Vec<[u8; 20]>)
        ensures
            hashes_view(r@) == self@,
    {
        let mut out: Vec<[u8; 20]> = Vec::new();
        let mut i: usize = 0;
        while i < self.items.len()
            invariant
                i <= self.items@.len(),
                out@ == self.items@.take(i as int),
            decreases self.items@.len() - i,
        {
            out.push(self.items[i]);
            i = i + 1;
            assert(out@ =~= self.items@.take(i as int));
        }
        assert(out@ =~= self.items@);
        out
    }
}

} // verus!
