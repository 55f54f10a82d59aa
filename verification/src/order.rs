//! Sorting pairs of numbers.
use vstd::prelude::*;

verus! {

/// `a` comes no later than `b`: smaller first number, or the same and no larger
/// second number.
pub open spec fn pair_le(a: (u64, u64), b: (u64, u64)) -> bool {
    a.0 < b.0 || (a.0 == b.0 && a.1 <= b.1)
}

/// No pair comes before one in front of it.
pub open spec fn pairs_sorted(s: Seq<(u64, u64)>) -> bool {
    forall|i: int, j: int| 0 <= i <= j < s.len() ==> pair_le(#[trigger] s[i], #[trigger] s[j])
}

proof fn lemma_push_multiset(s: Seq<(u64, u64)>, x: (u64, u64))
    ensures
        s.push(x).to_multiset() == s.to_multiset().insert(x),
{
    s.to_multiset_ensures();
}

/// Merges two sorted vectors.
fn merge_pairs(a: &Vec<(u64, u64)>, b: &Vec<(u64, u64)>) -> (r: Vec<(u64, u64)>)
    requires
        pairs_sorted(a@),
        pairs_sorted(b@),
    ensures
        pairs_sorted(r@),
        r@.to_multiset() == a@.to_multiset().add(b@.to_multiset()),
        r@.len() == a@.len() + b@.len(),
{
    let mut out: Vec<(u64, u64)> = Vec::new();
    let mut i: usize = 0;
    let mut j: usize = 0;
    assert(a@.take(0) =~= Seq::<(u64, u64)>::empty());
    assert(b@.take(0) =~= Seq::<(u64, u64)>::empty());
    proof {
        Seq::<(u64, u64)>::empty().to_multiset_ensures();
        assert(out@.to_multiset() =~= a@.take(0).to_multiset().add(b@.take(0).to_multiset()));
    }
    while i < a.len() || j < b.len()
        invariant
            i <= a@.len(),
            j <= b@.len(),
            pairs_sorted(a@),
            pairs_sorted(b@),
            pairs_sorted(out@),
            out@.len() == i + j,
            out@.to_multiset() == a@.take(i as int).to_multiset().add(
                b@.take(j as int).to_multiset(),
            ),
            forall|x: int, y: int|
                0 <= x < out@.len() && i <= y < a@.len() ==> pair_le(
                    #[trigger] out@[x],
                    #[trigger] a@[y],
                ),
            forall|x: int, y: int|
                0 <= x < out@.len() && j <= y < b@.len() ==> pair_le(
                    #[trigger] out@[x],
                    #[trigger] b@[y],
                ),
        decreases a@.len() - i + b@.len() - j,
    {
        let from_a: bool = if i >= a.len() {
            false
        } else if j >= b.len() {
            true
        } else {
            a[i].0 < b[j].0 || (a[i].0 == b[j].0 && a[i].1 <= b[j].1)
        };
        let ghost before = out@;
        if from_a {
            let x = a[i];
            proof {
                lemma_push_multiset(before, x);
                lemma_push_multiset(a@.take(i as int), x);
                assert(a@.take(i + 1) =~= a@.take(i as int).push(x));
                assert(before.to_multiset().insert(x) =~= a@.take(i as int).to_multiset().insert(
                    x,
                ).add(b@.take(j as int).to_multiset()));
            }
            out.push(x);
            i = i + 1;
        } else {
            let x = b[j];
            proof {
                lemma_push_multiset(before, x);
                lemma_push_multiset(b@.take(j as int), x);
                assert(b@.take(j + 1) =~= b@.take(j as int).push(x));
                assert(before.to_multiset().insert(x) =~= a@.take(i as int).to_multiset().add(
                    b@.take(j as int).to_multiset().insert(x),
                ));
            }
            out.push(x);
            j = j + 1;
        }
    }
    assert(a@.take(i as int) =~= a@);
    assert(b@.take(j as int) =~= b@);
    out
}

/// Sorts `v` in ascending order.
pub fn sort_pairs(v: Vec<(u64, u64)>) -> (r: Vec<(u64, u64)>)
    ensures
        pairs_sorted(r@),
        r@.to_multiset() == v@.to_multiset(),
        r@.len() == v@.len(),
    decreases v@.len(),
{
    if v.len() <= 1 {
        return v;
    }
    let ghost all = v@;
    let mut left = v;
    let half: usize = left.len() / 2;
    let right = left.split_off(half);
    proof {
        let l = all.subrange(0, half as int);
        let r = all.subrange(half as int, all.len() as int);
        vstd::seq_lib::lemma_multiset_commutative(l, r);
        assert(l + r =~= all);
    }
    let a = sort_pairs(left);
    let b = sort_pairs(right);
    merge_pairs(&a, &b)
}

/// Two sequences with the same items in the same numbers hold the same items.
pub proof fn lemma_same_items(a: Seq<(u64, u64)>, b: Seq<(u64, u64)>, x: (u64, u64))
    requires
        a.to_multiset() == b.to_multiset(),
    ensures
        a.contains(x) <==> b.contains(x),
{
    a.to_multiset_ensures();
    b.to_multiset_ensures();
    assert(a.contains(x) <==> a.to_multiset().count(x) > 0);
    assert(b.contains(x) <==> b.to_multiset().count(x) > 0);
}

/// A sequence that holds nothing twice keeps that when it is sorted.
pub proof fn lemma_same_distinct(a: Seq<(u64, u64)>, b: Seq<(u64, u64)>)
    requires
        a.to_multiset() == b.to_multiset(),
        a.no_duplicates(),
    ensures
        b.no_duplicates(),
{
    a.lemma_multiset_has_no_duplicates();
    b.lemma_multiset_has_no_duplicates_conv();
}

} // verus!
