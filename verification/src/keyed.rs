//! Sequences of keys and values.
use vstd::prelude::*;

verus! {

/// Where `k` first stands as a key.
pub open spec fn find_key<K, V>(s: Seq<(K, V)>, k: K) -> Option<int>
    decreases s.len(),
{
    if s.len() == 0 {
        None
    } else if s[0].0 == k {
        Some(0int)
    } else {
        match find_key(s.drop_first(), k) {
            Some(i) => Some(i + 1),
            None => None,
        }
    }
}

/// No key stands twice.
pub open spec fn keys_distinct<K, V>(s: Seq<(K, V)>) -> bool {
    forall|i: int, j: int|
        0 <= i < s.len() && 0 <= j < s.len() && i != j ==> (#[trigger] s[i]).0 != (
        #[trigger] s[j]).0
}

/// `i` is where `k` first stands.
pub proof fn lemma_find_at<K, V>(s: Seq<(K, V)>, k: K, i: int)
    requires
        0 <= i < s.len(),
        s[i].0 == k,
        forall|j: int| 0 <= j < i ==> (#[trigger] s[j]).0 != k,
    ensures
        find_key(s, k) == Some(i),
    decreases s.len(),
{
    if i > 0 {
        assert(s[0].0 != k);
        let t = s.drop_first();
        assert forall|j: int| 0 <= j < i - 1 implies (#[trigger] t[j]).0 != k by {
            assert(t[j] == s[j + 1]);
        }
        lemma_find_at(t, k, i - 1);
    }
}

/// What `find_key` finds.
pub proof fn lemma_find<K, V>(s: Seq<(K, V)>, k: K)
    ensures
        match find_key(s, k) {
            Some(i) => 0 <= i < s.len() && s[i].0 == k && forall|j: int|
                0 <= j < i ==> (#[trigger] s[j]).0 != k,
            None => forall|j: int| 0 <= j < s.len() ==> (#[trigger] s[j]).0 != k,
        },
    decreases s.len(),
{
    if s.len() > 0 && s[0].0 != k {
        let t = s.drop_first();
        lemma_find(t, k);
        match find_key(t, k) {
            Some(i) => {
                assert(t[i] == s[i + 1]);
                assert forall|j: int| 0 <= j < i + 1 implies (#[trigger] s[j]).0 != k by {
                    if j > 0 {
                        assert(t[j - 1] == s[j]);
                    }
                }
            },
            None => {
                assert forall|j: int| 0 <= j < s.len() implies (#[trigger] s[j]).0 != k by {
                    if j > 0 {
                        assert(t[j - 1] == s[j]);
                    }
                }
            },
        }
    }
}

/// With distinct keys, a key is found wherever it stands.
pub proof fn lemma_find_unique<K, V>(s: Seq<(K, V)>, i: int)
    requires
        keys_distinct(s),
        0 <= i < s.len(),
    ensures
        find_key(s, s[i].0) == Some(i),
{
    lemma_find_at(s, s[i].0, i);
}

/// Two sequences with the same keys in the same places find the same.
pub proof fn lemma_find_same_keys<K, V, W>(s: Seq<(K, V)>, t: Seq<(K, W)>, k: K)
    requires
        s.len() == t.len(),
        forall|i: int| 0 <= i < s.len() ==> (#[trigger] s[i]).0 == t[i].0,
    ensures
        find_key(s, k) == find_key(t, k),
{
    lemma_find(s, k);
    lemma_find(t, k);
    match find_key(s, k) {
        Some(i) => {
            assert(t[i].0 == s[i].0);
            assert forall|j: int| 0 <= j < i implies (#[trigger] t[j]).0 != k by {
                assert(s[j].0 == t[j].0);
            }
            lemma_find_at(t, k, i);
        },
        None => {
            match find_key(t, k) {
                Some(i) => {
                    assert(s[i].0 == t[i].0);
                },
                None => {},
            }
        },
    }
}

/// `s` with `v` under `k`, in place of what stood there.
pub open spec fn with_entry<K, V>(s: Seq<(K, V)>, k: K, v: V) -> Seq<(K, V)> {
    match find_key(s, k) {
        Some(i) => s.update(i, (k, v)),
        None => s.push((k, v)),
    }
}

/// `s` without the first entry under `k`.
pub open spec fn without_entry<K, V>(s: Seq<(K, V)>, k: K) -> Seq<(K, V)> {
    match find_key(s, k) {
        Some(i) => s.remove(i),
        None => s,
    }
}

pub proof fn lemma_with_entry<K, V>(s: Seq<(K, V)>, k: K, v: V)
    requires
        keys_distinct(s),
    ensures
        keys_distinct(with_entry(s, k, v)),
        forall|i: int|
            0 <= i < with_entry(s, k, v).len() ==> (#[trigger] with_entry(s, k, v)[i]).1 == v
                || (i < s.len() && with_entry(s, k, v)[i] == s[i]),
        ({
            let at = find_key(with_entry(s, k, v), k);
            at is Some && with_entry(s, k, v)[at->0].1 == v
        }),
{
    let after = with_entry(s, k, v);
    lemma_find(s, k);
    match find_key(s, k) {
        Some(i) => {
            assert(after[i] == (k, v));
            assert forall|j: int| 0 <= j < i implies (#[trigger] after[j]).0 != k by {
                assert(after[j] == s[j]);
            }
            lemma_find_at(after, k, i);
            assert forall|a: int, b: int|
                0 <= a < after.len() && 0 <= b < after.len() && a != b implies (
            #[trigger] after[a]).0 != (#[trigger] after[b]).0 by {
                assert(s[a].0 != s[b].0);
            }
        },
        None => {
            let n = s.len() as int;
            assert(after[n] == (k, v));
            assert forall|j: int| 0 <= j < n implies (#[trigger] after[j]).0 != k by {
                assert(after[j] == s[j]);
            }
            lemma_find_at(after, k, n);
            assert forall|a: int, b: int|
                0 <= a < after.len() && 0 <= b < after.len() && a != b implies (
            #[trigger] after[a]).0 != (#[trigger] after[b]).0 by {
                if a < n && b < n {
                    assert(s[a].0 != s[b].0);
                }
            }
        },
    }
}

pub proof fn lemma_without_entry<K, V>(s: Seq<(K, V)>, k: K)
    requires
        keys_distinct(s),
    ensures
        keys_distinct(without_entry(s, k)),
        find_key(without_entry(s, k), k) is None,
        forall|i: int|
            0 <= i < without_entry(s, k).len() ==> s.contains(#[trigger] without_entry(s, k)[i]),
{
    let after = without_entry(s, k);
    lemma_find(s, k);
    match find_key(s, k) {
        Some(p) => {
            assert forall|i: int| 0 <= i < after.len() implies s.contains(#[trigger] after[i])
                && after[i].0 != k by {
                let q = if i < p {
                    i
                } else {
                    i + 1
                };
                assert(after[i] == s[q]);
                assert(s[q].0 != s[p].0);
            }
            assert forall|a: int, b: int|
                0 <= a < after.len() && 0 <= b < after.len() && a != b implies (
            #[trigger] after[a]).0 != (#[trigger] after[b]).0 by {
                let x = if a < p {
                    a
                } else {
                    a + 1
                };
                let y = if b < p {
                    b
                } else {
                    b + 1
                };
                assert(after[a] == s[x] && after[b] == s[y]);
                assert(s[x].0 != s[y].0);
            }
        },
        None => {
            assert forall|i: int| 0 <= i < after.len() implies s.contains(#[trigger] after[i]) by {
                assert(s[i] == after[i]);
            }
        },
    }
    lemma_find(after, k);
}

} // verus!
