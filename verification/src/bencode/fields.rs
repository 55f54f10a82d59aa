//! Dictionaries with known keys.
use crate::bencode::tree::{entries_height, entries_nodes, entries_wf, keys_ascend, Tree};
use crate::bencode::value::{entry_at, entry_trees, lemma_entry_trees_index, lemma_slot_last, Dict, Value};
use crate::keyed::{find_key, lemma_find, lemma_find_at};
use crate::lex::{
    lemma_lex_difference, lemma_lex_irreflexive, lemma_lex_transitive, lex_less,
};
use std::borrow::Cow;
use vstd::prelude::*;
use vstd::utf8::{encode_utf8, is_ascii_chars, is_ascii_chars_encode_utf8};

verus! {

/// The code of each character.
pub open spec fn codes(s: Seq<char>) -> Seq<u8> {
    Seq::new(s.len(), |i: int| s[i] as u8)
}

/// The codes of ASCII text.
pub fn ascii(s: &str) -> (r: &[u8])
    requires
        is_ascii_chars(s@),
    ensures
        r@ == codes(s@),
{
    proof {
        is_ascii_chars_encode_utf8(s@);
        assert(encode_utf8(s@) =~= codes(s@));
    }
    s.as_bytes()
}

/// Of two texts that differ first at `i`, the one with the smaller code there
/// comes first.
pub proof fn lemma_codes_less(a: Seq<char>, b: Seq<char>, i: int)
    requires
        0 <= i < a.len(),
        i < b.len(),
        forall|j: int| 0 <= j < i ==> a[j] == b[j],
        (a[i] as u8) < (b[i] as u8),
    ensures
        lex_less(codes(a), codes(b)),
{
    lemma_lex_difference(codes(a), codes(b), i);
}

/// The value of the first entry with this key.
pub open spec fn field_of(entries: Seq<(Seq<u8>, Tree)>, key: Seq<char>) -> Option<Tree> {
    match find_key(entries, codes(key)) {
        Some(i) => Some(entries[i].1),
        None => None,
    }
}

/// The integer under this key, if there is one.
pub open spec fn int_of(entries: Seq<(Seq<u8>, Tree)>, key: Seq<char>) -> Option<i64> {
    match field_of(entries, key) {
        Some(Tree::Int(n)) => Some(n),
        _ => None,
    }
}

/// The byte string under this key, if there is one.
pub open spec fn bytes_of(entries: Seq<(Seq<u8>, Tree)>, key: Seq<char>) -> Option<Seq<u8>> {
    match field_of(entries, key) {
        Some(Tree::Bytes(b)) => Some(b),
        _ => None,
    }
}

/// The value under this key.
fn field<'b, 'a>(d: &'b Dict<'a>, key: &str) -> (r: Option<&'b Value<'a>>)
    requires
        is_ascii_chars(key@),
    ensures
        match (r, field_of(entry_trees(d@), key@)) {
            (Some(v), Some(t)) => v.tree() == t,
            (None, None) => true,
            _ => false,
        },
{
    let got = d.get(ascii(key));
    proof {
        let entries = d@;
        let trees = entry_trees(entries);
        let k = codes(key@);
        lemma_entry_trees_index(entries);
        if got is Some {
            let i = choose|i: int| #[trigger] entry_at(entries, k, i) && *got->0 == entries[i].1;
            assert(trees[i] == (entries[i].0@, entries[i].1.tree()));
            assert forall|j: int| 0 <= j < i implies (#[trigger] trees[j]).0 != k by {
                assert(trees[j] == (entries[j].0@, entries[j].1.tree()));
            }
            lemma_find_at(trees, k, i);
        } else {
            lemma_find(trees, k);
            if find_key(trees, k) is Some {
                let i = find_key(trees, k)->0;
                assert(trees[i] == (entries[i].0@, entries[i].1.tree()));
            }
        }
    }
    got
}

/// The integer under this key, if there is one.
pub fn int_field(d: &Dict<'_>, key: &str) -> (r: Option<i64>)
    requires
        is_ascii_chars(key@),
    ensures
        r == int_of(entry_trees(d@), key@),
{
    match field(d, key) {
        Some(v) => v.as_int(),
        None => None,
    }
}

/// The byte string under this key, if there is one.
pub fn bytes_field<'b, 'a>(d: &'b Dict<'a>, key: &str) -> (r: Option<&'b [u8]>)
    requires
        is_ascii_chars(key@),
    ensures
        match (r, bytes_of(entry_trees(d@), key@)) {
            (Some(b), Some(want)) => b@ == want,
            (None, None) => true,
            _ => false,
        },
{
    match field(d, key) {
        Some(v) => v.as_bytes(),
        None => None,
    }
}

/// Adds an entry behind the others.
pub fn put_last<'a>(d: &mut Dict<'a>, key: &'a str, value: Value<'a>)
    requires
        is_ascii_chars(key@),
        old(d).wf(),
        old(d)@.len() > 0 ==> lex_less(entry_trees(old(d)@).last().0, codes(key@)),
    ensures
        final(d).wf(),
        final(d)@.len() == old(d)@.len() + 1,
        entry_trees(final(d)@) == entry_trees(old(d)@).push((codes(key@), value.tree())),
{
    let ghost before = d@;
    let bytes = ascii(key);
    proof {
        let trees = entry_trees(before);
        lemma_entry_trees_index(before);
        assert forall|j: int| 0 <= j < before.len() implies lex_less(
            (#[trigger] before[j]).0@,
            bytes@,
        ) by {
            assert(trees[j].0 == before[j].0@);
            if j < before.len() - 1 {
                lemma_lex_transitive(trees[j].0, trees.last().0, bytes@);
            }
        }
        lemma_slot_last(before, bytes@);
    }
    d.insert(Cow::Borrowed(bytes), value);
    assert(d@.subrange(0, d@.len() - 1) =~= before);
}

/// The entries hold no lists or dictionaries.
pub open spec fn flat(entries: Seq<(Seq<u8>, Tree)>) -> bool {
    forall|i: int|
        0 <= i < entries.len() ==> (#[trigger] entries[i]).1 is Int || entries[i].1 is Bytes
}

/// A dictionary of flat entries with ascending keys is well formed, of height
/// at most one, and holds a value more than it has entries.
pub proof fn lemma_flat(entries: Seq<(Seq<u8>, Tree)>)
    requires
        flat(entries),
    ensures
        entries_wf(entries),
        entries_height(entries) <= 1,
        entries_nodes(entries) == entries.len(),
    decreases entries.len(),
{
    if entries.len() > 0 {
        let rest = entries.subrange(1, entries.len() as int);
        assert forall|i: int| 0 <= i < rest.len() implies (#[trigger] rest[i]).1 is Int
            || rest[i].1 is Bytes by {
            assert(rest[i] == entries[i + 1]);
        }
        lemma_flat(rest);
        let first = entries[0].1;
        assert(first is Int || first is Bytes);
        assert(first.wf() && first.height() == 0 && first.nodes() == 1);
    }
}

/// Ascending keys are distinct, so each is found where it stands.
pub proof fn lemma_ascending_found(entries: Seq<(Seq<u8>, Tree)>, i: int)
    requires
        keys_ascend(entries),
        0 <= i < entries.len(),
    ensures
        find_key(entries, entries[i].0) == Some(i),
{
    assert forall|j: int| 0 <= j < i implies (#[trigger] entries[j]).0 != entries[i].0 by {
        lemma_lex_irreflexive(entries[i].0);
        assert(lex_less(entries[j].0, entries[i].0));
    }
    lemma_find_at(entries, entries[i].0, i);
}

/// A key behind the last one keeps the keys ascending.
pub proof fn lemma_push_ascends(entries: Seq<(Seq<u8>, Tree)>, e: (Seq<u8>, Tree))
    requires
        keys_ascend(entries),
        entries.len() > 0 ==> lex_less(entries.last().0, e.0),
    ensures
        keys_ascend(entries.push(e)),
{
    let all = entries.push(e);
    assert forall|i: int, j: int| 0 <= i < j < all.len() implies lex_less(
        #[trigger] all[i].0,
        #[trigger] all[j].0,
    ) by {
        assert(all[i] == entries[i]);
        if j < entries.len() {
            assert(all[j] == entries[j]);
        } else if i < entries.len() - 1 {
            lemma_lex_transitive(entries[i].0, entries.last().0, e.0);
        }
    }
}

} // verus!
