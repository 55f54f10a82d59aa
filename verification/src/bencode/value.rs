//! Decoded values.
use crate::bencode::tree::{keys_ascend, Tree};
use crate::lex::{bytes_equal, lemma_lex_irreflexive, lemma_lex_total, lemma_lex_transitive, lex_less, rank_bytes, Rank};
use std::borrow::Cow;
use vstd::prelude::*;
use vstd::slice::slice_to_vec;

verus! {

/// A decoded bencode value.
///
/// Byte strings and dictionary keys borrow from the input; `into_owned` lifts
/// the lifetime where a value has to outlive it.
#[derive(Debug, PartialEq, Eq)]
pub enum Value<'a> {
    /// An integer (`i...e`).
    Int(i64),
    /// A byte string (`<len>:<bytes>`).
    Bytes(Cow<'a, [u8]>),
    /// A list (`l...e`).
    List(Vec<Value<'a>>),
    /// A dictionary (`d...e`), with keys in lexicographic order.
    Dict(Dict<'a>),
}

/// A dictionary: entries kept in ascending order of their keys.
#[derive(Debug, PartialEq, Eq)]
pub struct Dict<'a> {
    entries: Vec<(Cow<'a, [u8]>, Value<'a>)>,
}

/// The trees of a sequence of values.
pub open spec fn list_trees<'a>(items: Seq<Value<'a>>) -> Seq<Tree>
    decreases items,
{
    if items.len() == 0 {
        Seq::empty()
    } else {
        list_trees(items.subrange(0, items.len() - 1)).push(items[items.len() - 1].tree())
    }
}

/// The keys and trees of a sequence of entries.
pub open spec fn entry_trees<'a>(entries: Seq<(Cow<'a, [u8]>, Value<'a>)>) -> Seq<(Seq<u8>, Tree)>
    decreases entries,
{
    if entries.len() == 0 {
        Seq::empty()
    } else {
        let last = entries[entries.len() - 1];
        entry_trees(entries.subrange(0, entries.len() - 1)).push((last.0@, last.1.tree()))
    }
}

pub proof fn lemma_list_trees_index<'a>(items: Seq<Value<'a>>)
    ensures
        list_trees(items).len() == items.len(),
        forall|i: int| 0 <= i < items.len() ==> list_trees(items)[i] == (#[trigger] items[i]).tree(),
    decreases items,
{
    if items.len() > 0 {
        let front = items.subrange(0, items.len() - 1);
        lemma_list_trees_index(front);
        assert forall|i: int| 0 <= i < items.len() implies list_trees(items)[i] == (
        #[trigger] items[i]).tree() by {
            if i < items.len() - 1 {
                assert(front[i] == items[i]);
            }
        }
    }
}

pub proof fn lemma_entry_trees_index<'a>(entries: Seq<(Cow<'a, [u8]>, Value<'a>)>)
    ensures
        entry_trees(entries).len() == entries.len(),
        forall|i: int|
            0 <= i < entries.len() ==> entry_trees(entries)[i] == (
                (#[trigger] entries[i]).0@,
                entries[i].1.tree(),
            ),
    decreases entries,
{
    if entries.len() > 0 {
        let front = entries.subrange(0, entries.len() - 1);
        lemma_entry_trees_index(front);
        assert forall|i: int| 0 <= i < entries.len() implies entry_trees(entries)[i] == (
            (#[trigger] entries[i]).0@,
            entries[i].1.tree(),
        ) by {
            if i < entries.len() - 1 {
                assert(front[i] == entries[i]);
            }
        }
    }
}

/// The first entry that holds `key`.
pub open spec fn entry_at<'a>(entries: Seq<(Cow<'a, [u8]>, Value<'a>)>, key: Seq<u8>, i: int) -> bool {
    &&& 0 <= i < entries.len()
    &&& entries[i].0@ == key
    &&& forall|j: int| 0 <= j < i ==> (#[trigger] entries[j]).0@ != key
}

/// No entry holds `key`.
pub open spec fn key_absent<'a>(entries: Seq<(Cow<'a, [u8]>, Value<'a>)>, key: Seq<u8>) -> bool {
    forall|j: int| 0 <= j < entries.len() ==> (#[trigger] entries[j]).0@ != key
}

/// The number of leading entries whose keys come before `key`.
pub open spec fn slot_for<'a>(entries: Seq<(Cow<'a, [u8]>, Value<'a>)>, key: Seq<u8>) -> int
    decreases entries.len(),
{
    if entries.len() == 0 || !lex_less(entries[0].0@, key) {
        0
    } else {
        1 + slot_for(entries.drop_first(), key)
    }
}

proof fn lemma_slot_for_step<'a>(
    entries: Seq<(Cow<'a, [u8]>, Value<'a>)>,
    key: Seq<u8>,
    i: int,
)
    requires
        0 <= i <= entries.len(),
        forall|j: int| 0 <= j < i ==> lex_less((#[trigger] entries[j]).0@, key),
        i == entries.len() || !lex_less(entries[i].0@, key),
    ensures
        slot_for(entries, key) == i,
    decreases entries.len(),
{
    if entries.len() > 0 && i > 0 {
        assert(lex_less(entries[0].0@, key));
        let tail = entries.drop_first();
        assert forall|j: int| 0 <= j < i - 1 implies lex_less((#[trigger] tail[j]).0@, key) by {
            assert(tail[j] == entries[j + 1]);
        }
        lemma_slot_for_step(tail, key, i - 1);
    }
}

/// A key behind all others belongs at the end.
pub proof fn lemma_slot_last<'a>(entries: Seq<(Cow<'a, [u8]>, Value<'a>)>, key: Seq<u8>)
    requires
        forall|j: int| 0 <= j < entries.len() ==> lex_less((#[trigger] entries[j]).0@, key),
    ensures
        slot_for(entries, key) == entries.len(),
{
    lemma_slot_for_step(entries, key, entries.len() as int);
}

/// The bytes behind a `Cow`.
pub fn cow_bytes<'b, 'a>(c: &'b Cow<'a, [u8]>) -> (r: &'b [u8])
    ensures
        r@ == c@,
{
    match c {
        Cow::Borrowed(b) => *b,
        Cow::Owned(v) => v.as_slice(),
    }
}

/// The bytes behind a `Cow`, owned.
fn own_bytes<'a>(c: Cow<'a, [u8]>) -> (r: Vec<u8>)
    ensures
        r@ == c@,
{
    match c {
        Cow::Borrowed(b) => slice_to_vec(b),
        Cow::Owned(v) => v,
    }
}

/// A copy of a `Cow` that borrows where the given one does.
fn copy_cow<'a>(c: &Cow<'a, [u8]>) -> (r: Cow<'a, [u8]>)
    ensures
        r@ == c@,
        r is Owned == c is Owned,
{
    match c {
        Cow::Borrowed(b) => Cow::Borrowed(*b),
        Cow::Owned(v) => Cow::Owned(slice_to_vec(v.as_slice())),
    }
}

/// A copy of `v`.
fn copy_value<'a>(v: &Value<'a>) -> (r: Value<'a>)
    ensures
        r.tree() == v.tree(),
    decreases v,
{
    match v {
        Value::Int(i) => Value::Int(*i),
        Value::Bytes(c) => Value::Bytes(copy_cow(c)),
        Value::List(items) => {
            let mut out: Vec<Value<'a>> = Vec::new();
            let mut i: usize = 0;
            assert(items@.take(0) =~= Seq::empty());
            while i < items.len()
                invariant
                    i <= items.len(),
                    out@.len() == i,
                    decreases_to!(v => items@),
                    list_trees(out@) == list_trees(items@.take(i as int)),
                decreases items.len() - i,
            {
                let ghost prior = out@;
                let copied = copy_value(&items[i]);
                out.push(copied);
                assert(out@.subrange(0, out@.len() - 1) =~= prior);
                assert(items@.take(i + 1).subrange(0, i as int) =~= items@.take(i as int));
                i = i + 1;
            }
            assert(items@.take(i as int) =~= items@);
            Value::List(out)
        },
        Value::Dict(d) => Value::Dict(copy_dict(d)),
    }
}

/// A copy of `d`.
fn copy_dict<'a>(d: &Dict<'a>) -> (r: Dict<'a>)
    ensures
        entry_trees(r@) == entry_trees(d@),
    decreases d,
{
    let mut out: Vec<(Cow<'a, [u8]>, Value<'a>)> = Vec::new();
    let mut i: usize = 0;
    assert(d@.take(0) =~= Seq::empty());
    while i < d.entries.len()
        invariant
            i <= d.entries.len(),
            out@.len() == i,
            entry_trees(out@) == entry_trees(d@.take(i as int)),
        decreases d.entries.len() - i,
    {
        let ghost prior = out@;
        let e = &d.entries[i];
        let copied = (copy_cow(&e.0), copy_value(&e.1));
        out.push(copied);
        assert(out@.subrange(0, out@.len() - 1) =~= prior);
        assert(d@.take(i + 1).subrange(0, i as int) =~= d@.take(i as int));
        i = i + 1;
    }
    assert(d@.take(i as int) =~= d@);
    Dict { entries: out }
}

impl<'a> Clone for Value<'a> {
    fn clone(&self) -> (r: Self)
        ensures
            r.tree() == self.tree(),
    {
        copy_value(self)
    }
}

impl<'a> Clone for Dict<'a> {
    fn clone(&self) -> (r: Self)
        ensures
            entry_trees(r@) == entry_trees(self@),
    {
        copy_dict(self)
    }
}

impl<'a> Dict<'a> {
    /// The entries in order.
    pub closed spec fn view(&self) -> Seq<(Cow<'a, [u8]>, Value<'a>)> {
        self.entries@
    }

    /// The keys ascend strictly.
    pub open spec fn wf(&self) -> bool {
        keys_ascend(entry_trees(self@))
    }

    /// A dictionary without entries.
    pub fn new() -> (r: Dict<'a>)
        ensures
            r@ == Seq::<(Cow<'a, [u8]>, Value<'a>)>::empty(),
            r.wf(),
    {
        Dict { entries: Vec::new() }
    }

    /// The number of entries.
    pub fn len(&self) -> (r: usize)
        ensures
            r == self@.len(),
    {
        self.entries.len()
    }

    /// Whether there are no entries.
    pub fn is_empty(&self) -> (r: bool)
        ensures
            r == (self@.len() == 0),
    {
        self.entries.len() == 0
    }

    /// The entry at place `i`.
    pub fn entry(&self, i: usize) -> (r: Option<(&[u8], &Value<'a>)>)
        ensures
            match r {
                Some((k, v)) => {
                    &&& i < self@.len()
                    &&& k@ == self@[i as int].0@
                    &&& *v == self@[i as int].1
                    &&& decreases_to!(*self => *v)
                },
                None => i >= self@.len(),
            },
    {
        if i < self.entries.len() {
            let e = &self.entries[i];
            Some((cow_bytes(&e.0), &e.1))
        } else {
            None
        }
    }

    /// The value stored under `key`.
    pub fn get(&self, key: &[u8]) -> (r: Option<&Value<'a>>)
        ensures
            match r {
                Some(v) => exists|i: int| #[trigger] entry_at(self@, key@, i) && *v == self@[i].1,
                None => key_absent(self@, key@),
            },
    {
        let mut i: usize = 0;
        while i < self.entries.len()
            invariant
                i <= self.entries.len(),
                forall|j: int| 0 <= j < i ==> (#[trigger] self@[j]).0@ != key@,
            decreases self.entries.len() - i,
        {
            let e = &self.entries[i];
            if bytes_equal(cow_bytes(&e.0), key) {
                assert(entry_at(self@, key@, i as int));
                return Some(&e.1);
            }
            i = i + 1;
        }
        None
    }

    /// Appends an entry whose key comes after all the others.
    pub(crate) fn push_last(&mut self, key: &'a [u8], value: Value<'a>)
        requires
            old(self).wf(),
            old(self)@.len() > 0 ==> lex_less(old(self)@[old(self)@.len() - 1].0@, key@),
        ensures
            final(self)@ == old(self)@.push((Cow::Borrowed(key), value)),
            final(self).wf(),
    {
        let ghost before = self@;
        self.entries.push((Cow::Borrowed(key), value));
        proof {
            lemma_entry_trees_index(before);
            lemma_entry_trees_index(self@);
            let bt = entry_trees(before);
            let tr = entry_trees(self@);
            assert forall|i: int, j: int| 0 <= i < j < tr.len() implies lex_less(
                #[trigger] tr[i].0,
                #[trigger] tr[j].0,
            ) by {
                assert(tr[i].0 == self@[i].0@);
                assert(tr[j].0 == self@[j].0@);
                assert(bt[i].0 == before[i].0@);
                if j < before.len() {
                    assert(bt[j].0 == before[j].0@);
                } else if i < before.len() - 1 {
                    assert(bt[before.len() - 1].0 == before[before.len() - 1].0@);
                    lemma_lex_transitive(before[i].0@, before[before.len() - 1].0@, key@);
                }
            }
        }
    }

    /// Where `key` is or would go, and whether it is there.
    fn find_slot(&self, key: &[u8]) -> (r: (usize, bool))
        ensures
            r.0 == slot_for(self@, key@),
            r.0 <= self@.len(),
            forall|j: int| 0 <= j < r.0 ==> lex_less((#[trigger] self@[j]).0@, key@),
            r.0 < self@.len() ==> !lex_less(self@[r.0 as int].0@, key@),
            r.1 == (r.0 < self@.len() && self@[r.0 as int].0@ == key@),
    {
        let mut i: usize = 0;
        while i < self.entries.len()
            invariant
                i <= self.entries.len(),
                forall|j: int| 0 <= j < i ==> lex_less((#[trigger] self@[j]).0@, key@),
            decreases self.entries.len() - i,
        {
            match rank_bytes(cow_bytes(&self.entries[i].0), key) {
                Rank::Before => {
                    i = i + 1;
                },
                Rank::Same => {
                    proof {
                        lemma_lex_irreflexive(key@);
                        lemma_slot_for_step(self@, key@, i as int);
                    }
                    return (i, true);
                },
                Rank::After => {
                    proof {
                        lemma_slot_for_step(self@, key@, i as int);
                    }
                    return (i, false);
                },
            }
        }
        proof {
            lemma_slot_for_step(self@, key@, i as int);
        }
        (i, false)
    }

    /// Stores `value` under `key`. A key that is there already keeps its place
    /// and gives its old value back.
    pub fn insert(&mut self, key: Cow<'a, [u8]>, value: Value<'a>) -> (r: Option<Value<'a>>)
        ensures
            ({
                let at = slot_for(old(self)@, key@);
                if at < old(self)@.len() && old(self)@[at].0@ == key@ {
                    &&& r == Some(old(self)@[at].1)
                    &&& final(self)@ == old(self)@.update(at, (old(self)@[at].0, value))
                } else {
                    &&& r is None
                    &&& final(self)@ == old(self)@.insert(at, (key, value))
                }
            }),
            old(self).wf() ==> final(self).wf(),
    {
        let ghost before = self@;
        let (i, same) = self.find_slot(cow_bytes(&key));
        proof {
            lemma_entry_trees_index(before);
        }
        if same {
            let (k, prior) = self.entries.remove(i);
            self.entries.insert(i, (k, value));
            assert(self@ =~= before.update(i as int, (before[i as int].0, value)));
            proof {
                lemma_entry_trees_index(self@);
                let bt = entry_trees(before);
                let tr = entry_trees(self@);
                assert forall|x: int| 0 <= x < tr.len() implies #[trigger] tr[x].0 == bt[x].0 by {
                    assert(tr[x].0 == self@[x].0@);
                    assert(bt[x].0 == before[x].0@);
                }
            }
            Some(prior)
        } else {
            let ghost k = key@;
            let ghost entry = (key, value);
            self.entries.insert(i, (key, value));
            assert(self@ =~= before.insert(i as int, entry));
            proof {
                lemma_entry_trees_index(self@);
                if keys_ascend(entry_trees(before)) {
                    lemma_insert_ascends(before, entry, i as int);
                }
            }
            None
        }
    }
}

proof fn lemma_insert_ascends<'a>(
    before: Seq<(Cow<'a, [u8]>, Value<'a>)>,
    entry: (Cow<'a, [u8]>, Value<'a>),
    at: int,
)
    requires
        keys_ascend(entry_trees(before)),
        0 <= at <= before.len(),
        forall|j: int| 0 <= j < at ==> lex_less((#[trigger] before[j]).0@, entry.0@),
        at < before.len() ==> before[at].0@ != entry.0@ && !lex_less(before[at].0@, entry.0@),
    ensures
        keys_ascend(entry_trees(before.insert(at, entry))),
{
    let after = before.insert(at, entry);
    lemma_entry_trees_index(before);
    lemma_entry_trees_index(after);
    let bt = entry_trees(before);
    let tr = entry_trees(after);
    if at < before.len() {
        lemma_lex_total(before[at].0@, entry.0@);
    }
    assert forall|i: int, j: int| 0 <= i < j < tr.len() implies lex_less(
        #[trigger] tr[i].0,
        #[trigger] tr[j].0,
    ) by {
        assert(tr[i].0 == after[i].0@);
        assert(tr[j].0 == after[j].0@);
        let oi = if i < at { i } else { i - 1 };
        let oj = if j < at { j } else { j - 1 };
        if i != at && j != at {
            assert(after[i] == before[oi]);
            assert(after[j] == before[oj]);
            assert(bt[oi].0 == before[oi].0@);
            assert(bt[oj].0 == before[oj].0@);
        } else if j == at {
            assert(after[i] == before[i]);
        } else {
            assert(after[j] == before[j - 1]);
            if j - 1 > at {
                assert(bt[at].0 == before[at].0@);
                assert(bt[j - 1].0 == before[j - 1].0@);
                lemma_lex_transitive(entry.0@, before[at].0@, before[j - 1].0@);
            }
        }
    }
}

/// Every byte string of the value is owned.
pub open spec fn is_owned<'a>(v: Value<'a>) -> bool
    decreases v,
{
    match v {
        Value::Int(_) => true,
        Value::Bytes(b) => b is Owned,
        Value::List(items) => forall|i: int| 0 <= i < items@.len() ==> is_owned(#[trigger] items@[i]),
        Value::Dict(d) => entries_owned(d@),
    }
}

/// Every byte string of the entries is owned.
pub open spec fn entries_owned<'a>(entries: Seq<(Cow<'a, [u8]>, Value<'a>)>) -> bool
    decreases entries,
{
    forall|i: int|
        0 <= i < entries.len() ==> (#[trigger] entries[i]).0 is Owned && is_owned(entries[i].1)
}

/// Every byte string of the value borrows.
pub open spec fn is_borrowed<'a>(v: Value<'a>) -> bool
    decreases v,
{
    match v {
        Value::Int(_) => true,
        Value::Bytes(b) => b is Borrowed,
        Value::List(items) => forall|i: int|
            0 <= i < items@.len() ==> is_borrowed(#[trigger] items@[i]),
        Value::Dict(d) => entries_borrowed(d@),
    }
}

/// Every byte string of the entries borrows.
pub open spec fn entries_borrowed<'a>(entries: Seq<(Cow<'a, [u8]>, Value<'a>)>) -> bool
    decreases entries,
{
    forall|i: int|
        0 <= i < entries.len() ==> (#[trigger] entries[i]).0 is Borrowed && is_borrowed(
            entries[i].1,
        )
}

impl<'a> Value<'a> {
    /// The tree that the value stands for.
    pub open spec fn tree(self) -> Tree
        decreases self,
    {
        match self {
            Value::Int(n) => Tree::Int(n),
            Value::Bytes(b) => Tree::Bytes(b@),
            Value::List(items) => Tree::List(list_trees(items@)),
            Value::Dict(d) => Tree::Dict(entry_trees(d@)),
        }
    }

    /// The integer, where the value is one.
    pub fn as_int(&self) -> (r: Option<i64>)
        ensures
            r == (match *self {
                Value::Int(n) => Some(n),
                _ => None,
            }),
    {
        if let Value::Int(i) = self {
            Some(*i)
        } else {
            None
        }
    }

    /// The bytes, where the value is a byte string.
    pub fn as_bytes(&self) -> (r: Option<&[u8]>)
        ensures
            match (*self, r) {
                (Value::Bytes(b), Some(s)) => s@ == b@,
                (Value::Bytes(_), None) => false,
                (_, s) => s is None,
            },
    {
        if let Value::Bytes(b) = self {
            Some(cow_bytes(b))
        } else {
            None
        }
    }

    /// The bytes with the lifetime of the input that they were read from.
    /// `None` for a byte string that owns its bytes.
    pub fn as_borrowed_bytes(&self) -> (r: Option<&'a [u8]>)
        ensures
            r == (match *self {
                Value::Bytes(Cow::Borrowed(b)) => Some(b),
                _ => None,
            }),
    {
        if let Value::Bytes(Cow::Borrowed(b)) = self {
            Some(*b)
        } else {
            None
        }
    }

    /// The items, where the value is a list.
    pub fn as_list(&self) -> (r: Option<&[Value<'a>]>)
        ensures
            match (*self, r) {
                (Value::List(items), Some(s)) => s@ == items@,
                (Value::List(_), None) => false,
                (_, s) => s is None,
            },
    {
        if let Value::List(l) = self {
            Some(l.as_slice())
        } else {
            None
        }
    }

    /// The entries, where the value is a dictionary.
    pub fn as_dict(&self) -> (r: Option<&Dict<'a>>)
        ensures
            match (*self, r) {
                (Value::Dict(d), Some(s)) => *s == d,
                (Value::Dict(_), None) => false,
                (_, s) => s is None,
            },
    {
        if let Value::Dict(d) = self {
            Some(d)
        } else {
            None
        }
    }

    /// Turns every borrowed byte string of the tree into an owned one, so that
    /// the value no longer refers to the input.
    pub fn into_owned(self) -> (r: Value<'static>)
        ensures
            r.tree() == self.tree(),
            is_owned(r),
        decreases self,
    {
        match self {
            Value::Int(i) => Value::Int(i),
            Value::Bytes(c) => Value::Bytes(Cow::Owned(own_bytes(c))),
            Value::List(items) => {
                let ghost all = items@;
                let mut out: Vec<Value<'static>> = Vec::new();
                for item in it: items.into_iter()
                    invariant
                        it.seq() == all,
                        decreases_to!(self => all),
                        out@.len() == it.index(),
                        list_trees(out@) == list_trees(all.take(it.index())),
                        forall|i: int| 0 <= i < out@.len() ==> is_owned(#[trigger] out@[i]),
                {
                    let ghost n = it.index();
                    assert(item == all[n]);
                    let owned = item.into_owned();
                    let ghost prior = out@;
                    out.push(owned);
                    proof {
                        assert(out@.subrange(0, out@.len() - 1) =~= prior);
                        assert(all.take(n + 1).subrange(0, n) =~= all.take(n));
                    }
                }
                assert(all.take(all.len() as int) =~= all);
                let r = Value::List(out);
                assert(is_owned(r));
                r
            },
            Value::Dict(d) => {
                let ghost all = d@;
                let mut out: Vec<(Cow<'static, [u8]>, Value<'static>)> = Vec::new();
                for entry in it: d.entries.into_iter()
                    invariant
                        it.seq() == all,
                        decreases_to!(self => all),
                        out@.len() == it.index(),
                        entry_trees(out@) == entry_trees(all.take(it.index())),
                        forall|i: int|
                            0 <= i < out@.len() ==> (#[trigger] out@[i]).0 is Owned && is_owned(
                                out@[i].1,
                            ),
                {
                    let ghost n = it.index();
                    assert(entry == all[n]);
                    let (key, value) = entry;
                    let owned = (Cow::Owned(own_bytes(key)), value.into_owned());
                    let ghost prior = out@;
                    out.push(owned);
                    proof {
                        assert(out@.subrange(0, out@.len() - 1) =~= prior);
                        assert(all.take(n + 1).subrange(0, n) =~= all.take(n));
                    }
                }
                assert(all.take(all.len() as int) =~= all);
                let r = Value::Dict(Dict { entries: out });
                assert(entries_owned(out@));
                assert(is_owned(r));
                r
            },
        }
    }

    /// The value stored under `key`, where this one is a dictionary.
    pub fn get(&self, key: &[u8]) -> (r: Option<&Value<'a>>)
        ensures
            match (*self, r) {
                (Value::Dict(d), Some(v)) => exists|i: int| #[trigger]
                    entry_at(d@, key@, i) && *v == d@[i].1,
                (Value::Dict(d), None) => key_absent(d@, key@),
                (_, v) => v is None,
            },
    {
        match self.as_dict() {
            Some(d) => d.get(key),
            None => None,
        }
    }
}

/// A new entry belongs behind every key that comes before its own, and in front of
/// every other.
pub proof fn law_entry_belongs_by_its_key<'a>(
    entries: Seq<(Cow<'a, [u8]>, Value<'a>)>,
    key: Seq<u8>,
)
    requires
        keys_ascend(entry_trees(entries)),
    ensures
        ({
            let at = slot_for(entries, key);
            &&& 0 <= at <= entries.len()
            &&& forall|i: int| 0 <= i < at ==> lex_less((#[trigger] entries[i]).0@, key)
            &&& forall|i: int|
                at <= i < entries.len() ==> (#[trigger] entries[i]).0@ == key || lex_less(
                    key,
                    entries[i].0@,
                )
        }),
{
    lemma_slot_bounds(entries, key);
    lemma_entry_trees_index(entries);
    let at = slot_for(entries, key);
    let trees = entry_trees(entries);
    assert forall|i: int| at <= i < entries.len() implies (#[trigger] entries[i]).0@ == key
        || lex_less(key, entries[i].0@) by {
        crate::lex::lemma_lex_total(key, entries[i].0@);
        if i > at && lex_less(entries[i].0@, key) {
            assert(trees[at].0 == entries[at].0@);
            assert(trees[i].0 == entries[i].0@);
            assert(lex_less(trees[at].0, trees[i].0));
            crate::lex::lemma_lex_transitive(entries[at].0@, entries[i].0@, key);
        }
    }
}

proof fn lemma_slot_bounds<'a>(entries: Seq<(Cow<'a, [u8]>, Value<'a>)>, key: Seq<u8>)
    ensures
        0 <= slot_for(entries, key) <= entries.len(),
        forall|i: int|
            0 <= i < slot_for(entries, key) ==> lex_less((#[trigger] entries[i]).0@, key),
        slot_for(entries, key) < entries.len() ==> !lex_less(
            entries[slot_for(entries, key)].0@,
            key,
        ),
    decreases entries.len(),
{
    if entries.len() > 0 && lex_less(entries[0].0@, key) {
        let rest = entries.drop_first();
        lemma_slot_bounds(rest, key);
        assert forall|i: int| 0 <= i < slot_for(entries, key) implies lex_less(
            (#[trigger] entries[i]).0@,
            key,
        ) by {
            if i > 0 {
                assert(rest[i - 1] == entries[i]);
            }
        }
        if slot_for(entries, key) < entries.len() {
            assert(rest[slot_for(rest, key)] == entries[slot_for(entries, key)]);
        }
    }
}

/// A key is found where it first stands, and is missing where it stands nowhere.
pub proof fn law_key_is_found_where_it_stands<'a>(
    entries: Seq<(Cow<'a, [u8]>, Value<'a>)>,
    key: Seq<u8>,
    i: int,
    j: int,
)
    requires
        0 <= i < entries.len(),
        entries[i].0@ == key,
    ensures
        !key_absent(entries, key),
        entry_at(entries, key, j) ==> 0 <= j <= i && entries[j].0@ == key,
{
}

} // verus!
