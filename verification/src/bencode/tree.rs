//! The mathematical model of bencode: trees and their one canonical encoding.
use crate::decimal::{dec_digits, dec_int};
use crate::lex::lex_less;
use vstd::prelude::*;

verus! {

/// A bencoded value as a mathematical tree.
pub enum Tree {
    /// An integer.
    Int(i64),
    /// A byte string.
    Bytes(Seq<u8>),
    /// A list of values.
    List(Seq<Tree>),
    /// A dictionary, as its entries in order.
    Dict(Seq<(Seq<u8>, Tree)>),
}

/// The keys are in strictly ascending order.
pub open spec fn keys_ascend(entries: Seq<(Seq<u8>, Tree)>) -> bool {
    forall|i: int, j: int|
        0 <= i < j < entries.len() ==> lex_less(#[trigger] entries[i].0, #[trigger] entries[j].0)
}

impl Tree {
    /// Every dictionary of the tree has strictly ascending keys.
    pub open spec fn wf(self) -> bool
        decreases self,
    {
        match self {
            Tree::Int(_) => true,
            Tree::Bytes(_) => true,
            Tree::List(items) => list_wf(items),
            Tree::Dict(entries) => keys_ascend(entries) && entries_wf(entries),
        }
    }

    /// How many values the tree holds, itself included.
    pub open spec fn nodes(self) -> nat
        decreases self,
    {
        match self {
            Tree::Int(_) => 1,
            Tree::Bytes(_) => 1,
            Tree::List(items) => 1 + list_nodes(items),
            Tree::Dict(entries) => 1 + entries_nodes(entries),
        }
    }

    /// How deep values nest below this one.
    pub open spec fn height(self) -> nat
        decreases self,
    {
        match self {
            Tree::Int(_) => 0,
            Tree::Bytes(_) => 0,
            Tree::List(items) => list_height(items),
            Tree::Dict(entries) => entries_height(entries),
        }
    }

    /// The canonical encoding.
    pub open spec fn enc(self) -> Seq<u8>
        decreases self,
    {
        match self {
            Tree::Int(n) => enc_int(n),
            Tree::Bytes(b) => enc_bytes(b),
            Tree::List(items) => seq![108u8] + enc_list(items) + seq![101u8],
            Tree::Dict(entries) => seq![100u8] + enc_entries(entries) + seq![101u8],
        }
    }
}

/// `i<digits>e`.
pub open spec fn enc_int(n: i64) -> Seq<u8> {
    seq![105u8] + dec_int(n as int) + seq![101u8]
}

/// `<length>:<bytes>`.
pub open spec fn enc_bytes(b: Seq<u8>) -> Seq<u8> {
    dec_digits(b.len()) + seq![58u8] + b
}

/// Well-formedness of every item.
pub open spec fn list_wf(items: Seq<Tree>) -> bool
    decreases items,
{
    items.len() == 0 || (items[0].wf() && list_wf(items.subrange(1, items.len() as int)))
}

/// Well-formedness of every entry's value.
pub open spec fn entries_wf(entries: Seq<(Seq<u8>, Tree)>) -> bool
    decreases entries,
{
    entries.len() == 0 || (entries[0].1.wf() && entries_wf(
        entries.subrange(1, entries.len() as int),
    ))
}

/// The values that the items hold together.
pub open spec fn list_nodes(items: Seq<Tree>) -> nat
    decreases items,
{
    if items.len() == 0 {
        0
    } else {
        items[0].nodes() + list_nodes(items.subrange(1, items.len() as int))
    }
}

/// The values that the entries hold together; keys do not count.
pub open spec fn entries_nodes(entries: Seq<(Seq<u8>, Tree)>) -> nat
    decreases entries,
{
    if entries.len() == 0 {
        0
    } else {
        entries[0].1.nodes() + entries_nodes(entries.subrange(1, entries.len() as int))
    }
}

/// How deep the items nest below the list that holds them.
pub open spec fn list_height(items: Seq<Tree>) -> nat
    decreases items,
{
    if items.len() == 0 {
        0
    } else {
        let first: nat = 1 + items[0].height();
        let rest: nat = list_height(items.subrange(1, items.len() as int));
        if first >= rest {
            first
        } else {
            rest
        }
    }
}

/// How deep the values nest below the dictionary that holds them.
pub open spec fn entries_height(entries: Seq<(Seq<u8>, Tree)>) -> nat
    decreases entries,
{
    if entries.len() == 0 {
        0
    } else {
        let first: nat = 1 + entries[0].1.height();
        let rest: nat = entries_height(entries.subrange(1, entries.len() as int));
        if first >= rest {
            first
        } else {
            rest
        }
    }
}

/// The encodings of the items, one after the other.
pub open spec fn enc_list(items: Seq<Tree>) -> Seq<u8>
    decreases items,
{
    if items.len() == 0 {
        Seq::empty()
    } else {
        items[0].enc() + enc_list(items.subrange(1, items.len() as int))
    }
}

/// The encodings of the entries, each key before its value.
pub open spec fn enc_entries(entries: Seq<(Seq<u8>, Tree)>) -> Seq<u8>
    decreases entries,
{
    if entries.len() == 0 {
        Seq::empty()
    } else {
        enc_bytes(entries[0].0) + entries[0].1.enc() + enc_entries(
            entries.subrange(1, entries.len() as int),
        )
    }
}

} // verus!
