//! Canonical bencode encoder.
//!
//! Dictionary keys come out in the order in which a `Dict` keeps them, integers
//! without leading zeros, nothing in between.
use crate::bencode::tree::{enc_bytes, enc_entries, enc_list, Tree};
use crate::bencode::value::{cow_bytes, entry_trees, list_trees, Dict, Value};
use crate::decimal::{push_decimal, push_decimal_signed};
use crate::lex::append_bytes;
use vstd::prelude::*;

verus! {

pub proof fn lemma_enc_list_push(items: Seq<Tree>, t: Tree)
    ensures
        enc_list(items.push(t)) == enc_list(items) + t.enc(),
    decreases items.len(),
{
    let all = items.push(t);
    if items.len() == 0 {
        assert(all.subrange(1, all.len() as int) =~= Seq::<Tree>::empty());
        assert(enc_list(Seq::<Tree>::empty()) =~= Seq::<u8>::empty());
        assert(items =~= Seq::<Tree>::empty());
        assert(enc_list(all) =~= t.enc());
    } else {
        let rest = items.subrange(1, items.len() as int);
        assert(all.subrange(1, all.len() as int) =~= rest.push(t));
        lemma_enc_list_push(rest, t);
        assert(enc_list(all) =~= enc_list(items) + t.enc());
    }
}

pub proof fn lemma_enc_entries_push(entries: Seq<(Seq<u8>, Tree)>, e: (Seq<u8>, Tree))
    ensures
        enc_entries(entries.push(e)) == enc_entries(entries) + enc_bytes(e.0) + e.1.enc(),
    decreases entries.len(),
{
    let all = entries.push(e);
    if entries.len() == 0 {
        assert(all.subrange(1, all.len() as int) =~= Seq::<(Seq<u8>, Tree)>::empty());
        assert(enc_entries(Seq::<(Seq<u8>, Tree)>::empty()) =~= Seq::<u8>::empty());
        assert(entries =~= Seq::<(Seq<u8>, Tree)>::empty());
        assert(enc_entries(all) =~= enc_bytes(e.0) + e.1.enc());
    } else {
        let rest = entries.subrange(1, entries.len() as int);
        assert(all.subrange(1, all.len() as int) =~= rest.push(e));
        lemma_enc_entries_push(rest, e);
        assert(enc_entries(all) =~= enc_entries(entries) + enc_bytes(e.0) + e.1.enc());
    }
}

/// Encodes `value` into a fresh buffer.
pub fn encode(value: &Value<'_>) -> (r: Vec<u8>)
    ensures
        r@ == value.tree().enc(),
{
    let mut out: Vec<u8> = Vec::new();
    encode_into(value, &mut out);
    assert(out@ =~= value.tree().enc());
    out
}

/// Appends `<length>:<bytes>`.
fn put_bytes(b: &[u8], out: &mut Vec<u8>)
    ensures
        final(out)@ == old(out)@ + enc_bytes(b@),
{
    push_decimal(out, b.len() as u64);
    out.push(58);
    append_bytes(out, b);
    assert(out@ =~= old(out)@ + enc_bytes(b@));
}

/// Appends the encoding of `value` to `out`.
pub fn encode_into(value: &Value<'_>, out: &mut Vec<u8>)
    ensures
        final(out)@ == old(out)@ + value.tree().enc(),
    decreases value,
{
    match value {
        Value::Int(i) => {
            out.push(105);
            push_decimal_signed(out, *i);
            out.push(101);
        },
        Value::Bytes(b) => {
            put_bytes(cow_bytes(b), out);
        },
        Value::List(items) => {
            out.push(108);
            let mut i: usize = 0;
            assert(items@.take(0) =~= Seq::empty());
            assert(out@ =~= old(out)@ + seq![108u8] + enc_list(list_trees(items@.take(0))));
            while i < items.len()
                invariant
                    i <= items.len(),
                    decreases_to!(value => items@),
                    out@ == old(out)@ + seq![108u8] + enc_list(list_trees(items@.take(i as int))),
                decreases items.len() - i,
            {
                encode_into(&items[i], out);
                proof {
                    assert(items@.take(i + 1).subrange(0, i as int) =~= items@.take(i as int));
                    lemma_enc_list_push(list_trees(items@.take(i as int)), items@[i as int].tree());
                    assert(out@ =~= old(out)@ + seq![108u8] + enc_list(
                        list_trees(items@.take(i + 1)),
                    ));
                }
                i = i + 1;
            }
            out.push(101);
            assert(items@.take(i as int) =~= items@);
        },
        Value::Dict(d) => {
            out.push(100);
            encode_entries(d, out);
            out.push(101);
        },
    }
    assert(out@ =~= old(out)@ + value.tree().enc());
}

/// Appends the encodings of the entries of `d`.
fn encode_entries(d: &Dict<'_>, out: &mut Vec<u8>)
    ensures
        final(out)@ == old(out)@ + enc_entries(entry_trees(d@)),
    decreases d,
{
    let mut i: usize = 0;
    assert(d@.take(0) =~= Seq::empty());
    assert(out@ =~= old(out)@ + enc_entries(entry_trees(d@.take(0))));
    while i < d.len()
        invariant
            i <= d@.len(),
            out@ == old(out)@ + enc_entries(entry_trees(d@.take(i as int))),
        decreases d@.len() - i,
    {
        if let Some((key, value)) = d.entry(i) {
            put_bytes(key, out);
            encode_into(value, out);
            proof {
                assert(d@.take(i + 1).subrange(0, i as int) =~= d@.take(i as int));
                lemma_enc_entries_push(
                    entry_trees(d@.take(i as int)),
                    (d@[i as int].0@, d@[i as int].1.tree()),
                );
                assert(out@ =~= old(out)@ + enc_entries(entry_trees(d@.take(i + 1))));
            }
        }
        i = i + 1;
    }
    assert(d@.take(i as int) =~= d@);
}

} // verus!
