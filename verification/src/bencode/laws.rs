//! How decoding and encoding undo each other.
use crate::bencode::decode::DecodeOptions;
use crate::bencode::error::{DecodeError, DecodeErrorKind};
use crate::bencode::grammar::{
    digits_end, key_failure, lemma_digits_end, lemma_reads_move, moved, read_all, read_bytes,
    read_entries, read_int, read_items, read_value,
};
use crate::bencode::tree::{
    enc_bytes, enc_entries, enc_int, enc_list, entries_height, entries_nodes, entries_wf,
    keys_ascend, list_height, list_nodes, list_wf, Tree,
};
use crate::decimal::{
    all_digits, dec_digits, dec_int, dec_value, is_canonical, is_digit, lemma_dec_digits_canonical,
    lemma_digits_of_value, lemma_value_of_digits,
};
use crate::lex::{lemma_lex_irreflexive, lemma_lex_total, lemma_lex_transitive, lex_less};
use vstd::prelude::*;

verus! {

/// The tree is one that the limits admit.
pub open spec fn fits(t: Tree, opts: DecodeOptions) -> bool {
    t.wf() && t.height() <= opts.max_depth && t.nodes() <= opts.max_nodes
}

/// What a byte string was read from is its canonical encoding.
pub proof fn lemma_read_bytes_sound(s: Seq<u8>, pos: nat)
    requires
        pos <= s.len(),
    ensures
        match read_bytes(s, pos) {
            Ok((b, next)) => moved(s, pos, next) && s.subrange(pos as int, next as int) == enc_bytes(b),
            Err(_) => true,
        },
{
    lemma_digits_end(s, pos);
    if let Ok((b, next)) = read_bytes(s, pos) {
        let end: nat = digits_end(s, pos);
        let digits = s.subrange(pos as int, end as int);
        assert(is_canonical(digits));
        lemma_digits_of_value(digits);
        assert(b.len() == dec_value(digits));
        assert(s.subrange(pos as int, next as int) =~= digits + seq![58u8] + b);
    }
}

proof fn lemma_read_int_sound(s: Seq<u8>, pos: nat)
    requires
        pos < s.len(),
        s[pos as int] == 105,
    ensures
        match read_int(s, pos) {
            Ok((n, next)) => moved(s, pos, next) && s.subrange(pos as int, next as int) == enc_int(n),
            Err(_) => true,
        },
{
    let negative = pos + 1 < s.len() && s[(pos + 1) as int] == 45;
    let start: nat = if negative {
        pos + 2
    } else {
        pos + 1
    };
    lemma_digits_end(s, start);
    if let Ok((n, next)) = read_int(s, pos) {
        let end: nat = digits_end(s, start);
        let digits = s.subrange(start as int, end as int);
        assert(is_canonical(digits));
        lemma_digits_of_value(digits);
        if negative {
            assert(digits[0] != 48);
            if dec_value(digits) == 0 {
                assert(dec_digits(0)[0] == 48);
            }
            assert(n < 0);
            assert(s.subrange(pos as int, next as int) =~= seq![105u8] + (seq![45u8] + digits)
                + seq![101u8]);
        } else {
            assert(s.subrange(pos as int, next as int) =~= seq![105u8] + digits + seq![101u8]);
        }
    }
}

/// What a read accepts is the canonical encoding of the tree that it gives,
/// and the tree keeps to the limits.
pub proof fn lemma_read_value_sound(
    s: Seq<u8>,
    pos: nat,
    opts: DecodeOptions,
    depth: nat,
    used: nat,
)
    requires
        pos <= s.len(),
    ensures
        match read_value(s, pos, opts, depth, used) {
            Ok((t, next, total)) => {
                &&& moved(s, pos, next)
                &&& s.subrange(pos as int, next as int) == t.enc()
                &&& t.wf()
                &&& depth + t.height() <= opts.max_depth
                &&& total == used + t.nodes()
                &&& total <= opts.max_nodes
            },
            Err(_) => true,
        },
    decreases s.len() - pos, 2nat,
{
    lemma_reads_move(s, pos, opts, depth, used);
    if let Ok((t, next, total)) = read_value(s, pos, opts, depth, used) {
        if s[pos as int] == 105 {
            lemma_read_int_sound(s, pos);
        } else if s[pos as int] == 108 {
            lemma_read_items_sound(s, pos + 1, opts, depth, used + 1);
            let items = t->List_0;
            assert(s.subrange(pos as int, next as int) =~= seq![108u8] + s.subrange(
                pos as int + 1,
                next - 1,
            ) + seq![101u8]);
        } else if s[pos as int] == 100 {
            lemma_read_entries_sound(s, pos + 1, opts, depth, used + 1, None);
            let entries = t->Dict_0;
            assert(s.subrange(pos as int, next as int) =~= seq![100u8] + s.subrange(
                pos as int + 1,
                next - 1,
            ) + seq![101u8]);
        } else {
            lemma_read_bytes_sound(s, pos);
        }
    }
}

proof fn lemma_read_items_sound(s: Seq<u8>, pos: nat, opts: DecodeOptions, depth: nat, used: nat)
    requires
        pos <= s.len(),
        depth <= opts.max_depth,
    ensures
        match read_items(s, pos, opts, depth, used) {
            Ok((items, next, total)) => {
                &&& moved(s, pos, next)
                &&& s.subrange(pos as int, next - 1) == enc_list(items)
                &&& s[next - 1] == 101
                &&& list_wf(items)
                &&& depth + list_height(items) <= opts.max_depth
                &&& total == used + list_nodes(items)
            },
            Err(_) => true,
        },
    decreases s.len() - pos, 3nat,
{
    if pos < s.len() {
        if s[pos as int] == 101 {
            assert(s.subrange(pos as int, pos as int) =~= Seq::<u8>::empty());
        } else {
            lemma_read_value_sound(s, pos, opts, depth + 1, used);
            if let Ok((first, mid, total)) = read_value(s, pos, opts, depth + 1, used) {
                lemma_read_items_sound(s, mid, opts, depth, total);
                if let Ok((rest, end, sum)) = read_items(s, mid, opts, depth, total) {
                    let items = seq![first] + rest;
                    assert(items.subrange(1, items.len() as int) =~= rest);
                    assert(s.subrange(pos as int, end - 1) =~= s.subrange(pos as int, mid as int)
                        + s.subrange(mid as int, end - 1));
                }
            }
        }
    }
}

/// Entries read one after the other spell out the encoding of the dictionary's
/// inside, and their keys ascend from the one in front.
pub proof fn lemma_read_entries_sound(
    s: Seq<u8>,
    pos: nat,
    opts: DecodeOptions,
    depth: nat,
    used: nat,
    last: Option<Seq<u8>>,
)
    requires
        pos <= s.len(),
        depth <= opts.max_depth,
    ensures
        match read_entries(s, pos, opts, depth, used, last) {
            Ok((entries, next, total)) => {
                &&& moved(s, pos, next)
                &&& s.subrange(pos as int, next - 1) == enc_entries(entries)
                &&& s[next - 1] == 101
                &&& entries_wf(entries)
                &&& keys_ascend(entries)
                &&& last is Some && entries.len() > 0 ==> lex_less(last->0, entries[0].0)
                &&& depth + entries_height(entries) <= opts.max_depth
                &&& total == used + entries_nodes(entries)
            },
            Err(_) => true,
        },
    decreases s.len() - pos, 3nat,
{
    if pos < s.len() {
        if s[pos as int] == 101 {
            assert(s.subrange(pos as int, pos as int) =~= Seq::<u8>::empty());
        } else {
            lemma_read_bytes_sound(s, pos);
            if let Ok((key, at)) = read_bytes(s, pos) {
                lemma_read_value_sound(s, at, opts, depth + 1, used);
                if let Ok((value, mid, total)) = read_value(s, at, opts, depth + 1, used) {
                    lemma_read_entries_sound(s, mid, opts, depth, total, Some(key));
                    if let Ok((rest, end, sum)) = read_entries(
                        s,
                        mid,
                        opts,
                        depth,
                        total,
                        Some(key),
                    ) {
                        let entries = seq![(key, value)] + rest;
                        assert(entries.subrange(1, entries.len() as int) =~= rest);
                        assert(s.subrange(pos as int, end - 1) =~= s.subrange(
                            pos as int,
                            at as int,
                        ) + s.subrange(at as int, mid as int) + s.subrange(mid as int, end - 1));
                        if last is Some {
                            lemma_lex_total(key, last->0);
                        }
                        assert forall|i: int, j: int| 0 <= i < j < entries.len() implies lex_less(
                            #[trigger] entries[i].0,
                            #[trigger] entries[j].0,
                        ) by {
                            assert(entries[j].0 == rest[j - 1].0);
                            if i == 0 {
                                if j > 1 {
                                    assert(lex_less(rest[0].0, rest[j - 1].0));
                                    lemma_lex_transitive(key, rest[0].0, rest[j - 1].0);
                                }
                            } else {
                                assert(entries[i].0 == rest[i - 1].0);
                            }
                        }
                    }
                }
            }
        }
    }
}

/// A run of digits ends where it is told to.
pub proof fn lemma_digits_end_at(s: Seq<u8>, pos: nat, end: nat)
    requires
        pos <= end < s.len(),
        all_digits(s.subrange(pos as int, end as int)),
        !is_digit(s[end as int]),
    ensures
        digits_end(s, pos) == end,
    decreases end - pos,
{
    if pos < end {
        let d = s.subrange(pos as int, end as int);
        assert(is_digit(d[0]));
        assert(s[pos as int] == d[0]);
        assert forall|i: int| 0 <= i < end - pos - 1 implies is_digit(
            #[trigger] s.subrange(pos as int + 1, end as int)[i],
        ) by {
            assert(is_digit(d[i + 1]));
        }
        lemma_digits_end_at(s, pos + 1, end);
    }
}

/// `t`'s encoding stands in `s` at `pos`.
pub open spec fn stands_at(s: Seq<u8>, pos: nat, e: Seq<u8>) -> bool {
    pos + e.len() <= s.len() && s.subrange(pos as int, (pos + e.len()) as int) == e
}

pub proof fn lemma_stands_split(s: Seq<u8>, pos: nat, a: Seq<u8>, b: Seq<u8>)
    requires
        stands_at(s, pos, a + b),
    ensures
        stands_at(s, pos, a),
        stands_at(s, pos + a.len(), b),
{
    let whole = s.subrange(pos as int, (pos + a.len() + b.len()) as int);
    assert(whole.subrange(0, a.len() as int) =~= a);
    assert(whole.subrange(a.len() as int, whole.len() as int) =~= b);
    assert(s.subrange(pos as int, (pos + a.len()) as int) =~= whole.subrange(0, a.len() as int));
    assert(s.subrange((pos + a.len()) as int, (pos + a.len() + b.len()) as int) =~= whole.subrange(
        a.len() as int,
        whole.len() as int,
    ));
}

pub proof fn lemma_read_bytes_complete(s: Seq<u8>, pos: nat, b: Seq<u8>)
    requires
        stands_at(s, pos, enc_bytes(b)),
        s.len() <= usize::MAX,
    ensures
        read_bytes(s, pos) == Ok::<(Seq<u8>, nat), DecodeError>((b, pos + enc_bytes(b).len())),
        pos < s.len() && is_digit(s[pos as int]),
{
    let digits = dec_digits(b.len());
    lemma_dec_digits_canonical(b.len());
    lemma_value_of_digits(b.len());
    assert(enc_bytes(b) =~= digits + (seq![58u8] + b));
    lemma_stands_split(s, pos, digits, seq![58u8] + b);
    let end: nat = pos + digits.len();
    lemma_stands_split(s, end, seq![58u8], b);
    assert(s.subrange(end as int, end as int + 1)[0] == 58);
    lemma_digits_end_at(s, pos, end);
    assert(is_digit(digits[0]));
    assert(s.subrange(pos as int, end as int)[0] == s[pos as int]);
}

proof fn lemma_read_int_complete(s: Seq<u8>, pos: nat, n: i64)
    requires
        stands_at(s, pos, enc_int(n)),
    ensures
        read_int(s, pos) == Ok::<(i64, nat), DecodeError>((n, pos + enc_int(n).len())),
        pos < s.len(),
        s[pos as int] == 105,
{
    let body = dec_int(n as int);
    assert(enc_int(n) =~= seq![105u8] + (body + seq![101u8]));
    lemma_stands_split(s, pos, seq![105u8], body + seq![101u8]);
    assert(s.subrange(pos as int, pos as int + 1)[0] == 105);
    lemma_stands_split(s, pos + 1, body, seq![101u8]);
    let end: nat = pos + 1 + body.len();
    assert(s.subrange(end as int, end as int + 1)[0] == 101);
    let magnitude: nat = if n < 0 {
        (-n) as nat
    } else {
        n as nat
    };
    let digits = dec_digits(magnitude);
    lemma_dec_digits_canonical(magnitude);
    lemma_value_of_digits(magnitude);
    if n < 0 {
        lemma_stands_split(s, pos + 1, seq![45u8], digits);
        assert(s.subrange(pos as int + 1, pos as int + 2)[0] == 45);
        lemma_digits_end_at(s, pos + 2, end);
        assert(s.subrange(pos as int + 2, end as int) == digits);
    } else {
        assert(is_digit(digits[0]));
        assert(s.subrange(pos as int + 1, end as int)[0] == s[pos as int + 1]);
        lemma_digits_end_at(s, pos + 1, end);
        assert(s.subrange(pos as int + 1, end as int) == digits);
    }
}

/// An encoding starts with the first byte of its kind.
pub proof fn lemma_enc_first(t: Tree)
    ensures
        t.enc().len() > 0,
        t.enc()[0] == 105 || t.enc()[0] == 108 || t.enc()[0] == 100 || is_digit(t.enc()[0]),
{
    match t {
        Tree::Bytes(b) => {
            lemma_dec_digits_canonical(b.len());
            assert(t.enc()[0] == dec_digits(b.len())[0]);
            assert(is_digit(dec_digits(b.len())[0]));
        },
        _ => {},
    }
}

/// Where a well-formed tree's encoding stands, reading gives that tree, as long
/// as the limits admit it; where only the count of values is too small, reading
/// fails on that.
pub proof fn lemma_read_value_complete(
    s: Seq<u8>,
    pos: nat,
    opts: DecodeOptions,
    depth: nat,
    used: nat,
    t: Tree,
)
    requires
        stands_at(s, pos, t.enc()),
        s.len() <= usize::MAX,
        t.wf(),
        depth + t.height() <= opts.max_depth,
        used <= opts.max_nodes,
    ensures
        used + t.nodes() <= opts.max_nodes ==> read_value(s, pos, opts, depth, used) == Ok::<
            (Tree, nat, nat),
            DecodeError,
        >((t, pos + t.enc().len(), used + t.nodes())),
        used + t.nodes() > opts.max_nodes ==> {
            &&& read_value(s, pos, opts, depth, used) is Err
            &&& read_value(s, pos, opts, depth, used)->Err_0.kind
                == (DecodeErrorKind::NodeLimitExceeded { max: opts.max_nodes })
        },
    decreases t, 0nat,
{
    lemma_enc_first(t);
    assert(s.subrange(pos as int, (pos + t.enc().len()) as int)[0] == s[pos as int]);
    if used < opts.max_nodes {
        match t {
            Tree::Int(n) => {
                lemma_read_int_complete(s, pos, n);
            },
            Tree::Bytes(b) => {
                lemma_read_bytes_complete(s, pos, b);
            },
            Tree::List(items) => {
                let inside = enc_list(items) + seq![101u8];
                assert(t.enc() =~= seq![108u8] + inside);
                lemma_stands_split(s, pos, seq![108u8], inside);
                lemma_read_items_complete(s, pos + 1, opts, depth, used + 1, items);
            },
            Tree::Dict(entries) => {
                let inside = enc_entries(entries) + seq![101u8];
                assert(t.enc() =~= seq![100u8] + inside);
                lemma_stands_split(s, pos, seq![100u8], inside);
                lemma_read_entries_complete(s, pos + 1, opts, depth, used + 1, entries, None);
            },
        }
    }
}

proof fn lemma_read_items_complete(
    s: Seq<u8>,
    pos: nat,
    opts: DecodeOptions,
    depth: nat,
    used: nat,
    items: Seq<Tree>,
)
    requires
        stands_at(s, pos, enc_list(items) + seq![101u8]),
        s.len() <= usize::MAX,
        list_wf(items),
        depth + list_height(items) <= opts.max_depth,
        used <= opts.max_nodes,
    ensures
        used + list_nodes(items) <= opts.max_nodes ==> read_items(s, pos, opts, depth, used)
            == Ok::<(Seq<Tree>, nat, nat), DecodeError>(
            (items, pos + enc_list(items).len() + 1, used + list_nodes(items)),
        ),
        used + list_nodes(items) > opts.max_nodes ==> {
            &&& read_items(s, pos, opts, depth, used) is Err
            &&& read_items(s, pos, opts, depth, used)->Err_0.kind
                == (DecodeErrorKind::NodeLimitExceeded { max: opts.max_nodes })
        },
    decreases items, 1nat,
{
    if items.len() == 0 {
        assert(enc_list(items) + seq![101u8] =~= seq![101u8]);
        assert(s.subrange(pos as int, pos as int + 1)[0] == s[pos as int]);
        assert(items =~= Seq::<Tree>::empty());
    } else {
        let first = items[0];
        let rest = items.subrange(1, items.len() as int);
        let tail = enc_list(rest) + seq![101u8];
        assert(enc_list(items) + seq![101u8] =~= first.enc() + tail);
        lemma_stands_split(s, pos, first.enc(), tail);
        lemma_enc_first(first);
        assert(s.subrange(pos as int, (pos + first.enc().len()) as int)[0] == s[pos as int]);
        lemma_read_value_complete(s, pos, opts, depth + 1, used, first);
        if used + first.nodes() <= opts.max_nodes {
            let mid: nat = pos + first.enc().len();
            lemma_read_items_complete(s, mid, opts, depth, used + first.nodes(), rest);
            assert(seq![first] + rest =~= items);
        }
    }
}

proof fn lemma_read_entries_complete(
    s: Seq<u8>,
    pos: nat,
    opts: DecodeOptions,
    depth: nat,
    used: nat,
    entries: Seq<(Seq<u8>, Tree)>,
    last: Option<Seq<u8>>,
)
    requires
        stands_at(s, pos, enc_entries(entries) + seq![101u8]),
        s.len() <= usize::MAX,
        entries_wf(entries),
        keys_ascend(entries),
        last is Some && entries.len() > 0 ==> lex_less(last->0, entries[0].0),
        depth + entries_height(entries) <= opts.max_depth,
        used <= opts.max_nodes,
    ensures
        used + entries_nodes(entries) <= opts.max_nodes ==> read_entries(
            s,
            pos,
            opts,
            depth,
            used,
            last,
        ) == Ok::<(Seq<(Seq<u8>, Tree)>, nat, nat), DecodeError>(
            (entries, pos + enc_entries(entries).len() + 1, used + entries_nodes(entries)),
        ),
        used + entries_nodes(entries) > opts.max_nodes ==> {
            &&& read_entries(s, pos, opts, depth, used, last) is Err
            &&& read_entries(s, pos, opts, depth, used, last)->Err_0.kind
                == (DecodeErrorKind::NodeLimitExceeded { max: opts.max_nodes })
        },
    decreases entries, 1nat,
{
    if entries.len() == 0 {
        assert(enc_entries(entries) + seq![101u8] =~= seq![101u8]);
        assert(s.subrange(pos as int, pos as int + 1)[0] == s[pos as int]);
        assert(entries =~= Seq::<(Seq<u8>, Tree)>::empty());
    } else {
        let key = entries[0].0;
        let value = entries[0].1;
        let rest = entries.subrange(1, entries.len() as int);
        let tail = enc_entries(rest) + seq![101u8];
        assert(enc_entries(entries) + seq![101u8] =~= enc_bytes(key) + (value.enc() + tail));
        lemma_stands_split(s, pos, enc_bytes(key), value.enc() + tail);
        lemma_read_bytes_complete(s, pos, key);
        let at: nat = pos + enc_bytes(key).len();
        lemma_stands_split(s, at, value.enc(), tail);
        if last is Some {
            lemma_lex_irreflexive(key);
            if lex_less(key, last->0) {
                lemma_lex_transitive(key, last->0, key);
            }
        }
        assert(key_failure(last, key) is None);
        lemma_dec_digits_canonical(key.len());
        lemma_enc_first(value);
        lemma_read_value_complete(s, at, opts, depth + 1, used, value);
        if used + value.nodes() <= opts.max_nodes {
            let mid: nat = at + value.enc().len();
            assert forall|i: int, j: int| 0 <= i < j < rest.len() implies lex_less(
                #[trigger] rest[i].0,
                #[trigger] rest[j].0,
            ) by {
                assert(rest[i].0 == entries[i + 1].0);
                assert(rest[j].0 == entries[j + 1].0);
            }
            if rest.len() > 0 {
                assert(rest[0].0 == entries[1].0);
                assert(lex_less(entries[0].0, entries[1].0));
            }
            lemma_read_entries_complete(
                s,
                mid,
                opts,
                depth,
                used + value.nodes(),
                rest,
                Some(key),
            );
            assert(seq![(key, value)] + rest =~= entries);
        }
    }
}


/// Encoding a well-formed tree and decoding the bytes gives the tree back,
/// whatever limits admit it.
pub proof fn law_decode_undoes_encode(t: Tree, opts: DecodeOptions)
    requires
        fits(t, opts),
        t.enc().len() <= usize::MAX,
    ensures
        read_all(t.enc(), opts) == Ok::<Tree, DecodeError>(t),
{
    assert(t.enc().subrange(0, t.enc().len() as int) =~= t.enc());
    lemma_read_value_complete(t.enc(), 0, opts, 0, 0, t);
}

/// Every input that decodes is the canonical encoding of what it decodes to, so
/// encoding the decoded tree gives the same bytes; and the tree is well formed
/// and within the limits.
pub proof fn law_encode_undoes_decode(s: Seq<u8>, opts: DecodeOptions)
    requires
        read_all(s, opts) is Ok,
    ensures
        read_all(s, opts)->Ok_0.enc() == s,
        fits(read_all(s, opts)->Ok_0, opts),
{
    lemma_read_value_sound(s, 0, opts, 0, 0);
    assert(s.subrange(0, s.len() as int) =~= s);
}

/// An input decodes exactly if it is the encoding of a tree that the limits
/// admit.
pub proof fn law_accepts_exactly_encodings(s: Seq<u8>, opts: DecodeOptions)
    requires
        s.len() <= usize::MAX,
    ensures
        read_all(s, opts) is Ok <==> exists|t: Tree| fits(t, opts) && #[trigger] t.enc() == s,
{
    if read_all(s, opts) is Ok {
        law_encode_undoes_decode(s, opts);
    }
    if exists|t: Tree| fits(t, opts) && #[trigger] t.enc() == s {
        let t = choose|t: Tree| fits(t, opts) && #[trigger] t.enc() == s;
        law_decode_undoes_encode(t, opts);
    }
}

/// The count of values is exact: with room for one value less than the tree
/// holds, decoding its encoding fails on that limit and on nothing else.
pub proof fn law_node_budget_is_exact(t: Tree, opts: DecodeOptions)
    requires
        t.wf(),
        t.height() <= opts.max_depth,
        t.enc().len() <= usize::MAX,
    ensures
        t.nodes() >= 1,
        opts.max_nodes >= t.nodes() ==> read_all(t.enc(), opts) is Ok,
        opts.max_nodes < t.nodes() ==> {
            &&& read_all(t.enc(), opts) is Err
            &&& read_all(t.enc(), opts)->Err_0.kind == (DecodeErrorKind::NodeLimitExceeded {
                max: opts.max_nodes,
            })
        },
{
    assert(t.enc().subrange(0, t.enc().len() as int) =~= t.enc());
    lemma_read_value_complete(t.enc(), 0, opts, 0, 0, t);
}

/// A value read from the front of an input reads the same whatever follows it.
pub proof fn law_prefix_reads_alone(s: Seq<u8>, opts: DecodeOptions)
    requires
        s.len() <= usize::MAX,
        read_value(s, 0, opts, 0, 0) is Ok,
    ensures
        ({
            let (t, end, _) = read_value(s, 0, opts, 0, 0)->Ok_0;
            &&& 0 < end <= s.len()
            &&& s.take(end as int) == t.enc()
            &&& read_all(s.take(end as int), opts) == Ok::<Tree, DecodeError>(t)
        }),
{
    let (t, end, total) = read_value(s, 0, opts, 0, 0)->Ok_0;
    lemma_read_value_sound(s, 0, opts, 0, 0);
    assert(s.take(end as int) =~= s.subrange(0, end as int));
    law_decode_undoes_encode(t, opts);
}

/// Bytes behind a value are refused, where the value ends.
pub proof fn law_bytes_behind_a_value_are_refused(t: Tree, rest: Seq<u8>, opts: DecodeOptions)
    requires
        fits(t, opts),
        rest.len() > 0,
        t.enc().len() + rest.len() <= usize::MAX,
    ensures
        read_all(t.enc() + rest, opts) == Err::<Tree, DecodeError>(
            (DecodeError { offset: t.enc().len() as usize, kind: DecodeErrorKind::TrailingData }),
        ),
{
    let s = t.enc() + rest;
    assert(s.subrange(0, t.enc().len() as int) =~= t.enc());
    lemma_read_value_complete(s, 0, opts, 0, 0, t);
}

/// No encoding begins another: what was read so far never has to be read anew.
pub proof fn law_no_encoding_begins_another(a: Tree, b: Tree, rest: Seq<u8>, opts: DecodeOptions)
    requires
        fits(a, opts),
        fits(b, opts),
        b.enc() == a.enc() + rest,
        b.enc().len() <= usize::MAX,
    ensures
        rest.len() == 0,
        a == b,
{
    if rest.len() > 0 {
        law_bytes_behind_a_value_are_refused(a, rest, opts);
    } else {
        assert(b.enc() =~= a.enc());
        law_decode_undoes_encode(a, opts);
    }
    law_decode_undoes_encode(b, opts);
}

/// How each kind of value is written: a number in decimal between `i` and `e`,
/// bytes behind their number and a colon, items between `l` and `e`, entries between
/// `d` and `e`, each with its key in front.
pub proof fn law_how_values_are_written(n: i64, b: Seq<u8>, key: Seq<u8>, v: Tree)
    ensures
        ({
            let e = Tree::Int(n).enc();
            let digits = e.subrange(1, e.len() - 1);
            &&& e.len() >= 3 && e[0] == 105 && e.last() == 101
            &&& n >= 0 ==> all_digits(digits) && dec_value(digits) == n
            &&& n < 0 ==> digits[0] == 45 && all_digits(digits.skip(1)) && dec_value(
                digits.skip(1),
            ) == -n
        }),
        ({
            let e = Tree::Bytes(b).enc();
            let colon = e.len() - b.len() - 1;
            &&& colon > 0 && e[colon] == 58
            &&& e.skip(colon + 1) == b
            &&& all_digits(e.take(colon)) && dec_value(e.take(colon)) == b.len()
        }),
        Tree::List(Seq::empty()).enc() == seq![108u8, 101u8],
        Tree::List(seq![v]).enc() == seq![108u8] + v.enc() + seq![101u8],
        Tree::Dict(Seq::empty()).enc() == seq![100u8, 101u8],
        Tree::Dict(seq![(key, v)]).enc() == seq![100u8] + Tree::Bytes(key).enc() + v.enc()
            + seq![101u8],
{
    let e = Tree::Int(n).enc();
    let digits = e.subrange(1, e.len() - 1);
    assert(digits =~= dec_int(n as int));
    let size = if n < 0 { -n } else { n as int };
    lemma_dec_digits_canonical(size as nat);
    lemma_value_of_digits(size as nat);
    if n < 0 {
        assert(digits.skip(1) =~= dec_digits(size as nat));
    } else {
        assert(digits =~= dec_digits(size as nat));
    }
    let x = Tree::Bytes(b).enc();
    let colon = x.len() - b.len() - 1;
    lemma_dec_digits_canonical(b.len());
    lemma_value_of_digits(b.len());
    assert(x.take(colon) =~= dec_digits(b.len()));
    assert(x.skip(colon + 1) =~= b);
    let none = Seq::<Tree>::empty();
    let one = seq![v];
    assert(one.subrange(1, 1) =~= none);
    assert(enc_list(none) =~= Seq::<u8>::empty());
    assert(Tree::List(none).enc() =~= seq![108u8, 101u8]);
    assert(enc_list(one) =~= v.enc());
    let no_entries = Seq::<(Seq<u8>, Tree)>::empty();
    let entry = seq![(key, v)];
    assert(entry.subrange(1, 1) =~= no_entries);
    assert(enc_entries(no_entries) =~= Seq::<u8>::empty());
    assert(Tree::Dict(no_entries).enc() =~= seq![100u8, 101u8]);
    assert(enc_entries(entry) =~= enc_bytes(key) + v.enc());
    assert(Tree::Dict(entry).enc() =~= seq![100u8] + Tree::Bytes(key).enc() + v.enc()
        + seq![101u8]);
}

} // verus!
