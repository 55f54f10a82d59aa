//! Which inputs the decoder refuses, and what it says of them.
use crate::bencode::decode::{default_options, DecodeOptions};
use crate::bencode::error::{DecodeError, DecodeErrorKind};
use crate::bencode::grammar::{
    digits_end, key_failure, read_all, read_entries, read_items, read_value,
};
use crate::bencode::laws::{
    fits, law_encode_undoes_decode, law_no_encoding_begins_another, lemma_digits_end_at,
    lemma_enc_first, lemma_read_bytes_complete, lemma_read_value_complete, lemma_stands_split,
    stands_at,
};
use crate::bencode::tree::{
    enc_bytes, enc_entries, enc_list, entries_height, entries_nodes, entries_wf, keys_ascend,
    list_height, list_nodes, list_wf, Tree,
};
use crate::decimal::{all_digits, dec_value, is_digit, lemma_dec_digits_canonical};
use crate::lex::{lemma_lex_irreflexive, lemma_lex_transitive, lex_less};
use vstd::prelude::*;

verus! {

/// The input is refused for `kind` at `offset`.
pub open spec fn refused(
    s: Seq<u8>,
    opts: DecodeOptions,
    offset: int,
    kind: DecodeErrorKind,
) -> bool {
    read_all(s, opts) matches Err(e) && e.offset == offset && e.kind == kind
}

/// Unless told otherwise, values nest up to 256 deep, and as many are read as can be
/// counted.
pub proof fn law_usual_limits()
    ensures
        default_options().max_depth == 256,
        default_options().max_nodes == u32::MAX,
{
}

/// An encoding that is cut off anywhere is refused.
pub proof fn law_cut_off_input_is_refused(t: Tree, k: int, opts: DecodeOptions)
    requires
        fits(t, opts),
        t.enc().len() <= usize::MAX,
        0 <= k < t.enc().len(),
    ensures
        read_all(t.enc().take(k), opts) is Err,
{
    let s = t.enc().take(k);
    if read_all(s, opts) is Ok {
        let a = read_all(s, opts)->Ok_0;
        law_encode_undoes_decode(s, opts);
        assert(t.enc() =~= a.enc() + t.enc().skip(k));
        law_no_encoding_begins_another(a, t, t.enc().skip(k), opts);
    }
}

/// An input without a byte is over before its value; one that starts with a byte
/// that starts no value is refused for that byte.
pub proof fn law_stray_byte_is_named(s: Seq<u8>, opts: DecodeOptions)
    requires
        opts.max_nodes > 0,
    ensures
        s.len() == 0 ==> refused(s, opts, 0, DecodeErrorKind::UnexpectedEof),
        (s.len() > 0 && s[0] != 105 && s[0] != 108 && s[0] != 100 && !(48 <= s[0] <= 57))
            ==> refused(s, opts, 0, DecodeErrorKind::UnexpectedByte { byte: s[0] }),
{
}

/// Where a run of digits behind an `i`, with or without a minus before them, is not
/// a number of this format, it is refused where the `i` stands: for its form if it
/// has no digit, a zero in front of another digit or a minus before a zero, and else
/// for its size if it fits no 64 bits. A byte other than `e` behind it is refused
/// where that byte stands.
pub proof fn law_ill_written_numbers(
    negative: bool,
    digits: Seq<u8>,
    last: u8,
    rest: Seq<u8>,
    opts: DecodeOptions,
)
    requires
        opts.max_nodes > 0,
        all_digits(digits),
        !is_digit(last),
        last != 45,
        digits.len() + rest.len() + 3 <= usize::MAX,
    ensures
        ({
            let minus = if negative {
                seq![45u8]
            } else {
                Seq::empty()
            };
            let s = seq![105u8] + minus + digits + seq![last] + rest;
            let bad = digits.len() == 0 || (digits[0] == 48 && (negative || digits.len() > 1));
            let value = if negative {
                -dec_value(digits)
            } else {
                dec_value(digits) as int
            };
            let fits = -0x8000_0000_0000_0000 <= value <= 0x7fff_ffff_ffff_ffff;
            let end = (1 + minus.len() + digits.len()) as int;
            &&& bad ==> refused(s, opts, 0, DecodeErrorKind::InvalidInteger)
            &&& !bad && last != 101 ==> refused(s, opts, end, DecodeErrorKind::InvalidInteger)
            &&& !bad && last == 101 && !fits ==> refused(
                s,
                opts,
                0,
                DecodeErrorKind::IntegerOverflow,
            )
            &&& !bad && last == 101 && fits && rest.len() == 0 ==> read_all(s, opts) == Ok::<
                Tree,
                DecodeError,
            >(Tree::Int(value as i64))
        }),
{
    let minus = if negative {
        seq![45u8]
    } else {
        Seq::empty()
    };
    let s = seq![105u8] + minus + digits + seq![last] + rest;
    let start: nat = 1 + minus.len();
    let end: nat = start + digits.len();
    assert(s[0] == 105);
    assert(s[end as int] == last);
    assert(s.subrange(start as int, end as int) =~= digits);
    if !negative {
        if digits.len() > 0 {
            assert(is_digit(digits[0]));
            assert(s[1] == digits[0]);
        } else {
            assert(s[1] == last);
        }
    } else {
        assert(s[1] == 45);
    }
    lemma_digits_end_at(s, start, end);
}

/// Where digits stand for a length, they are refused for their form at the first of
/// them if a zero stands in front of another, and where a byte other than a colon
/// follows, at that byte. Behind the colon, fewer bytes than were announced are
/// refused where they begin.
pub proof fn law_ill_written_lengths(
    digits: Seq<u8>,
    last: u8,
    rest: Seq<u8>,
    opts: DecodeOptions,
)
    requires
        opts.max_nodes > 0,
        digits.len() > 0,
        all_digits(digits),
        !is_digit(last),
        digits.len() + rest.len() + 1 <= usize::MAX,
    ensures
        ({
            let s = digits + seq![last] + rest;
            let bad = digits[0] == 48 && digits.len() > 1;
            let len = dec_value(digits);
            let body = digits.len() as int + 1;
            &&& bad ==> refused(s, opts, 0, DecodeErrorKind::InvalidLength)
            &&& !bad && last != 58 ==> refused(
                s,
                opts,
                digits.len() as int,
                DecodeErrorKind::InvalidLength,
            )
            &&& !bad && last == 58 && rest.len() < len && body + len <= usize::MAX ==> refused(
                s,
                opts,
                body,
                DecodeErrorKind::LengthExceedsInput,
            )
            &&& !bad && last == 58 && len > usize::MAX ==> refused(
                s,
                opts,
                0,
                DecodeErrorKind::LengthOverflow,
            )
            &&& !bad && last == 58 && rest.len() == len ==> read_all(s, opts) == Ok::<
                Tree,
                DecodeError,
            >(Tree::Bytes(rest))
        }),
{
    let s = digits + seq![last] + rest;
    let end: nat = digits.len();
    assert(is_digit(digits[0]));
    assert(s[0] == digits[0]);
    assert(s[end as int] == last);
    assert(s.subrange(0, end as int) =~= digits);
    lemma_digits_end_at(s, 0, end);
    if rest.len() == dec_value(digits) {
        assert(s.subrange(end as int + 1, s.len() as int) =~= rest);
    }
}

/// A key that comes again right away, or that belongs before the one in front of
/// it, is refused where it stands.
pub proof fn law_keys_ascend_or_are_refused(
    first: Seq<u8>,
    value: Tree,
    second: Seq<u8>,
    rest: Seq<u8>,
    opts: DecodeOptions,
)
    requires
        value.wf(),
        1 + value.height() <= opts.max_depth,
        1 + value.nodes() <= opts.max_nodes,
        1 + enc_bytes(first).len() + value.enc().len() + enc_bytes(second).len() + rest.len()
            <= usize::MAX,
    ensures
        ({
            let s = seq![100u8] + enc_bytes(first) + value.enc() + enc_bytes(second) + rest;
            let at: int = (1 + enc_bytes(first).len() + value.enc().len()) as int;
            &&& first == second ==> refused(s, opts, at, DecodeErrorKind::DuplicateDictKey)
            &&& lex_less(second, first) ==> refused(s, opts, at, DecodeErrorKind::UnsortedDictKeys)
        }),
{
    let s = seq![100u8] + enc_bytes(first) + value.enc() + enc_bytes(second) + rest;
    let mid: nat = 1 + enc_bytes(first).len();
    let at: nat = mid + value.enc().len();
    assert(s.subrange(1, mid as int) =~= enc_bytes(first));
    assert(s.subrange(mid as int, at as int) =~= value.enc());
    assert(s.subrange(at as int, (at + enc_bytes(second).len()) as int) =~= enc_bytes(second));
    lemma_read_bytes_complete(s, 1, first);
    lemma_read_value_complete(s, mid, opts, 1, 1, value);
    lemma_read_bytes_complete(s, at, second);
    lemma_dec_digits_canonical(first.len());
    lemma_enc_first(value);
    lemma_lex_irreflexive(first);
    assert(s[0] == 100);
    if first == second || lex_less(second, first) {
        assert(read_entries(s, at, opts, 0, 1 + value.nodes(), Some(first)) is Err);
        assert(read_entries(s, 1, opts, 0, 1, None) is Err);
    }
}

/// A tree that nests deeper than is allowed is refused for that and for nothing
/// else, where its values are not too many.
pub proof fn law_too_deep_is_refused(t: Tree, opts: DecodeOptions)
    requires
        t.wf(),
        t.nodes() <= opts.max_nodes,
        t.height() > opts.max_depth,
        t.enc().len() <= usize::MAX,
    ensures
        read_all(t.enc(), opts) matches Err(e) && e.kind == (DecodeErrorKind::DepthExceeded {
            max: opts.max_depth,
        }),
{
    assert(t.enc().subrange(0, t.enc().len() as int) =~= t.enc());
    lemma_too_deep_value(t.enc(), 0, opts, 0, 0, t);
}

/// Reading failed because of the depth.
pub open spec fn too_deep<T>(
    r: Result<(T, nat, nat), DecodeError>,
    opts: DecodeOptions,
) -> bool {
    r matches Err(e) && e.kind == (DecodeErrorKind::DepthExceeded { max: opts.max_depth })
}

proof fn lemma_too_deep_value(
    s: Seq<u8>,
    pos: nat,
    opts: DecodeOptions,
    depth: nat,
    used: nat,
    t: Tree,
)
    requires
        stands_at(s, pos, t.enc()),
        s.len() <= usize::MAX,
        t.wf(),
        depth + t.height() > opts.max_depth,
        used + t.nodes() <= opts.max_nodes,
    ensures
        too_deep(read_value(s, pos, opts, depth, used), opts),
    decreases t, 0nat,
{
    lemma_enc_first(t);
    assert(s.subrange(pos as int, (pos + t.enc().len()) as int)[0] == s[pos as int]);
    if depth <= opts.max_depth {
        match t {
            Tree::List(items) => {
                let inside = enc_list(items) + seq![101u8];
                assert(t.enc() =~= seq![108u8] + inside);
                lemma_stands_split(s, pos, seq![108u8], inside);
                lemma_too_deep_items(s, pos + 1, opts, depth, used + 1, items);
            },
            Tree::Dict(entries) => {
                let inside = enc_entries(entries) + seq![101u8];
                assert(t.enc() =~= seq![100u8] + inside);
                lemma_stands_split(s, pos, seq![100u8], inside);
                lemma_too_deep_entries(s, pos + 1, opts, depth, used + 1, entries, None);
            },
            _ => {},
        }
    }
}

proof fn lemma_too_deep_items(
    s: Seq<u8>,
    pos: nat,
    opts: DecodeOptions,
    depth: nat,
    used: nat,
    items: Seq<Tree>,
)
    requires
        stands_at(s, pos, enc_list(items) + seq![101u8]),
        s.len() <= usize::MAX,
        list_wf(items),
        depth + list_height(items) > opts.max_depth,
        depth <= opts.max_depth,
        used + list_nodes(items) <= opts.max_nodes,
    ensures
        too_deep(read_items(s, pos, opts, depth, used), opts),
    decreases items, 1nat,
{
    if items.len() > 0 {
        let first = items[0];
        let rest = items.subrange(1, items.len() as int);
        let tail = enc_list(rest) + seq![101u8];
        assert(enc_list(items) + seq![101u8] =~= first.enc() + tail);
        lemma_stands_split(s, pos, first.enc(), tail);
        lemma_enc_first(first);
        assert(s.subrange(pos as int, (pos + first.enc().len()) as int)[0] == s[pos as int]);
        if depth + 1 + first.height() > opts.max_depth {
            lemma_too_deep_value(s, pos, opts, depth + 1, used, first);
        } else {
            lemma_read_value_complete(s, pos, opts, depth + 1, used, first);
            lemma_too_deep_items(
                s,
                pos + first.enc().len(),
                opts,
                depth,
                used + first.nodes(),
                rest,
            );
        }
    }
}

proof fn lemma_too_deep_entries(
    s: Seq<u8>,
    pos: nat,
    opts: DecodeOptions,
    depth: nat,
    used: nat,
    entries: Seq<(Seq<u8>, Tree)>,
    last: Option<Seq<u8>>,
)
    requires
        stands_at(s, pos, enc_entries(entries) + seq![101u8]),
        s.len() <= usize::MAX,
        entries_wf(entries),
        keys_ascend(entries),
        last is Some && entries.len() > 0 ==> lex_less(last->0, entries[0].0),
        depth + entries_height(entries) > opts.max_depth,
        depth <= opts.max_depth,
        used + entries_nodes(entries) <= opts.max_nodes,
    ensures
        too_deep(read_entries(s, pos, opts, depth, used, last), opts),
    decreases entries, 1nat,
{
    if entries.len() > 0 {
        let key = entries[0].0;
        let value = entries[0].1;
        let rest = entries.subrange(1, entries.len() as int);
        let tail = enc_entries(rest) + seq![101u8];
        assert(enc_entries(entries) + seq![101u8] =~= enc_bytes(key) + (value.enc() + tail));
        lemma_stands_split(s, pos, enc_bytes(key), value.enc() + tail);
        lemma_read_bytes_complete(s, pos, key);
        let at: nat = pos + enc_bytes(key).len();
        lemma_stands_split(s, at, value.enc(), tail);
        if last is Some {
            lemma_lex_irreflexive(key);
            if lex_less(key, last->0) {
                lemma_lex_transitive(key, last->0, key);
            }
        }
        assert(key_failure(last, key) is None);
        lemma_dec_digits_canonical(key.len());
        lemma_enc_first(value);
        if depth + 1 + value.height() > opts.max_depth {
            lemma_too_deep_value(s, at, opts, depth + 1, used, value);
        } else {
            lemma_read_value_complete(s, at, opts, depth + 1, used, value);
            assert forall|i: int, j: int| 0 <= i < j < rest.len() implies lex_less(
                #[trigger] rest[i].0,
                #[trigger] rest[j].0,
            ) by {
                assert(rest[i].0 == entries[i + 1].0);
                assert(rest[j].0 == entries[j + 1].0);
            }
            if rest.len() > 0 {
                assert(rest[0].0 == entries[1].0);
            }
            lemma_too_deep_entries(
                s,
                at + value.enc().len(),
                opts,
                depth,
                used + value.nodes(),
                rest,
                Some(key),
            );
        }
    }
}

proof fn lemma_digits_reach_the_end(s: Seq<u8>, pos: nat)
    requires
        pos <= s.len(),
        forall|i: int| pos <= i < s.len() ==> is_digit(#[trigger] s[i]),
    ensures
        digits_end(s, pos) == s.len(),
    decreases s.len() - pos,
{
    if pos < s.len() {
        assert(is_digit(s[pos as int]));
        lemma_digits_reach_the_end(s, pos + 1);
    }
}

/// Digits that run to the end of the input, as a length or behind an `i`, are
/// refused at the last of them, unless a zero in front of another digit was refused
/// before.
pub proof fn law_unfinished_digits_are_refused(digits: Seq<u8>, opts: DecodeOptions)
    requires
        opts.max_nodes > 0,
        digits.len() > 0,
        all_digits(digits),
        digits.len() < usize::MAX,
    ensures
        ({
            let last = if digits[0] == 48 && digits.len() > 1 {
                0
            } else {
                digits.len() - 1
            };
            refused(digits, opts, last, DecodeErrorKind::InvalidLength)
        }),
        ({
            let last = if digits[0] == 48 && digits.len() > 1 {
                0
            } else {
                digits.len() as int
            };
            refused(seq![105u8] + digits, opts, last, DecodeErrorKind::InvalidInteger)
        }),
{
    assert(is_digit(digits[0]));
    lemma_digits_reach_the_end(digits, 0);
    assert(digits.subrange(0, digits.len() as int) =~= digits);
    let s = seq![105u8] + digits;
    assert forall|i: int| 1 <= i < s.len() implies is_digit(#[trigger] s[i]) by {
        assert(s[i] == digits[i - 1]);
    }
    lemma_digits_reach_the_end(s, 1);
    assert(s.subrange(1, s.len() as int) =~= digits);
    assert(s[1] == digits[0]);
}

} // verus!
