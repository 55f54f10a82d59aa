//! The grammar that the decoder accepts: for every input and starting point,
//! the tree read and where it ends, or the first failure and its offset.
use crate::bencode::decode::DecodeOptions;
use crate::bencode::error::{DecodeError, DecodeErrorKind};
use crate::bencode::tree::Tree;
use crate::decimal::{all_digits, dec_value, is_digit};
use crate::lex::lex_less;
use vstd::prelude::*;

verus! {

/// What was read, the offset behind it, and how many values were counted so
/// far; or the failure.
pub type Read<T> = Result<(T, nat, nat), DecodeError>;

/// A failure of `kind` at `offset`.
pub open spec fn fail<T>(offset: int, kind: DecodeErrorKind) -> Result<T, DecodeError> {
    Err(DecodeError { offset: offset as usize, kind })
}

/// The first offset from `pos` on that holds no digit.
pub open spec fn digits_end(s: Seq<u8>, pos: nat) -> nat
    decreases s.len() - pos,
{
    if pos < s.len() && is_digit(s[pos as int]) {
        digits_end(s, pos + 1)
    } else {
        pos
    }
}

/// The offset reported when the byte at `end` is not the terminator: that
/// byte's, or the last one's where the input is over.
pub open spec fn terminator_offset(s: Seq<u8>, end: nat) -> int {
    if end < s.len() {
        end as int
    } else {
        end - 1
    }
}

/// A byte string at `pos`: `<length>:<bytes>`.
pub open spec fn read_bytes(s: Seq<u8>, pos: nat) -> Result<(Seq<u8>, nat), DecodeError> {
    let end: nat = digits_end(s, pos);
    let digits = s.subrange(pos as int, end as int);
    let body: nat = end + 1;
    let len: nat = dec_value(digits);
    if digits.len() == 0 || (digits.len() > 1 && digits[0] == 48) {
        fail(pos as int, DecodeErrorKind::InvalidLength)
    } else if end >= s.len() || s[end as int] != 58 {
        fail(terminator_offset(s, end), DecodeErrorKind::InvalidLength)
    } else if len > usize::MAX {
        fail(pos as int, DecodeErrorKind::LengthOverflow)
    } else if body + len > usize::MAX {
        fail(body as int, DecodeErrorKind::LengthOverflow)
    } else if body + len > s.len() {
        fail(body as int, DecodeErrorKind::LengthExceedsInput)
    } else {
        Ok((s.subrange(body as int, (body + len) as int), body + len))
    }
}

/// An integer at `pos`, where an `i` stands: `i<digits>e` or `i-<digits>e`.
pub open spec fn read_int(s: Seq<u8>, pos: nat) -> Result<(i64, nat), DecodeError> {
    let negative = pos + 1 < s.len() && s[(pos + 1) as int] == 45;
    let start: nat = if negative {
        pos + 2
    } else {
        pos + 1
    };
    let end: nat = digits_end(s, start);
    let digits = s.subrange(start as int, end as int);
    let value: int = if negative {
        -dec_value(digits)
    } else {
        dec_value(digits) as int
    };
    if digits.len() == 0 || (digits[0] == 48 && (digits.len() > 1 || negative)) {
        fail(pos as int, DecodeErrorKind::InvalidInteger)
    } else if end >= s.len() || s[end as int] != 101 {
        fail(terminator_offset(s, end), DecodeErrorKind::InvalidInteger)
    } else if value < i64::MIN || value > i64::MAX {
        fail(pos as int, DecodeErrorKind::IntegerOverflow)
    } else {
        Ok((value as i64, end + 1))
    }
}

/// Whether a read that began at `pos` and ended at `next` moved on.
pub open spec fn moved(s: Seq<u8>, pos: nat, next: nat) -> bool {
    pos < next <= s.len()
}

/// A value at `pos`, `depth` levels down, with `used` values counted before it.
pub open spec fn read_value(
    s: Seq<u8>,
    pos: nat,
    opts: DecodeOptions,
    depth: nat,
    used: nat,
) -> Read<Tree>
    decreases s.len() - pos, 2nat,
{
    if depth > opts.max_depth {
        fail(pos as int, DecodeErrorKind::DepthExceeded { max: opts.max_depth })
    } else if used >= opts.max_nodes {
        fail(pos as int, DecodeErrorKind::NodeLimitExceeded { max: opts.max_nodes })
    } else if pos >= s.len() {
        fail(pos as int, DecodeErrorKind::UnexpectedEof)
    } else if s[pos as int] == 105 {
        match read_int(s, pos) {
            Ok((n, next)) => Ok((Tree::Int(n), next, used + 1)),
            Err(e) => Err(e),
        }
    } else if s[pos as int] == 108 {
        match read_items(s, pos + 1, opts, depth, used + 1) {
            Ok((items, next, total)) => Ok((Tree::List(items), next, total)),
            Err(e) => Err(e),
        }
    } else if s[pos as int] == 100 {
        match read_entries(s, pos + 1, opts, depth, used + 1, None) {
            Ok((entries, next, total)) => Ok((Tree::Dict(entries), next, total)),
            Err(e) => Err(e),
        }
    } else if is_digit(s[pos as int]) {
        match read_bytes(s, pos) {
            Ok((b, next)) => Ok((Tree::Bytes(b), next, used + 1)),
            Err(e) => Err(e),
        }
    } else {
        fail(pos as int, DecodeErrorKind::UnexpectedByte { byte: s[pos as int] })
    }
}

/// The items of a list from `pos` on, up to and with its `e`.
pub open spec fn read_items(
    s: Seq<u8>,
    pos: nat,
    opts: DecodeOptions,
    depth: nat,
    used: nat,
) -> Read<Seq<Tree>>
    decreases s.len() - pos, 3nat,
{
    if pos >= s.len() {
        fail(pos as int, DecodeErrorKind::UnexpectedEof)
    } else if s[pos as int] == 101 {
        Ok((Seq::empty(), pos + 1, used))
    } else {
        match read_value(s, pos, opts, depth + 1, used) {
            Err(e) => Err(e),
            Ok((first, next, total)) => if !moved(s, pos, next) {
                fail(pos as int, DecodeErrorKind::UnexpectedEof)
            } else {
                match read_items(s, next, opts, depth, total) {
                    Err(e) => Err(e),
                    Ok((rest, end, sum)) => Ok((seq![first] + rest, end, sum)),
                }
            },
        }
    }
}

/// Why `key`, read at `pos`, may not follow `last`.
pub open spec fn key_failure(last: Option<Seq<u8>>, key: Seq<u8>) -> Option<DecodeErrorKind> {
    match last {
        None => None,
        Some(prev) => if key == prev {
            Some(DecodeErrorKind::DuplicateDictKey)
        } else if lex_less(key, prev) {
            Some(DecodeErrorKind::UnsortedDictKeys)
        } else {
            None
        },
    }
}

/// The entries of a dictionary from `pos` on, up to and with its `e`; `last`
/// is the key in front of them.
pub open spec fn read_entries(
    s: Seq<u8>,
    pos: nat,
    opts: DecodeOptions,
    depth: nat,
    used: nat,
    last: Option<Seq<u8>>,
) -> Read<Seq<(Seq<u8>, Tree)>>
    decreases s.len() - pos, 3nat,
{
    if pos >= s.len() {
        fail(pos as int, DecodeErrorKind::UnexpectedEof)
    } else if s[pos as int] == 101 {
        Ok((Seq::empty(), pos + 1, used))
    } else {
        match read_bytes(s, pos) {
            Err(e) => Err(e),
            Ok((key, at)) => if key_failure(last, key) is Some {
                fail(pos as int, key_failure(last, key)->0)
            } else if !moved(s, pos, at) {
                fail(pos as int, DecodeErrorKind::UnexpectedEof)
            } else {
                match read_value(s, at, opts, depth + 1, used) {
                    Err(e) => Err(e),
                    Ok((value, next, total)) => if !moved(s, at, next) {
                        fail(pos as int, DecodeErrorKind::UnexpectedEof)
                    } else {
                        match read_entries(s, next, opts, depth, total, Some(key)) {
                            Err(e) => Err(e),
                            Ok((rest, end, sum)) => Ok((seq![(key, value)] + rest, end, sum)),
                        }
                    },
                }
            },
        }
    }
}

/// A whole input: one value and nothing behind it.
pub open spec fn read_all(s: Seq<u8>, opts: DecodeOptions) -> Result<Tree, DecodeError> {
    match read_value(s, 0, opts, 0, 0) {
        Err(e) => Err(e),
        Ok((t, end, _)) => if end != s.len() {
            fail(end as int, DecodeErrorKind::TrailingData)
        } else {
            Ok(t)
        },
    }
}


/// Digits end where a byte is no digit, or with the input.
pub proof fn lemma_digits_end(s: Seq<u8>, pos: nat)
    requires
        pos <= s.len(),
    ensures
        pos <= digits_end(s, pos) <= s.len(),
        all_digits(s.subrange(pos as int, digits_end(s, pos) as int)),
        digits_end(s, pos) < s.len() ==> !is_digit(s[digits_end(s, pos) as int]),
    decreases s.len() - pos,
{
    if pos < s.len() && is_digit(s[pos as int]) {
        lemma_digits_end(s, pos + 1);
        let end: nat = digits_end(s, pos);
        let tail = s.subrange(pos as int + 1, end as int);
        assert forall|i: int| 0 <= i < end - pos implies is_digit(
            #[trigger] s.subrange(pos as int, end as int)[i],
        ) by {
            if i > 0 {
                assert(tail[i - 1] == s[pos + i]);
                assert(is_digit(tail[i - 1]));
            }
        }
    }
}

/// What is read takes up at least one byte and stays inside the input.
pub proof fn lemma_reads_move(
    s: Seq<u8>,
    pos: nat,
    opts: DecodeOptions,
    depth: nat,
    used: nat,
)
    requires
        pos <= s.len(),
    ensures
        match read_bytes(s, pos) {
            Ok((_, next)) => moved(s, pos, next),
            Err(_) => true,
        },
        match read_value(s, pos, opts, depth, used) {
            Ok((_, next, total)) => moved(s, pos, next) && used < total <= opts.max_nodes,
            Err(_) => true,
        },
    decreases s.len() - pos, 2nat,
{
    lemma_digits_end(s, pos);
    if pos < s.len() {
        if s[pos as int] == 105 {
            let negative = pos + 1 < s.len() && s[(pos + 1) as int] == 45;
            let start: nat = if negative {
                pos + 2
            } else {
                pos + 1
            };
            lemma_digits_end(s, start);
        }
        if used < opts.max_nodes {
            lemma_items_move(s, pos + 1, opts, depth, used + 1);
            lemma_entries_move(s, pos + 1, opts, depth, used + 1, None);
        }
    }
}

proof fn lemma_items_move(s: Seq<u8>, pos: nat, opts: DecodeOptions, depth: nat, used: nat)
    requires
        pos <= s.len(),
        used <= opts.max_nodes,
    ensures
        match read_items(s, pos, opts, depth, used) {
            Ok((_, next, total)) => moved(s, pos, next) && used <= total <= opts.max_nodes,
            Err(_) => true,
        },
    decreases s.len() - pos, 3nat,
{
    if pos < s.len() && s[pos as int] != 101 {
        lemma_reads_move(s, pos, opts, depth + 1, used);
        if let Ok((_, next, total)) = read_value(s, pos, opts, depth + 1, used) {
            lemma_items_move(s, next, opts, depth, total);
        }
    }
}

proof fn lemma_entries_move(
    s: Seq<u8>,
    pos: nat,
    opts: DecodeOptions,
    depth: nat,
    used: nat,
    last: Option<Seq<u8>>,
)
    requires
        pos <= s.len(),
        used <= opts.max_nodes,
    ensures
        match read_entries(s, pos, opts, depth, used, last) {
            Ok((_, next, total)) => moved(s, pos, next) && used <= total <= opts.max_nodes,
            Err(_) => true,
        },
    decreases s.len() - pos, 3nat,
{
    if pos < s.len() && s[pos as int] != 101 {
        lemma_reads_move(s, pos, opts, depth + 1, used);
        if let Ok((key, at)) = read_bytes(s, pos) {
            lemma_reads_move(s, at, opts, depth + 1, used);
            if let Ok((_, next, total)) = read_value(s, at, opts, depth + 1, used) {
                lemma_entries_move(s, next, opts, depth, total, Some(key));
            }
        }
    }
}

} // verus!
