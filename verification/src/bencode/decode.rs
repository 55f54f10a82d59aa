//! Zero-copy bencode decoder.
use crate::bencode::error::{DecodeError, DecodeErrorKind};
use crate::bencode::grammar::{
    digits_end, fail, key_failure, lemma_reads_move, read_all, read_bytes, read_entries, read_int,
    read_items, read_value, Read,
};
use crate::bencode::laws::{
    fits, law_accepts_exactly_encodings, law_encode_undoes_decode, lemma_read_bytes_sound,
    lemma_read_entries_sound,
    lemma_read_value_sound,
};
use crate::bencode::encode::lemma_enc_entries_push;
use crate::bencode::tree::{enc_bytes, enc_entries, keys_ascend, Tree};
use crate::bencode::value::{
    entries_borrowed, entry_trees, is_borrowed, list_trees, Dict, Value,
};
use crate::decimal::{all_digits, is_digit, parse_decimal};
use crate::lex::{
    bytes_equal, lemma_lex_total, lemma_lex_transitive, lex_less, rank_bytes, Rank,
};
use std::borrow::Cow;
use vstd::prelude::*;
use vstd::slice::slice_subrange;

verus! {

/// Nesting depth that `decode` accepts.
pub const DEFAULT_MAX_DEPTH: u32 = 256;

/// Number of values that `decode` accepts: as many as the counter can hold.
pub const DEFAULT_MAX_NODES: u32 = 0xffff_ffff;

/// Decoder limits.
#[derive(Debug, Clone, Copy)]
#[non_exhaustive]
pub struct DecodeOptions {
    /// Deepest nesting accepted; the root stands at depth 0.
    pub max_depth: u32,
    /// Most values accepted. Every value counts, the root included; dictionary
    /// keys do not.
    pub max_nodes: u32,
}

/// The limits that `DecodeOptions::default` gives.
pub open spec fn default_options() -> DecodeOptions {
    DecodeOptions { max_depth: DEFAULT_MAX_DEPTH, max_nodes: DEFAULT_MAX_NODES }
}

impl Default for DecodeOptions {
    fn default() -> (r: Self)
        ensures
            r == default_options(),
    {
        DecodeOptions { max_depth: DEFAULT_MAX_DEPTH, max_nodes: DEFAULT_MAX_NODES }
    }
}


/// A position in the input, and how many values were counted up to it.
struct Cursor<'a> {
    buf: &'a [u8],
    pos: usize,
    used: u32,
}

impl<'a> Cursor<'a> {
    spec fn wf(&self) -> bool {
        self.pos <= self.buf.len()
    }

    fn new(buf: &'a [u8]) -> (r: Self)
        ensures
            r.buf == buf,
            r.pos == 0,
            r.used == 0,
            r.wf(),
    {
        Cursor { buf, pos: 0, used: 0 }
    }

    fn peek(&self) -> (r: Option<u8>)
        ensures
            r == (if self.pos < self.buf@.len() {
                Some(self.buf@[self.pos as int])
            } else {
                None
            }),
    {
        if self.pos < self.buf.len() {
            Some(self.buf[self.pos])
        } else {
            None
        }
    }

    fn bump(&mut self) -> (r: Option<u8>)
        requires
            old(self).wf(),
        ensures
            final(self).wf(),
            final(self).buf == old(self).buf,
            final(self).used == old(self).used,
            if old(self).pos < old(self).buf@.len() {
                &&& r == Some(old(self).buf@[old(self).pos as int])
                &&& final(self).pos == old(self).pos + 1
            } else {
                &&& r is None
                &&& final(self).pos == old(self).pos
            },
    {
        let b = self.peek();
        if b.is_some() {
            self.pos = self.pos + 1;
        }
        b
    }

    fn err(&self, kind: DecodeErrorKind) -> (r: DecodeError)
        ensures
            r == (DecodeError { offset: self.pos, kind }),
    {
        DecodeError { offset: self.pos, kind }
    }

    fn take(&mut self, n: usize) -> (r: Result<&'a [u8], DecodeError>)
        requires
            old(self).wf(),
        ensures
            final(self).wf(),
            final(self).buf == old(self).buf,
            final(self).used == old(self).used,
            match r {
                Ok(s) => {
                    &&& old(self).pos + n <= old(self).buf@.len()
                    &&& final(self).pos == old(self).pos + n
                    &&& s@ == old(self).buf@.subrange(old(self).pos as int, old(self).pos + n)
                },
                Err(e) => {
                    &&& final(self).pos == old(self).pos
                    &&& old(self).pos + n > old(self).buf@.len()
                    &&& e.offset == old(self).pos
                    &&& e.kind == (if old(self).pos + n > usize::MAX {
                        DecodeErrorKind::LengthOverflow
                    } else {
                        DecodeErrorKind::LengthExceedsInput
                    })
                },
            },
    {
        match self.pos.checked_add(n) {
            None => Err(self.err(DecodeErrorKind::LengthOverflow)),
            Some(end) => {
                if end > self.buf.len() {
                    return Err(self.err(DecodeErrorKind::LengthExceedsInput));
                }
                let s = slice_subrange(self.buf, self.pos, end);
                self.pos = end;
                Ok(s)
            },
        }
    }

    /// Moves over a run of digits and returns it.
    fn digits(&mut self) -> (r: &'a [u8])
        requires
            old(self).wf(),
        ensures
            final(self).wf(),
            final(self).buf == old(self).buf,
            final(self).used == old(self).used,
            final(self).pos == digits_end(old(self).buf@, old(self).pos as nat),
            final(self).pos >= old(self).pos,
            r@ == old(self).buf@.subrange(old(self).pos as int, final(self).pos as int),
            all_digits(r@),
    {
        let start: usize = self.pos;
        while self.pos < self.buf.len() && 48 <= self.buf[self.pos] && self.buf[self.pos] <= 57
            invariant
                self.wf(),
                self.buf == old(self).buf,
                self.used == old(self).used,
                start == old(self).pos,
                start <= self.pos,
                digits_end(self.buf@, start as nat) == digits_end(self.buf@, self.pos as nat),
                forall|i: int| start <= i < self.pos ==> is_digit(#[trigger] self.buf@[i]),
            decreases self.buf@.len() - self.pos,
        {
            self.pos = self.pos + 1;
        }
        slice_subrange(self.buf, start, self.pos)
    }
}

fn failure(offset: usize, kind: DecodeErrorKind) -> (r: DecodeError)
    ensures
        r == (DecodeError { offset, kind }),
{
    DecodeError { offset, kind }
}

fn parse_int<'a>(cur: &mut Cursor<'a>) -> (r: Result<i64, DecodeError>)
    requires
        old(cur).wf(),
        old(cur).pos < old(cur).buf@.len(),
    ensures
        final(cur).wf(),
        final(cur).buf == old(cur).buf,
        final(cur).used == old(cur).used,
        match r {
            Ok(n) => read_int(old(cur).buf@, old(cur).pos as nat) == Ok::<(i64, nat), DecodeError>(
                (n, final(cur).pos as nat),
            ) && final(cur).pos > old(cur).pos,
            Err(e) => read_int(old(cur).buf@, old(cur).pos as nat) == Err::<(i64, nat), DecodeError>(e),
        },
{
    let start: usize = cur.pos;
    cur.pos = cur.pos + 1;
    let mut negative: bool = false;
    if cur.peek() == Some(45u8) {
        negative = true;
        cur.pos = cur.pos + 1;
    }
    let digits = cur.digits();
    if digits.len() == 0 || (digits[0] == 48 && (digits.len() > 1 || negative)) {
        return Err(failure(start, DecodeErrorKind::InvalidInteger));
    }
    if cur.bump() != Some(101u8) {
        return Err(failure(cur.pos - 1, DecodeErrorKind::InvalidInteger));
    }
    let limit: u64 = if negative { 0x8000_0000_0000_0000u64 } else { 0x7fff_ffff_ffff_ffffu64 };
    match parse_decimal(digits, limit) {
        None => Err(failure(start, DecodeErrorKind::IntegerOverflow)),
        Some(v) => {
            if !negative {
                Ok(v as i64)
            } else if v == 0x8000_0000_0000_0000u64 {
                Ok(i64::MIN)
            } else {
                Ok(-(v as i64))
            }
        },
    }
}

fn parse_bytes<'a>(cur: &mut Cursor<'a>) -> (r: Result<&'a [u8], DecodeError>)
    requires
        old(cur).wf(),
    ensures
        final(cur).wf(),
        final(cur).buf == old(cur).buf,
        final(cur).used == old(cur).used,
        match r {
            Ok(b) => read_bytes(old(cur).buf@, old(cur).pos as nat) == Ok::<(Seq<u8>, nat), DecodeError>(
                (b@, final(cur).pos as nat),
            ) && final(cur).pos > old(cur).pos,
            Err(e) => read_bytes(old(cur).buf@, old(cur).pos as nat) == Err::<
                (Seq<u8>, nat),
                DecodeError,
            >(e),
        },
{
    let start: usize = cur.pos;
    let digits = cur.digits();
    if digits.len() == 0 || (digits.len() > 1 && digits[0] == 48) {
        return Err(failure(start, DecodeErrorKind::InvalidLength));
    }
    if cur.bump() != Some(58u8) {
        return Err(failure(cur.pos - 1, DecodeErrorKind::InvalidLength));
    }
    match parse_decimal(digits, usize::MAX as u64) {
        None => Err(failure(start, DecodeErrorKind::LengthOverflow)),
        Some(len) => cur.take(len as usize),
    }
}


/// `items` in front of what `rest` read.
spec fn after_items(items: Seq<Tree>, rest: Read<Seq<Tree>>) -> Read<Seq<Tree>> {
    match rest {
        Ok((more, end, total)) => Ok((items + more, end, total)),
        Err(e) => Err(e),
    }
}

/// `entries` in front of what `rest` read.
spec fn after_entries(
    entries: Seq<(Seq<u8>, Tree)>,
    rest: Read<Seq<(Seq<u8>, Tree)>>,
) -> Read<Seq<(Seq<u8>, Tree)>> {
    match rest {
        Ok((more, end, total)) => Ok((entries + more, end, total)),
        Err(e) => Err(e),
    }
}

/// The cursor after a read that gave `want`.
spec fn reached<T>(before: Cursor<'_>, after: Cursor<'_>, want: Read<T>, got: Result<T, DecodeError>) -> bool {
    &&& after.wf()
    &&& after.buf == before.buf
    &&& match got {
        Ok(t) => want == Ok::<(T, nat, nat), DecodeError>((t, after.pos as nat, after.used as nat)),
        Err(e) => want == Err::<(T, nat, nat), DecodeError>(e),
    }
}

/// The tree of a parsed value.
pub open spec fn tree_of<'a>(r: Result<Value<'a>, DecodeError>) -> Result<Tree, DecodeError> {
    match r {
        Ok(v) => Ok(v.tree()),
        Err(e) => Err(e),
    }
}

fn parse_value<'a>(cur: &mut Cursor<'a>, opts: DecodeOptions, depth: u64) -> (r: Result<
    Value<'a>,
    DecodeError,
>)
    requires
        old(cur).wf(),
        old(cur).used <= opts.max_nodes,
        depth <= opts.max_depth + 1,
    ensures
        reached(
            *old(cur),
            *final(cur),
            read_value(old(cur).buf@, old(cur).pos as nat, opts, depth as nat, old(cur).used as nat),
            tree_of(r),
        ),
        r is Ok ==> is_borrowed(r->Ok_0),
    decreases opts.max_depth + 1 - depth, 1int,
{
    if depth > opts.max_depth as u64 {
        return Err(cur.err(DecodeErrorKind::DepthExceeded { max: opts.max_depth }));
    }
    if cur.used >= opts.max_nodes {
        return Err(cur.err(DecodeErrorKind::NodeLimitExceeded { max: opts.max_nodes }));
    }
    match cur.peek() {
        None => Err(cur.err(DecodeErrorKind::UnexpectedEof)),
        Some(b) => {
            if b == 105 {
                cur.used = cur.used + 1;
                match parse_int(cur) {
                    Ok(n) => Ok(Value::Int(n)),
                    Err(e) => Err(e),
                }
            } else if b == 108 {
                parse_list(cur, opts, depth)
            } else if b == 100 {
                parse_dict(cur, opts, depth)
            } else if 48 <= b && b <= 57 {
                cur.used = cur.used + 1;
                match parse_bytes(cur) {
                    Ok(s) => Ok(Value::Bytes(Cow::Borrowed(s))),
                    Err(e) => Err(e),
                }
            } else {
                Err(cur.err(DecodeErrorKind::UnexpectedByte { byte: b }))
            }
        },
    }
}

fn parse_list<'a>(cur: &mut Cursor<'a>, opts: DecodeOptions, depth: u64) -> (r: Result<
    Value<'a>,
    DecodeError,
>)
    requires
        old(cur).wf(),
        old(cur).used < opts.max_nodes,
        depth <= opts.max_depth,
        old(cur).pos < old(cur).buf@.len(),
        old(cur).buf@[old(cur).pos as int] == 108,
    ensures
        reached(
            *old(cur),
            *final(cur),
            read_value(old(cur).buf@, old(cur).pos as nat, opts, depth as nat, old(cur).used as nat),
            tree_of(r),
        ),
        r is Ok ==> is_borrowed(r->Ok_0),
    decreases opts.max_depth + 1 - depth, 0int,
{
    cur.pos = cur.pos + 1;
    cur.used = cur.used + 1;
    let mut items: Vec<Value<'a>> = Vec::new();
    let ghost s = cur.buf@;
    let ghost want = read_items(s, cur.pos as nat, opts, depth as nat, cur.used as nat);
    assert(want == after_items(list_trees(items@), want)) by {
        if let Ok((more, _, _)) = want {
            assert(Seq::<Tree>::empty() + more =~= more);
        }
    }
    loop
        invariant
            cur.wf(),
            cur.buf == old(cur).buf,
            s == cur.buf@,
            cur.used <= opts.max_nodes,
            depth <= opts.max_depth,
            forall|i: int| 0 <= i < items@.len() ==> is_borrowed(#[trigger] items@[i]),
            want == after_items(
                list_trees(items@),
                read_items(s, cur.pos as nat, opts, depth as nat, cur.used as nat),
            ),
            match want {
                Ok((all, next, total)) => read_value(
                    s,
                    old(cur).pos as nat,
                    opts,
                    depth as nat,
                    old(cur).used as nat,
                ) == Ok::<(Tree, nat, nat), DecodeError>((Tree::List(all), next, total)),
                Err(e) => read_value(
                    s,
                    old(cur).pos as nat,
                    opts,
                    depth as nat,
                    old(cur).used as nat,
                ) == Err::<(Tree, nat, nat), DecodeError>(e),
            },
        decreases cur.buf@.len() - cur.pos,
    {
        match cur.peek() {
            None => {
                return Err(cur.err(DecodeErrorKind::UnexpectedEof));
            },
            Some(b) => {
                if b == 101 {
                    cur.pos = cur.pos + 1;
                    assert(list_trees(items@) + Seq::<Tree>::empty() =~= list_trees(items@));
                    let list = Value::List(items);
                    assert(is_borrowed(list));
                    return Ok(list);
                }
                proof {
                    lemma_reads_move(s, cur.pos as nat, opts, (depth + 1) as nat, cur.used as nat);
                }
                let ghost rest = read_items(s, cur.pos as nat, opts, depth as nat, cur.used as nat);
                let item = match parse_value(cur, opts, depth + 1) {
                    Ok(v) => v,
                    Err(e) => {
                        return Err(e);
                    },
                };
                let ghost prior = items@;
                items.push(item);
                proof {
                    assert(items@.subrange(0, items@.len() - 1) =~= prior);
                    let next = read_items(s, cur.pos as nat, opts, depth as nat, cur.used as nat);
                    if let Ok((more, _, _)) = next {
                        assert(list_trees(prior) + (seq![item.tree()] + more) =~= list_trees(items@)
                            + more);
                    }
                }
            },
        }
    }
}

fn parse_dict<'a>(cur: &mut Cursor<'a>, opts: DecodeOptions, depth: u64) -> (r: Result<
    Value<'a>,
    DecodeError,
>)
    requires
        old(cur).wf(),
        old(cur).used < opts.max_nodes,
        depth <= opts.max_depth,
        old(cur).pos < old(cur).buf@.len(),
        old(cur).buf@[old(cur).pos as int] == 100,
    ensures
        reached(
            *old(cur),
            *final(cur),
            read_value(old(cur).buf@, old(cur).pos as nat, opts, depth as nat, old(cur).used as nat),
            tree_of(r),
        ),
        r is Ok ==> is_borrowed(r->Ok_0),
    decreases opts.max_depth + 1 - depth, 0int,
{
    cur.pos = cur.pos + 1;
    cur.used = cur.used + 1;
    let mut map: Dict<'a> = Dict::new();
    let mut last: Option<&'a [u8]> = None;
    let ghost s = cur.buf@;
    let ghost want = read_entries(s, cur.pos as nat, opts, depth as nat, cur.used as nat, None);
    assert(want == after_entries(entry_trees(map@), want)) by {
        if let Ok((more, _, _)) = want {
            assert(Seq::<(Seq<u8>, Tree)>::empty() + more =~= more);
        }
    }
    loop
        invariant
            cur.wf(),
            cur.buf == old(cur).buf,
            s == cur.buf@,
            cur.used <= opts.max_nodes,
            depth <= opts.max_depth,
            entries_borrowed(map@),
            want == after_entries(
                entry_trees(map@),
                read_entries(
                    s,
                    cur.pos as nat,
                    opts,
                    depth as nat,
                    cur.used as nat,
                    last_view(last),
                ),
            ),
            match want {
                Ok((all, next, total)) => read_value(
                    s,
                    old(cur).pos as nat,
                    opts,
                    depth as nat,
                    old(cur).used as nat,
                ) == Ok::<(Tree, nat, nat), DecodeError>((Tree::Dict(all), next, total)),
                Err(e) => read_value(
                    s,
                    old(cur).pos as nat,
                    opts,
                    depth as nat,
                    old(cur).used as nat,
                ) == Err::<(Tree, nat, nat), DecodeError>(e),
            },
            last is None ==> map@.len() == 0,
            map@.len() > 0 ==> last is Some && map@[map@.len() - 1].0@ == last->0@,
            map.wf(),
        decreases cur.buf@.len() - cur.pos,
    {
        match cur.peek() {
            None => {
                return Err(cur.err(DecodeErrorKind::UnexpectedEof));
            },
            Some(b) => {
                if b == 101 {
                    cur.pos = cur.pos + 1;
                    assert(entry_trees(map@) + Seq::<(Seq<u8>, Tree)>::empty() =~= entry_trees(
                        map@,
                    ));
                    let dict = Value::Dict(map);
                    assert(is_borrowed(dict));
                    return Ok(dict);
                }
                proof {
                    lemma_reads_move(s, cur.pos as nat, opts, (depth + 1) as nat, cur.used as nat);
                }
                let key = match parse_key(cur, last) {
                    Ok(k) => k,
                    Err(e) => {
                        return Err(e);
                    },
                };
                proof {
                    if let Some(prev) = last {
                        lemma_lex_total(key@, prev@);
                    }
                }
                proof {
                    lemma_reads_move(s, cur.pos as nat, opts, (depth + 1) as nat, cur.used as nat);
                }
                let value = match parse_value(cur, opts, depth + 1) {
                    Ok(v) => v,
                    Err(e) => {
                        return Err(e);
                    },
                };
                let ghost prior = map@;
                map.push_last(key, value);
                last = Some(key);
                proof {
                    assert(map@.subrange(0, map@.len() - 1) =~= prior);
                    let next = read_entries(
                        s,
                        cur.pos as nat,
                        opts,
                        depth as nat,
                        cur.used as nat,
                        Some(key@),
                    );
                    if let Ok((more, _, _)) = next {
                        assert(entry_trees(prior) + (seq![(key@, value.tree())] + more)
                            =~= entry_trees(map@) + more);
                    }
                }
            },
        }
    }
}


/// Where a read ended and what it counted, without what it read.
spec fn span<T>(r: Read<T>) -> Result<(nat, nat), DecodeError> {
    match r {
        Ok((_, end, total)) => Ok((end, total)),
        Err(e) => Err(e),
    }
}

/// The cursor after a skip whose read would have ended as `want` says.
spec fn skipped(
    before: Cursor<'_>,
    after: Cursor<'_>,
    want: Result<(nat, nat), DecodeError>,
    got: Result<(), DecodeError>,
) -> bool {
    &&& after.wf()
    &&& after.buf == before.buf
    &&& match got {
        Ok(_) => want == Ok::<(nat, nat), DecodeError>((after.pos as nat, after.used as nat)),
        Err(e) => want == Err::<(nat, nat), DecodeError>(e),
    }
}

/// The bytes of the last key.
spec fn last_view(last: Option<&[u8]>) -> Option<Seq<u8>> {
    match last {
        Some(k) => Some(k@),
        None => None,
    }
}

/// Reads a key that may follow `last`.
fn parse_key<'a>(cur: &mut Cursor<'a>, last: Option<&'a [u8]>) -> (r: Result<&'a [u8], DecodeError>)
    requires
        old(cur).wf(),
    ensures
        final(cur).wf(),
        final(cur).buf == old(cur).buf,
        final(cur).used == old(cur).used,
        match (read_bytes(old(cur).buf@, old(cur).pos as nat), r) {
            (Ok((key, at)), Ok(k)) => {
                &&& k@ == key
                &&& final(cur).pos == at
                &&& final(cur).pos > old(cur).pos
                &&& key_failure(last_view(last), key) is None
            },
            (Ok((key, at)), Err(e)) => {
                &&& key_failure(last_view(last), key) is Some
                &&& e == (DecodeError {
                    offset: old(cur).pos,
                    kind: key_failure(last_view(last), key)->0,
                })
            },
            (Err(want), Err(e)) => want == e,
            (Err(_), Ok(_)) => false,
        },
{
    let key_start: usize = cur.pos;
    let key = match parse_bytes(cur) {
        Ok(k) => k,
        Err(e) => {
            return Err(e);
        },
    };
    if let Some(prev) = last {
        match rank_bytes(key, prev) {
            Rank::Same => {
                return Err(failure(key_start, DecodeErrorKind::DuplicateDictKey));
            },
            Rank::Before => {
                return Err(failure(key_start, DecodeErrorKind::UnsortedDictKeys));
            },
            Rank::After => {},
        }
    }
    Ok(key)
}

fn skip_one<'a>(cur: &mut Cursor<'a>, opts: DecodeOptions, depth: u64) -> (r: Result<
    (),
    DecodeError,
>)
    requires
        old(cur).wf(),
        old(cur).used <= opts.max_nodes,
        depth <= opts.max_depth + 1,
    ensures
        skipped(
            *old(cur),
            *final(cur),
            span(
                read_value(
                    old(cur).buf@,
                    old(cur).pos as nat,
                    opts,
                    depth as nat,
                    old(cur).used as nat,
                ),
            ),
            r,
        ),
    decreases opts.max_depth + 1 - depth, 1int,
{
    if depth > opts.max_depth as u64 {
        return Err(cur.err(DecodeErrorKind::DepthExceeded { max: opts.max_depth }));
    }
    if cur.used >= opts.max_nodes {
        return Err(cur.err(DecodeErrorKind::NodeLimitExceeded { max: opts.max_nodes }));
    }
    let ghost s = cur.buf@;
    match cur.peek() {
        None => Err(cur.err(DecodeErrorKind::UnexpectedEof)),
        Some(b) => {
            if b == 105 {
                cur.used = cur.used + 1;
                match parse_int(cur) {
                    Ok(_) => Ok(()),
                    Err(e) => Err(e),
                }
            } else if b == 108 {
                cur.pos = cur.pos + 1;
                cur.used = cur.used + 1;
                let ghost want = span(
                    read_items(s, cur.pos as nat, opts, depth as nat, cur.used as nat),
                );
                loop
                    invariant
                        cur.wf(),
                        cur.buf == old(cur).buf,
                        s == cur.buf@,
                        cur.used <= opts.max_nodes,
                        depth <= opts.max_depth,
                        want == span(
                            read_items(s, cur.pos as nat, opts, depth as nat, cur.used as nat),
                        ),
                        want == span(
                            read_value(
                                s,
                                old(cur).pos as nat,
                                opts,
                                depth as nat,
                                old(cur).used as nat,
                            ),
                        ),
                    decreases cur.buf@.len() - cur.pos,
                {
                    match cur.peek() {
                        None => {
                            return Err(cur.err(DecodeErrorKind::UnexpectedEof));
                        },
                        Some(c) => {
                            if c == 101 {
                                cur.pos = cur.pos + 1;
                                return Ok(());
                            }
                            proof {
                                lemma_reads_move(
                                    s,
                                    cur.pos as nat,
                                    opts,
                                    (depth + 1) as nat,
                                    cur.used as nat,
                                );
                            }
                            match skip_one(cur, opts, depth + 1) {
                                Ok(_) => {},
                                Err(e) => {
                                    return Err(e);
                                },
                            }
                        },
                    }
                }
            } else if b == 100 {
                cur.pos = cur.pos + 1;
                cur.used = cur.used + 1;
                let mut last: Option<&'a [u8]> = None;
                let ghost want = span(
                    read_entries(s, cur.pos as nat, opts, depth as nat, cur.used as nat, None),
                );
                loop
                    invariant
                        cur.wf(),
                        cur.buf == old(cur).buf,
                        s == cur.buf@,
                        cur.used <= opts.max_nodes,
                        depth <= opts.max_depth,
                        want == span(
                            read_entries(
                                s,
                                cur.pos as nat,
                                opts,
                                depth as nat,
                                cur.used as nat,
                                last_view(last),
                            ),
                        ),
                        want == span(
                            read_value(
                                s,
                                old(cur).pos as nat,
                                opts,
                                depth as nat,
                                old(cur).used as nat,
                            ),
                        ),
                    decreases cur.buf@.len() - cur.pos,
                {
                    match cur.peek() {
                        None => {
                            return Err(cur.err(DecodeErrorKind::UnexpectedEof));
                        },
                        Some(c) => {
                            if c == 101 {
                                cur.pos = cur.pos + 1;
                                return Ok(());
                            }
                            proof {
                                lemma_reads_move(
                                    s,
                                    cur.pos as nat,
                                    opts,
                                    (depth + 1) as nat,
                                    cur.used as nat,
                                );
                            }
                            let key = match parse_key(cur, last) {
                                Ok(k) => k,
                                Err(e) => {
                                    return Err(e);
                                },
                            };
                            proof {
                                lemma_reads_move(
                                    s,
                                    cur.pos as nat,
                                    opts,
                                    (depth + 1) as nat,
                                    cur.used as nat,
                                );
                            }
                            last = Some(key);
                            match skip_one(cur, opts, depth + 1) {
                                Ok(_) => {},
                                Err(e) => {
                                    return Err(e);
                                },
                            }
                        },
                    }
                }
            } else if 48 <= b && b <= 57 {
                cur.used = cur.used + 1;
                match parse_bytes(cur) {
                    Ok(_) => Ok(()),
                    Err(e) => Err(e),
                }
            } else {
                Err(cur.err(DecodeErrorKind::UnexpectedByte { byte: b }))
            }
        },
    }
}

/// Decodes one value that takes up the whole input, within the default limits.
pub fn decode<'a>(input: &'a [u8]) -> (r: Result<Value<'a>, DecodeError>)
    ensures
        tree_of(r) == read_all(input@, default_options()),
        r is Ok ==> r->Ok_0.tree().enc() == input@ && fits(r->Ok_0.tree(), default_options()),
        r is Ok ==> is_borrowed(r->Ok_0),
        (exists|t: Tree| fits(t, default_options()) && #[trigger] t.enc() == input@) ==> r is Ok,
{
    decode_with(input, DecodeOptions::default())
}

/// Decodes one value that takes up the whole input, within the given limits.
///
/// It succeeds exactly on the canonical encodings of trees that the limits
/// admit; otherwise it reports the first failure that the grammar meets.
pub fn decode_with<'a>(input: &'a [u8], opts: DecodeOptions) -> (r: Result<Value<'a>, DecodeError>)
    ensures
        tree_of(r) == read_all(input@, opts),
        r is Ok ==> r->Ok_0.tree().enc() == input@ && fits(r->Ok_0.tree(), opts),
        r is Ok ==> is_borrowed(r->Ok_0),
        (exists|t: Tree| fits(t, opts) && #[trigger] t.enc() == input@) ==> r is Ok,
{
    let mut cur = Cursor::new(input);
    proof {
        let len: usize = input.len();
        assert(len == input@.len());
        law_accepts_exactly_encodings(input@, opts);
        if read_all(input@, opts) is Ok {
            law_encode_undoes_decode(input@, opts);
        }
    }
    match parse_value(&mut cur, opts, 0) {
        Err(e) => Err(e),
        Ok(value) => {
            if cur.pos != input.len() {
                return Err(cur.err(DecodeErrorKind::TrailingData));
            }
            Ok(value)
        },
    }
}

/// Decodes one value from the front of the input and returns it with the bytes
/// behind it.
pub fn decode_prefix<'a>(input: &'a [u8]) -> (r: Result<(Value<'a>, &'a [u8]), DecodeError>)
    ensures
        match (read_value(input@, 0, default_options(), 0, 0), r) {
            (Ok((t, end, _)), Ok((value, rest))) => {
                &&& value.tree() == t
                &&& end <= input@.len()
                &&& rest@ == input@.skip(end as int)
                &&& input@ == t.enc() + rest@
                &&& is_borrowed(value)
            },
            (Err(want), Err(e)) => want == e,
            _ => false,
        },
{
    let mut cur = Cursor::new(input);
    match parse_value(&mut cur, DecodeOptions::default(), 0) {
        Err(e) => Err(e),
        Ok(value) => {
            let rest = slice_subrange(input, cur.pos, input.len());
            proof {
                lemma_read_value_sound(input@, 0, default_options(), 0, 0);
                assert(rest@ =~= input@.skip(cur.pos as int));
                assert(input@ =~= input@.subrange(0, cur.pos as int) + rest@);
            }
            Ok((value, rest))
        },
    }
}

/// The byte range that one value at the front of the input takes up, found
/// without building the value. Bytes may follow it.
pub fn skip_value(input: &[u8]) -> (r: Result<std::ops::Range<usize>, DecodeError>)
    ensures
        span_matches(input@, default_options(), r),
{
    skip_value_with(input, DecodeOptions::default())
}

/// `r` is the range of the value that the grammar reads at the front of `s`, or
/// its failure.
pub open spec fn span_matches(
    s: Seq<u8>,
    opts: DecodeOptions,
    r: Result<std::ops::Range<usize>, DecodeError>,
) -> bool {
    match (read_value(s, 0, opts, 0, 0), r) {
        (Ok((t, end, _)), Ok(range)) => {
            &&& range.start == 0
            &&& range.end == end
            &&& end <= s.len()
            &&& s.take(end as int) == t.enc()
        },
        (Err(want), Err(e)) => want == e,
        _ => false,
    }
}

/// `skip_value` within the given limits.
pub fn skip_value_with(input: &[u8], opts: DecodeOptions) -> (r: Result<
    std::ops::Range<usize>,
    DecodeError,
>)
    ensures
        span_matches(input@, opts, r),
{
    let mut cur = Cursor::new(input);
    let start: usize = cur.pos;
    proof {
        lemma_read_value_sound(input@, 0, opts, 0, 0);
    }
    match skip_one(&mut cur, opts, 0) {
        Err(e) => Err(e),
        Ok(_) => {
            assert(input@.take(cur.pos as int) =~= input@.subrange(0, cur.pos as int));
            Ok(start..cur.pos)
        },
    }
}

/// The offset of the value of the entry at place `i` of a dictionary that
/// starts the input.
pub open spec fn value_offset(entries: Seq<(Seq<u8>, Tree)>, i: int) -> nat {
    1 + enc_entries(entries.take(i)).len() + enc_bytes(entries[i].0).len()
}

/// `range` covers the value of the entry of `s` that holds `key`, where there
/// is one.
pub open spec fn covers_key(
    s: Seq<u8>,
    entries: Seq<(Seq<u8>, Tree)>,
    key: Seq<u8>,
    found: Option<std::ops::Range<usize>>,
) -> bool {
    match found {
        None => forall|i: int| 0 <= i < entries.len() ==> (#[trigger] entries[i]).0 != key,
        Some(range) => exists|i: int|
            {
                &&& 0 <= i < entries.len()
                &&& (#[trigger] entries[i]).0 == key
                &&& range.start == value_offset(entries, i)
                &&& range.end == range.start + entries[i].1.enc().len()
                &&& range.end <= s.len()
                &&& s.subrange(range.start as int, range.end as int) == entries[i].1.enc()
            },
    }
}


proof fn lemma_covers_push(
    s: Seq<u8>,
    done: Seq<(Seq<u8>, Tree)>,
    e: (Seq<u8>, Tree),
    key: Seq<u8>,
    found: Option<std::ops::Range<usize>>,
)
    requires
        covers_key(s, done, key, found),
        found is None ==> e.0 != key,
    ensures
        covers_key(s, done.push(e), key, found),
{
    let all = done.push(e);
    if let Some(range) = found {
        let i = choose|i: int|
            {
                &&& 0 <= i < done.len()
                &&& (#[trigger] done[i]).0 == key
                &&& range.start == value_offset(done, i)
                &&& range.end == range.start + done[i].1.enc().len()
                &&& range.end <= s.len()
                &&& s.subrange(range.start as int, range.end as int) == done[i].1.enc()
            };
        assert(all[i] == done[i]);
        assert(all.take(i) =~= done.take(i));
    } else {
        assert forall|i: int| 0 <= i < all.len() implies (#[trigger] all[i]).0 != key by {
            if i < done.len() {
                assert(all[i] == done[i]);
            }
        }
    }
}

/// The byte range of the value stored under `key` in the dictionary that starts
/// the input, found without building any value.
pub fn dict_value_span(input: &[u8], key: &[u8]) -> (r: Result<
    Option<std::ops::Range<usize>>,
    DecodeError,
>)
    ensures
        if input@.len() == 0 {
            r == fail::<Option<std::ops::Range<usize>>>(0, DecodeErrorKind::UnexpectedEof)
        } else if input@[0] != 100 {
            r == fail::<Option<std::ops::Range<usize>>>(
                0,
                DecodeErrorKind::UnexpectedByte { byte: input@[0] },
            )
        } else {
            match (read_value(input@, 0, default_options(), 0, 0), r) {
                (Ok((Tree::Dict(entries), _, _)), Ok(found)) => covers_key(
                    input@,
                    entries,
                    key@,
                    found,
                ),
                (Err(want), Err(e)) => want == e,
                _ => false,
            }
        },
{
    let mut cur = Cursor::new(input);
    match cur.peek() {
        None => {
            return Err(cur.err(DecodeErrorKind::UnexpectedEof));
        },
        Some(first) => {
            if first != 100 {
                return Err(cur.err(DecodeErrorKind::UnexpectedByte { byte: first }));
            }
        },
    }
    cur.pos = 1;
    cur.used = 1;
    let opts = DecodeOptions::default();
    let mut last: Option<&[u8]> = None;
    let mut found: Option<std::ops::Range<usize>> = None;
    let ghost s = input@;
    let ghost want = read_entries(s, 1, opts, 0, 1, None);
    let ghost mut done: Seq<(Seq<u8>, Tree)> = Seq::empty();
    proof {
        lemma_read_entries_sound(s, 1, opts, 0, 1, None);
        if let Ok((more, _, _)) = want {
            assert(Seq::<(Seq<u8>, Tree)>::empty() + more =~= more);
        }
    }
    loop
        invariant
            cur.wf(),
            cur.buf == input,
            s == input@,
            s.len() > 0,
            s[0] == 100,
            opts == default_options(),
            cur.used <= opts.max_nodes,
            want == read_entries(s, 1, opts, 0, 1, None),
            want == after_entries(
                done,
                read_entries(s, cur.pos as nat, opts, 0, cur.used as nat, last_view(last)),
            ),
            cur.pos == 1 + enc_entries(done).len(),
            covers_key(s, done, key@, found),
            last is None ==> done.len() == 0,
            last is Some ==> done.len() > 0 && done[done.len() - 1].0 == last->0@,
            keys_ascend(done),
        decreases input@.len() - cur.pos,
    {
        match cur.peek() {
            None => {
                return Err(cur.err(DecodeErrorKind::UnexpectedEof));
            },
            Some(b) => {
                if b == 101 {
                    assert(done + Seq::<(Seq<u8>, Tree)>::empty() =~= done);
                    return Ok(found);
                }
                proof {
                    lemma_reads_move(s, cur.pos as nat, opts, 1, cur.used as nat);
                    lemma_read_bytes_sound(s, cur.pos as nat);
                }
                let this_key = match parse_key(&mut cur, last) {
                    Ok(k) => k,
                    Err(e) => {
                        return Err(e);
                    },
                };
                let value_start: usize = cur.pos;
                proof {
                    lemma_reads_move(s, cur.pos as nat, opts, 1, cur.used as nat);
                    lemma_read_value_sound(s, cur.pos as nat, opts, 1, cur.used as nat);
                }
                let ghost got = read_value(s, cur.pos as nat, opts, 1, cur.used as nat);
                match skip_one(&mut cur, opts, 1) {
                    Ok(_) => {},
                    Err(e) => {
                        return Err(e);
                    },
                }
                let ghost value = got->Ok_0.0;
                let ghost e = (this_key@, value);
                let ghost prior = done;
                proof {
                    done = done.push(e);
                    lemma_enc_entries_push(prior, e);
                    let next = read_entries(
                        s,
                        cur.pos as nat,
                        opts,
                        0,
                        cur.used as nat,
                        Some(this_key@),
                    );
                    if let Ok((more, _, _)) = next {
                        assert(prior + (seq![e] + more) =~= done + more);
                    }
                    if let Some(prev) = last {
                        lemma_lex_total(this_key@, prev@);
                    }
                    assert forall|i: int, j: int| 0 <= i < j < done.len() implies lex_less(
                        #[trigger] done[i].0,
                        #[trigger] done[j].0,
                    ) by {
                        if j < prior.len() {
                            assert(prior[i].0 == done[i].0 && prior[j].0 == done[j].0);
                        } else if i < prior.len() - 1 {
                            assert(prior[i].0 == done[i].0);
                            lemma_lex_transitive(
                                prior[i].0,
                                prior[prior.len() - 1].0,
                                this_key@,
                            );
                        }
                    }
                    assert(done[prior.len() as int] == e);
                    assert(done.take(prior.len() as int) =~= prior);
                }
                if bytes_equal(this_key, key) && found.is_none() {
                    found = Some(value_start..cur.pos);
                } else {
                    proof {
                        lemma_covers_push(s, prior, e, key@, found);
                    }
                }
                last = Some(this_key);
            },
        }
    }
}

} // verus!
