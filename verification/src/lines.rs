//! Text by lines and fields.
use vstd::prelude::*;
use vstd::slice::slice_subrange;

verus! {

/// White space, as Unicode defines it.
pub open spec fn is_space(c: char) -> bool {
    ||| '\u{9}' <= c <= '\u{d}'
    ||| c == ' '
    ||| c == '\u{85}'
    ||| c == '\u{a0}'
    ||| c == '\u{1680}'
    ||| '\u{2000}' <= c <= '\u{200a}'
    ||| c == '\u{2028}'
    ||| c == '\u{2029}'
    ||| c == '\u{202f}'
    ||| c == '\u{205f}'
    ||| c == '\u{3000}'
}

/// The text without white space in front.
pub open spec fn trimmed_start(s: Seq<char>) -> Seq<char>
    decreases s.len(),
{
    if s.len() > 0 && is_space(s[0]) {
        trimmed_start(s.skip(1))
    } else {
        s
    }
}

/// The text without white space behind.
pub open spec fn trimmed_end(s: Seq<char>) -> Seq<char>
    decreases s.len(),
{
    if s.len() > 0 && is_space(s.last()) {
        trimmed_end(s.drop_last())
    } else {
        s
    }
}

/// The text without white space around it.
pub open spec fn trimmed(s: Seq<char>) -> Seq<char> {
    trimmed_end(trimmed_start(s))
}

/// The text with every carriage return that a line feed follows taken out.
pub open spec fn normalised(s: Seq<char>) -> Seq<char>
    decreases s.len(),
{
    if s.len() == 0 {
        s
    } else if s.len() > 1 && s[0] == '\r' && s[1] == '\n' {
        seq!['\n'] + normalised(s.skip(2))
    } else {
        seq![s[0]] + normalised(s.skip(1))
    }
}

/// Where the first line ends.
pub open spec fn line_end(s: Seq<char>) -> nat
    decreases s.len(),
{
    if s.len() == 0 || s[0] == '\n' {
        0
    } else {
        1 + line_end(s.skip(1))
    }
}

/// A line without the carriage return at its end.
pub open spec fn without_return(s: Seq<char>) -> Seq<char> {
    if s.len() > 0 && s.last() == '\r' {
        s.drop_last()
    } else {
        s
    }
}

/// The lines of a text. A line feed ends a line, and a carriage return in front
/// of it belongs to it; the last line needs none.
pub open spec fn lines_of(s: Seq<char>) -> Seq<Seq<char>>
    decreases s.len(),
{
    let end = line_end(s);
    if s.len() == 0 {
        Seq::empty()
    } else if end < s.len() {
        seq![without_return(s.take(end as int))] + lines_of(s.skip(end as int + 1))
    } else {
        seq![s]
    }
}

/// Where `c` first stands; the length of the text where it does not.
pub open spec fn first_of(s: Seq<char>, c: char) -> nat
    decreases s.len(),
{
    if s.len() == 0 || s[0] == c {
        0
    } else {
        1 + first_of(s.skip(1), c)
    }
}

/// A letter of ASCII in lower case, anything else as it is.
pub open spec fn lowered(c: char) -> char {
    if 'A' <= c <= 'Z' {
        ((c as u8) + 32) as char
    } else {
        c
    }
}

/// The text with the letters of ASCII in lower case.
pub open spec fn lower_text(s: Seq<char>) -> Seq<char> {
    Seq::new(s.len(), |i: int| lowered(s[i]))
}

/// Whether a character is white space.
pub fn space(c: char) -> (r: bool)
    ensures
        r == is_space(c),
{
    ('\u{9}' <= c && c <= '\u{d}') || c == ' ' || c == '\u{85}' || c == '\u{a0}' || c
        == '\u{1680}' || ('\u{2000}' <= c && c <= '\u{200a}') || c == '\u{2028}' || c
        == '\u{2029}' || c == '\u{202f}' || c == '\u{205f}' || c == '\u{3000}'
}

/// The characters of a string.
pub fn to_chars(s: &str) -> (r: Vec<char>)
    ensures
        r@ == s@,
{
    let mut out: Vec<char> = Vec::new();
    for c in it: s.chars()
        invariant
            it.seq() == s@,
            out@ == s@.take(it.index()),
    {
        proof {
            let n = it.index();
            assert(s@.take(n + 1) =~= s@.take(n).push(c));
        }
        out.push(c);
    }
    assert(s@.take(s@.len() as int) =~= s@);
    out
}

/// A string of these characters.
pub fn to_text(s: &[char]) -> (r: String)
    ensures
        r@ == s@,
{
    let mut out = String::new();
    let mut i: usize = 0;
    assert(out@ =~= s@.take(0));
    while i < s.len()
        invariant
            i <= s@.len(),
            out@ == s@.take(i as int),
        decreases s@.len() - i,
    {
        assert(s@.take(i + 1) =~= s@.take(i as int).push(s@[i as int]));
        out.push(s[i]);
        i = i + 1;
    }
    assert(s@.take(i as int) =~= s@);
    out
}

/// The text without white space around it.
pub fn trim(s: &[char]) -> (r: &[char])
    ensures
        r@ == trimmed(s@),
{
    let mut lo: usize = 0;
    assert(s@.skip(0) =~= s@);
    while lo < s.len() && space(s[lo])
        invariant
            lo <= s@.len(),
            trimmed_start(s@.skip(lo as int)) == trimmed_start(s@),
        decreases s@.len() - lo,
    {
        assert(s@.skip(lo as int).skip(1) =~= s@.skip(lo + 1));
        lo = lo + 1;
    }
    let ghost front = s@.skip(lo as int);
    assert(trimmed_start(s@) == front);
    let mut hi: usize = s.len();
    assert(front.take(front.len() as int) =~= front);
    while hi > lo && space(s[hi - 1])
        invariant
            lo <= hi <= s@.len(),
            front == s@.skip(lo as int),
            trimmed_end(front.take(hi - lo)) == trimmed_end(front),
        decreases hi,
    {
        let ghost now = front.take(hi - lo);
        assert(now.last() == s@[hi - 1]);
        assert(now.drop_last() =~= front.take(hi - lo - 1));
        hi = hi - 1;
    }
    let ghost rest = front.take(hi - lo);
    proof {
        if hi > lo {
            assert(rest.last() == s@[hi - 1]);
        }
        assert(trimmed_end(rest) == rest);
    }
    let r = slice_subrange(s, lo, hi);
    assert(r@ =~= rest);
    r
}

/// The text with every carriage return that a line feed follows taken out.
pub fn normalise(s: &[char]) -> (r: Vec<char>)
    ensures
        r@ == normalised(s@),
{
    let mut out: Vec<char> = Vec::new();
    let mut i: usize = 0;
    assert(s@.skip(0) =~= s@);
    assert(out@ + normalised(s@) =~= normalised(s@));
    while i < s.len()
        invariant
            i <= s@.len(),
            out@ + normalised(s@.skip(i as int)) == normalised(s@),
        decreases s@.len() - i,
    {
        let ghost rest = s@.skip(i as int);
        let ghost before = out@;
        if s[i] == '\r' && i < s.len() - 1 && s[i + 1] == '\n' {
            out.push('\n');
            assert(rest.skip(2) =~= s@.skip(i + 2));
            assert(out@ + normalised(s@.skip(i + 2)) =~= before + normalised(rest));
            i = i + 2;
        } else {
            out.push(s[i]);
            assert(rest.skip(1) =~= s@.skip(i + 1));
            assert(out@ + normalised(s@.skip(i + 1)) =~= before + normalised(rest));
            i = i + 1;
        }
    }
    assert(normalised(s@.skip(i as int)) =~= Seq::<char>::empty());
    assert(out@ =~= normalised(s@));
    out
}

pub proof fn lemma_first_of(s: Seq<char>, c: char, i: int)
    requires
        0 <= i <= s.len(),
        forall|j: int| 0 <= j < i ==> (#[trigger] s[j]) != c,
        i == s.len() || s[i] == c,
    ensures
        first_of(s, c) == i,
    decreases i,
{
    if i > 0 {
        assert(s[0] != c);
        let t = s.skip(1);
        assert forall|j: int| 0 <= j < i - 1 implies (#[trigger] t[j]) != c by {
            assert(t[j] == s[j + 1]);
        }
        lemma_first_of(t, c, i - 1);
    }
}

/// Where a line ends is where the first line feed stands.
pub proof fn lemma_line_end(s: Seq<char>)
    ensures
        line_end(s) == first_of(s, '\n'),
        line_end(s) <= s.len(),
    decreases s.len(),
{
    if s.len() > 0 {
        lemma_line_end(s.skip(1));
    }
}

/// Where `c` first stands; the length of the text where it does not.
pub fn find_char(s: &[char], c: char) -> (r: usize)
    ensures
        r == first_of(s@, c),
        r <= s@.len(),
{
    let mut i: usize = 0;
    while i < s.len() && s[i] != c
        invariant
            i <= s@.len(),
            forall|j: int| 0 <= j < i ==> (#[trigger] s@[j]) != c,
        decreases s@.len() - i,
    {
        i = i + 1;
    }
    proof {
        lemma_first_of(s@, c, i as int);
    }
    i
}

/// The first line of a text and what follows it.
pub fn take_line(s: &[char]) -> (r: (&[char], &[char]))
    requires
        s@.len() > 0,
    ensures
        lines_of(s@) == seq![r.0@] + lines_of(r.1@),
        r.1@.len() < s@.len(),
{
    proof {
        lemma_line_end(s@);
    }
    let end: usize = find_char(s, '\n');
    if end < s.len() {
        let whole = slice_subrange(s, 0, end);
        let rest = slice_subrange(s, end + 1, s.len());
        assert(whole@ =~= s@.take(end as int));
        assert(rest@ =~= s@.skip(end + 1));
        if end > 0 && whole[end - 1] == '\r' {
            let line = slice_subrange(s, 0, end - 1);
            assert(line@ =~= without_return(whole@));
            (line, rest)
        } else {
            (whole, rest)
        }
    } else {
        let rest = slice_subrange(s, s.len(), s.len());
        assert(rest@ =~= Seq::<char>::empty());
        assert(seq![s@] + lines_of(rest@) =~= lines_of(s@));
        (s, rest)
    }
}

/// Whether a text in lower case is `want`.
pub fn lower_is(s: &[char], want: &str) -> (r: bool)
    ensures
        r == (lower_text(s@) == want@),
{
    let w = to_chars(want);
    if s.len() != w.len() {
        assert(lower_text(s@).len() != want@.len());
        return false;
    }
    let mut i: usize = 0;
    while i < s.len()
        invariant
            i <= s@.len(),
            s@.len() == w@.len(),
            w@ == want@,
            forall|j: int| 0 <= j < i ==> lowered(#[trigger] s@[j]) == want@[j],
        decreases s@.len() - i,
    {
        let c: char = s[i];
        let low: char = if 'A' <= c && c <= 'Z' {
            (c as u8 + 32) as char
        } else {
            c
        };
        if low != w[i] {
            assert(lower_text(s@)[i as int] != want@[i as int]);
            return false;
        }
        i = i + 1;
    }
    assert(lower_text(s@) =~= want@);
    true
}

/// Whether a text begins with `want`.
pub fn starts_with(s: &[char], want: &str) -> (r: bool)
    ensures
        r == (want@.len() <= s@.len() && s@.take(want@.len() as int) == want@),
{
    let w = to_chars(want);
    if w.len() > s.len() {
        return false;
    }
    let mut i: usize = 0;
    while i < w.len()
        invariant
            i <= w@.len() <= s@.len(),
            w@ == want@,
            forall|j: int| 0 <= j < i ==> #[trigger] s@[j] == want@[j],
        decreases w@.len() - i,
    {
        if s[i] != w[i] {
            assert(s@.take(want@.len() as int)[i as int] != want@[i as int]);
            return false;
        }
        i = i + 1;
    }
    assert(s@.take(want@.len() as int) =~= want@);
    true
}

/// A line feed is found at the end of a line that holds none.
pub proof fn lemma_normalised_line(line: Seq<char>, rest: Seq<char>)
    requires
        !line.contains('\n'),
        line.len() > 0 ==> line.last() != '\r',
    ensures
        normalised(line + seq!['\r', '\n'] + rest) == line + seq!['\n'] + normalised(rest),
    decreases line.len(),
{
    let all = line + seq!['\r', '\n'] + rest;
    if line.len() == 0 {
        assert(all.skip(2) =~= rest);
        assert(line + seq!['\n'] + normalised(rest) =~= seq!['\n'] + normalised(rest));
    } else {
        let tail = line.skip(1);
        assert(all.skip(1) =~= tail + seq!['\r', '\n'] + rest);
        assert(line.contains(line[0]));
        assert forall|i: int| 0 <= i < tail.len() implies (#[trigger] tail[i]) != '\n' by {
            assert(line.contains(line[i + 1]));
        }
        if tail.len() > 0 {
            assert(tail.last() == line.last());
            assert(all[1] == line[1]);
            assert(line.contains(line[1]));
        }
        lemma_normalised_line(tail, rest);
        assert(normalised(all) == seq![line[0]] + normalised(all.skip(1)));
        assert(seq![line[0]] + (tail + seq!['\n'] + normalised(rest)) =~= line + seq!['\n']
            + normalised(rest));
    }
}

/// A line that ends in a bare line feed stays as it is.
proof fn lemma_bare_line(line: Seq<char>, rest: Seq<char>)
    requires
        !line.contains('\n'),
        line.len() > 0 ==> line.last() != '\r',
    ensures
        normalised(line + seq!['\n'] + rest) == line + seq!['\n'] + normalised(rest),
    decreases line.len(),
{
    let all = line + seq!['\n'] + rest;
    if line.len() == 0 {
        assert(all.skip(1) =~= rest);
        assert(line + seq!['\n'] + normalised(rest) =~= seq!['\n'] + normalised(rest));
    } else {
        let tail = line.skip(1);
        assert(all.skip(1) =~= tail + seq!['\n'] + rest);
        assert forall|i: int| 0 <= i < tail.len() implies (#[trigger] tail[i]) != '\n' by {
            assert(line.contains(line[i + 1]));
        }
        if tail.len() > 0 {
            assert(tail.last() == line.last());
            assert(all[1] == line[1]);
            assert(line.contains(line[1]));
        }
        lemma_bare_line(tail, rest);
        assert(normalised(all) == seq![line[0]] + normalised(all.skip(1)));
        assert(seq![line[0]] + (tail + seq!['\n'] + normalised(rest)) =~= line + seq!['\n']
            + normalised(rest));
    }
}

/// Once the carriage returns in front of line feeds are taken out, there are none
/// left.
pub open spec fn settled(s: Seq<char>) -> bool {
    normalised(normalised(s)) == normalised(s)
}

/// A line in front changes nothing about that.
pub proof fn lemma_settled_line(line: Seq<char>, rest: Seq<char>)
    requires
        !line.contains('\n'),
        line.len() > 0 ==> line.last() != '\r',
        settled(rest),
    ensures
        settled(line + seq!['\r', '\n'] + rest),
{
    lemma_normalised_line(line, rest);
    lemma_bare_line(line, normalised(rest));
}

/// A line that holds no line feed is the first line of a text that begins with
/// it and a line feed.
pub proof fn lemma_lines_of_line(line: Seq<char>, rest: Seq<char>)
    requires
        !line.contains('\n'),
        line.len() > 0 ==> line.last() != '\r',
    ensures
        lines_of(line + seq!['\n'] + rest) == seq![line] + lines_of(rest),
{
    let all = line + seq!['\n'] + rest;
    lemma_line_end(all);
    assert forall|j: int| 0 <= j < line.len() implies (#[trigger] all[j]) != '\n' by {
        assert(all[j] == line[j]);
        assert(line.contains(line[j]));
    }
    lemma_first_of(all, '\n', line.len() as int);
    assert(all.take(line.len() as int) =~= line);
    assert(all.skip(line.len() as int + 1) =~= rest);
}

/// Text that begins and ends with something else than white space keeps all of
/// it.
pub proof fn lemma_trimmed_same(s: Seq<char>)
    requires
        s.len() > 0 ==> !is_space(s[0]) && !is_space(s.last()),
    ensures
        trimmed(s) == s,
{
}

/// A blank in front goes.
pub proof fn lemma_trimmed_blank(s: Seq<char>)
    ensures
        trimmed(seq![' '] + s) == trimmed(s),
{
    assert((seq![' '] + s).skip(1) =~= s);
}

} // verus!
