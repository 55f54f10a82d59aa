//! Counters in the Prometheus text format.
use crate::session::disk::DiskMetrics;
use crate::text::{number_text, push_number};
use vstd::prelude::*;

verus! {

/// A character as it stands inside a label: a backslash, a quote and a line feed
/// are escaped.
pub open spec fn escaped_char(c: char) -> Seq<char> {
    if c == '\\' {
        seq!['\\', '\\']
    } else if c == '"' {
        seq!['\\', '"']
    } else if c == '\n' {
        seq!['\\', 'n']
    } else {
        seq![c]
    }
}

/// A text as it stands inside a label.
pub open spec fn escaped(s: Seq<char>) -> Seq<char>
    decreases s.len(),
{
    if s.len() == 0 {
        s
    } else {
        escaped(s.drop_last()) + escaped_char(s.last())
    }
}

/// A text as it stands inside a label.
pub fn escape_label(s: &str) -> (r: String)
    ensures
        r@ == escaped(s@),
{
    let mut out = String::new();
    assert(s@.take(0) =~= Seq::<char>::empty());
    assert(out@ =~= Seq::<char>::empty());
    for c in it: s.chars()
        invariant
            it.seq() == s@,
            out@ == escaped(s@.take(it.index())),
    {
        let ghost before = out@;
        proof {
            let n = it.index();
            assert(s@.take(n + 1).drop_last() =~= s@.take(n));
            assert(s@.take(n + 1).last() == c);
        }
        if c == '\\' {
            out.push('\\');
            out.push('\\');
        } else if c == '"' {
            out.push('\\');
            out.push('"');
        } else if c == '\n' {
            out.push('\\');
            out.push('n');
        } else {
            out.push(c);
        }
        assert(out@ =~= before + escaped_char(c));
    }
    assert(s@.take(s@.len() as int) =~= s@);
    out
}

/// One counter: what it is, that it is a counter, and its value.
pub open spec fn counter_text(
    name: Seq<char>,
    help: Seq<char>,
    label: Seq<char>,
    value: u64,
) -> Seq<char> {
    "# HELP "@ + name + " "@ + help + "\n# TYPE "@ + name + " counter\n"@ + name + "{torrent=\""@
        + escaped(label) + "\"} "@ + number_text(value as nat) + "\n"@
}

/// Appends one counter.
fn push_counter(out: &mut String, name: &str, help: &str, label: &str, value: u64)
    ensures
        final(out)@ == old(out)@ + counter_text(name@, help@, label@, value),
{
    out.push_str("# HELP ");
    out.push_str(name);
    out.push_str(" ");
    out.push_str(help);
    out.push_str("\n# TYPE ");
    out.push_str(name);
    out.push_str(" counter\n");
    out.push_str(name);
    out.push_str("{torrent=\"");
    out.push_str(escape_label(label).as_str());
    out.push_str("\"} ");
    push_number(out, value);
    out.push_str("\n");
    assert(out@ =~= old(out)@ + counter_text(name@, help@, label@, value));
}

/// The counters of a torrent's disk work.
pub open spec fn disk_text(label: Seq<char>, m: DiskMetrics) -> Seq<char> {
    counter_text(
        "magpie_disk_pieces_written"@,
        "Total pieces verified and persisted to storage."@,
        label,
        m.pieces_written,
    ) + counter_text(
        "magpie_disk_bytes_written"@,
        "Total bytes written to storage across all verified pieces."@,
        label,
        m.bytes_written,
    ) + counter_text(
        "magpie_disk_piece_verify_fail"@,
        "Pieces whose hash did not match after disk write."@,
        label,
        m.piece_verify_fail,
    ) + counter_text(
        "magpie_disk_io_failures"@,
        "Disk I/O errors observed (read or write)."@,
        label,
        m.io_failures,
    )
}

/// The counters of a torrent's disk work, under a label that names the torrent.
pub fn render_disk_metrics(torrent_label: &str, m: &DiskMetrics) -> (r: String)
    ensures
        r@ == disk_text(torrent_label@, *m),
{
    let mut out = String::new();
    push_counter(
        &mut out,
        "magpie_disk_pieces_written",
        "Total pieces verified and persisted to storage.",
        torrent_label,
        m.pieces_written,
    );
    push_counter(
        &mut out,
        "magpie_disk_bytes_written",
        "Total bytes written to storage across all verified pieces.",
        torrent_label,
        m.bytes_written,
    );
    push_counter(
        &mut out,
        "magpie_disk_piece_verify_fail",
        "Pieces whose hash did not match after disk write.",
        torrent_label,
        m.piece_verify_fail,
    );
    push_counter(
        &mut out,
        "magpie_disk_io_failures",
        "Disk I/O errors observed (read or write).",
        torrent_label,
        m.io_failures,
    );
    assert(out@ =~= disk_text(torrent_label@, *m));
    out
}

/// An escaped label holds no line feed, so that it stays on its line.
pub proof fn law_label_stays_on_its_line(s: Seq<char>)
    ensures
        !escaped(s).contains('\n'),
    decreases s.len(),
{
    if s.len() > 0 {
        law_label_stays_on_its_line(s.drop_last());
        let front = escaped(s.drop_last());
        let last = escaped_char(s.last());
        assert forall|i: int| 0 <= i < escaped(s).len() implies (#[trigger] escaped(s)[i])
            != '\n' by {
            if i < front.len() {
                assert(front.contains(front[i]));
            } else {
                assert(escaped(s)[i] == last[i - front.len()]);
            }
        }
    }
}

/// Reads an escaped text back.
pub open spec fn unescaped(s: Seq<char>) -> Seq<char>
    decreases s.len(),
{
    if s.len() == 0 {
        s
    } else if s[0] == '\\' && s.len() > 1 {
        seq![if s[1] == 'n' {
            '\n'
        } else {
            s[1]
        }] + unescaped(s.skip(2))
    } else {
        seq![s[0]] + unescaped(s.skip(1))
    }
}

/// No two labels look the same once escaped.
pub proof fn law_escape_is_one_to_one(a: Seq<char>, b: Seq<char>)
    requires
        escaped(a) == escaped(b),
    ensures
        a == b,
{
    lemma_unescape(a, Seq::empty());
    lemma_unescape(b, Seq::empty());
    assert(escaped(a) + Seq::<char>::empty() =~= escaped(a));
    assert(escaped(b) + Seq::<char>::empty() =~= escaped(b));
    assert(a + unescaped(Seq::<char>::empty()) =~= a);
    assert(b + unescaped(Seq::<char>::empty()) =~= b);
}

proof fn lemma_unescape(s: Seq<char>, rest: Seq<char>)
    ensures
        unescaped(escaped(s) + rest) == s + unescaped(rest),
    decreases s.len(),
{
    if s.len() == 0 {
        assert(escaped(s) + rest =~= rest);
        assert(s + unescaped(rest) =~= unescaped(rest));
    } else {
        let front = s.drop_last();
        let tail = escaped_char(s.last()) + rest;
        assert(escaped(s) + rest =~= escaped(front) + tail);
        lemma_unescape(front, tail);
        if escaped_char(s.last()).len() == 2 {
            assert(tail.skip(2) =~= rest);
        } else {
            assert(tail.skip(1) =~= rest);
        }
        assert(unescaped(tail) =~= seq![s.last()] + unescaped(rest));
        assert(front + (seq![s.last()] + unescaped(rest)) =~= s + unescaped(rest));
    }
}

/// Reading an escaped label back gives the label.
pub proof fn law_escaped_label_is_read_back(s: Seq<char>)
    ensures
        unescaped(escaped(s)) == s,
{
    lemma_unescape(s, Seq::empty());
    assert(escaped(s) + Seq::<char>::empty() =~= escaped(s));
    assert(s + unescaped(Seq::<char>::empty()) =~= s);
}

/// The line that says that the counter `name` of the torrent is `value`.
pub open spec fn sample(name: Seq<char>, label: Seq<char>, value: u64) -> Seq<char> {
    name + "{torrent=\""@ + escaped(label) + "\"} "@ + number_text(value as nat) + "\n"@
}

/// The line stands in the text.
pub open spec fn has_line(text: Seq<char>, line: Seq<char>) -> bool {
    exists|i: int|
        0 <= i && i + line.len() <= text.len() && #[trigger] text.subrange(i, i + line.len())
            == line && (i == 0 || text[i - 1] == '\n')
}

proof fn lemma_counter_line(
    before: Seq<char>,
    name: Seq<char>,
    help: Seq<char>,
    label: Seq<char>,
    value: u64,
    after: Seq<char>,
)
    ensures
        has_line(
            before + counter_text(name, help, label, value) + after,
            sample(name, label, value),
        ),
{
    let line = sample(name, label, value);
    let head = "# HELP "@ + name + " "@ + help + "\n# TYPE "@ + name + " counter\n"@;
    let text = before + counter_text(name, help, label, value) + after;
    reveal_strlit(" counter\n");
    assert(counter_text(name, help, label, value) =~= head + line);
    let i = (before + head).len() as int;
    assert(text.subrange(i, i + line.len()) =~= line);
    assert(head.last() == '\n');
    assert(text[i - 1] == head.last());
}

/// Each of the four counters stands on a line of its own, under its name and with
/// its own value.
pub proof fn law_every_counter_has_its_line(label: Seq<char>, m: DiskMetrics)
    ensures
        has_line(
            disk_text(label, m),
            sample("magpie_disk_pieces_written"@, label, m.pieces_written),
        ),
        has_line(
            disk_text(label, m),
            sample("magpie_disk_bytes_written"@, label, m.bytes_written),
        ),
        has_line(
            disk_text(label, m),
            sample("magpie_disk_piece_verify_fail"@, label, m.piece_verify_fail),
        ),
        has_line(
            disk_text(label, m),
            sample("magpie_disk_io_failures"@, label, m.io_failures),
        ),
{
    let none = Seq::<char>::empty();
    let a = counter_text(
        "magpie_disk_pieces_written"@,
        "Total pieces verified and persisted to storage."@,
        label,
        m.pieces_written,
    );
    let b = counter_text(
        "magpie_disk_bytes_written"@,
        "Total bytes written to storage across all verified pieces."@,
        label,
        m.bytes_written,
    );
    let c = counter_text(
        "magpie_disk_piece_verify_fail"@,
        "Pieces whose hash did not match after disk write."@,
        label,
        m.piece_verify_fail,
    );
    let d = counter_text(
        "magpie_disk_io_failures"@,
        "Disk I/O errors observed (read or write)."@,
        label,
        m.io_failures,
    );
    let all = disk_text(label, m);
    assert(all =~= none + a + (b + c + d));
    assert(all =~= a + b + (c + d));
    assert(all =~= (a + b) + c + d);
    assert(all =~= (a + b + c) + d + none);
    lemma_counter_line(
        none,
        "magpie_disk_pieces_written"@,
        "Total pieces verified and persisted to storage."@,
        label,
        m.pieces_written,
        b + c + d,
    );
    lemma_counter_line(
        a,
        "magpie_disk_bytes_written"@,
        "Total bytes written to storage across all verified pieces."@,
        label,
        m.bytes_written,
        c + d,
    );
    lemma_counter_line(
        a + b,
        "magpie_disk_piece_verify_fail"@,
        "Pieces whose hash did not match after disk write."@,
        label,
        m.piece_verify_fail,
        d,
    );
    lemma_counter_line(
        a + b + c,
        "magpie_disk_io_failures"@,
        "Disk I/O errors observed (read or write)."@,
        label,
        m.io_failures,
        none,
    );
}

} // verus!
