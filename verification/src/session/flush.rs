//! Writing out what is pending, and stopping when the time is over.
//!
//! Times are nanoseconds on one monotonic clock.
use crate::bencode::fields::{ascii, codes};
use crate::lex::append_bytes;
use crate::text::{hex_encode, hex_text};
use vstd::prelude::*;
use vstd::slice::slice_to_vec;
use vstd::utf8::is_ascii_chars;

verus! {

/// The writing of one file: first to a temporary path, which then takes the
/// file's place.
#[derive(Debug)]
pub struct SidecarWrite {
    /// The file.
    pub path: Vec<u8>,
    /// The temporary path.
    pub tmp: Vec<u8>,
    /// What to write.
    pub payload: Vec<u8>,
}

/// Writes that are due, in order, and until when.
#[derive(Debug)]
pub struct Flush {
    writes: Vec<SidecarWrite>,
    taken: usize,
    deadline: Option<u64>,
}

impl Flush {
    /// The writes.
    pub closed spec fn all(&self) -> Seq<SidecarWrite> {
        self.writes@
    }

    /// How many of them were handed out.
    pub closed spec fn handed(&self) -> int {
        self.taken as int
    }

    /// Until when they may be begun.
    pub closed spec fn until(&self) -> Option<u64> {
        self.deadline
    }

    /// No more was handed out than there is.
    pub open spec fn wf(&self) -> bool {
        0 <= self.handed() <= self.all().len()
    }

    /// Writes to begin by `deadline`, or at any time.
    pub fn new(writes: Vec<SidecarWrite>, deadline: Option<u64>) -> (r: Flush)
        ensures
            r.wf(),
            r.all() == writes@,
            r.handed() == 0,
            r.until() == deadline,
    {
        Flush { writes, taken: 0, deadline }
    }

    /// The next write, unless there is none left or `now` is past the deadline;
    /// what is left then is dropped.
    pub fn next(&mut self, now: u64) -> (r: Option<&SidecarWrite>)
        requires
            old(self).wf(),
        ensures
            final(self).wf(),
            final(self).until() == old(self).until(),
            final(self).all() == old(self).all(),
            ({
                let late = old(self).until() matches Some(limit) && now > limit;
                if late || old(self).handed() == old(self).all().len() {
                    r is None && final(self).handed() == old(self).all().len()
                } else {
                    &&& r == Some(&old(self).all()[old(self).handed()])
                    &&& final(self).handed() == old(self).handed() + 1
                }
            }),
    {
        if let Some(limit) = self.deadline {
            if now > limit {
                self.taken = self.writes.len();
                return None;
            }
        }
        if self.taken < self.writes.len() {
            let i: usize = self.taken;
            self.taken = i + 1;
            Some(&self.writes[i])
        } else {
            None
        }
    }
}

/// A name inside a directory.
pub open spec fn joined(dir: Seq<u8>, name: Seq<u8>) -> Seq<u8> {
    if dir.len() == 0 || dir.last() == 47 {
        dir + name
    } else {
        dir + seq![47u8] + name
    }
}

/// A name inside a directory.
pub fn join_name(dir: &[u8], name: &[u8]) -> (r: Vec<u8>)
    ensures
        r@ == joined(dir@, name@),
{
    let mut out: Vec<u8> = slice_to_vec(dir);
    if dir.len() > 0 && dir[dir.len() - 1] != 47 {
        out.push(47);
    }
    append_bytes(&mut out, name);
    assert(out@ =~= joined(dir@, name@));
    out
}

/// The name of a torrent's sidecar: its hash in hexadecimal digits, then
/// `tail`.
pub open spec fn sidecar_name(info_hash: Seq<u8>, tail: Seq<char>) -> Seq<u8> {
    codes(hex_text(info_hash) + tail)
}

/// The name of a torrent's sidecar.
pub fn name_sidecar(info_hash: &[u8; 20], tail: &str) -> (r: Vec<u8>)
    requires
        is_ascii_chars(tail@),
    ensures
        r@ == sidecar_name(info_hash@, tail@),
{
    let mut name = hex_encode(info_hash.as_slice());
    name.push_str(tail);
    proof {
        let hex = hex_text(info_hash@);
        assert forall|i: int| 0 <= i < name@.len() implies '\0' <= #[trigger] name@[i]
            <= '\u{7f}' by {
            if i < hex.len() {
                assert(name@[i] == hex[i]);
            } else {
                assert(name@[i] == tail@[i - hex.len()]);
            }
        }
    }
    slice_to_vec(ascii(name.as_str()))
}

/// The path of a temporary file beside `path`.
pub open spec fn tmp_path(path: Seq<u8>) -> Seq<u8> {
    path + codes(".tmp"@)
}

/// The writing of a torrent's sidecar in a directory.
pub fn sidecar_write(dir: &[u8], info_hash: &[u8; 20], tail: &str, payload: Vec<u8>) -> (r:
    SidecarWrite)
    requires
        is_ascii_chars(tail@),
    ensures
        r.path@ == joined(dir@, sidecar_name(info_hash@, tail@)),
        r.tmp@ == tmp_path(r.path@),
        r.payload@ == payload@,
{
    let path = join_name(dir, name_sidecar(info_hash, tail).as_slice());
    let mut tmp: Vec<u8> = slice_to_vec(path.as_slice());
    proof {
        reveal_strlit(".tmp");
    }
    append_bytes(&mut tmp, ascii(".tmp"));
    SidecarWrite { path, tmp, payload }
}

/// A path in a directory is the directory, a slash where it does not end in one,
/// and the name. Without a directory it is the name.
pub proof fn law_path_is_directory_and_name(dir: Seq<u8>, name: Seq<u8>)
    ensures
        ({
            let path = joined(dir, name);
            let slash = if dir.len() > 0 && dir.last() != 47 {
                1int
            } else {
                0
            };
            &&& path.len() == dir.len() + slash + name.len()
            &&& forall|i: int| 0 <= i < dir.len() ==> #[trigger] path[i] == dir[i]
            &&& slash == 1 ==> path[dir.len() as int] == 47
            &&& forall|i: int|
                0 <= i < name.len() ==> #[trigger] path[dir.len() + slash + i] == name[i]
        }),
{
}

/// A sidecar is named by the hash in hexadecimal and its ending, so that two
/// torrents never share one; and it is written under another name first.
pub proof fn law_sidecars_have_their_own_names(a: Seq<u8>, b: Seq<u8>, tail: Seq<char>)
    requires
        a.len() == b.len(),
        sidecar_name(a, tail) == sidecar_name(b, tail),
        is_ascii_chars(tail),
    ensures
        a == b,
        tmp_path(a).len() == a.len() + 4,
        tmp_path(a).take(a.len() as int) == a,
        tmp_path(a) != a,
{
    let x = hex_text(a);
    let y = hex_text(b);
    reveal_strlit(".tmp");
    assert(codes(".tmp"@).len() == 4);
    assert(tmp_path(a).take(a.len() as int) =~= a);
    assert forall|i: int| 0 <= i < x.len() implies x[i] == y[i] by {
        assert(codes(x + tail)[i] == codes(y + tail)[i]);
        assert((x + tail)[i] == x[i] && (y + tail)[i] == y[i]);
        crate::text::lemma_hex_ascii(a, i);
        crate::text::lemma_hex_ascii(b, i);
    }
    assert(x =~= y);
    crate::text::law_hex_injective(a, b);
}

/// Sidecars of different torrents in one directory stand at different places.
pub proof fn lemma_sidecars_apart(dir: Seq<u8>, a: Seq<u8>, b: Seq<u8>, tail: Seq<char>)
    requires
        a.len() == b.len(),
        a != b,
        is_ascii_chars(tail),
    ensures
        joined(dir, sidecar_name(a, tail)) != joined(dir, sidecar_name(b, tail)),
{
    let x = sidecar_name(a, tail);
    let y = sidecar_name(b, tail);
    if joined(dir, x) == joined(dir, y) {
        let n = (joined(dir, x).len() - x.len()) as int;
        assert(x.len() == y.len());
        assert(joined(dir, x).skip(n) =~= x);
        assert(joined(dir, y).skip(n) =~= y);
        law_sidecars_have_their_own_names(a, b, tail);
    }
}

} // verus!
