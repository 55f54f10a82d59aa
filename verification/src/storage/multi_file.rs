//! The layout of a torrent over a directory of files: which paths are
//! acceptable, and which part of which file a range of the torrent falls on.
use crate::session::info::{FileListV1, FileV1, Info};
use crate::storage::error::{bounds_check, StorageError};
use crate::storage::traits::spliced;
use crate::text::{number_text, push_number, text};
use vstd::prelude::*;
use vstd::utf8::{decode_utf8, encode_utf8, valid_utf8};

verus! {

/// Most files in one layout.
pub const MAX_ENTRIES: usize = 100_000;

/// Longest path component, in bytes.
pub const MAX_PATH_COMPONENT_LEN: usize = 255;

/// A file as the torrent declares it.
#[derive(Debug)]
pub struct FileSpec {
    /// The components of its path.
    pub path: Vec<String>,
    /// Its length.
    pub length: u64,
}

/// A file of a layout.
#[derive(Debug)]
pub struct FileEntry {
    /// The components of its path below the root.
    pub path: Vec<String>,
    /// Where it starts in the torrent.
    pub torrent_offset: u64,
    /// Its length.
    pub length: u64,
}

/// The text of each component.
pub open spec fn texts(path: Seq<String>) -> Seq<Seq<char>> {
    Seq::new(path.len(), |i: int| path[i]@)
}

/// How a string is shown between quotes, with escapes where needed.
pub uninterp spec fn quoted_text(s: Seq<char>) -> Seq<char>;

/// `format!("{:?}", s)` of a string shows it between quotes, with the escapes
/// that the standard library chooses. The text depends on the string alone.
#[verifier::external_body]
fn quoted(s: &String) -> (r: String)
    ensures
        r@ == quoted_text(s@),
{
    format!("{:?}", s)
}

/// What is wrong with component `i`, if anything is.
pub open spec fn component_fault(i: int, comp: Seq<char>) -> Option<Seq<char>> {
    let head = "component "@ + number_text(i as nat);
    if comp.len() == 0 {
        Some(head + " is empty"@)
    } else if encode_utf8(comp).len() > MAX_PATH_COMPONENT_LEN {
        Some(
            head + " is "@ + number_text(encode_utf8(comp).len()) + " bytes (max "@ + number_text(
                MAX_PATH_COMPONENT_LEN as nat,
            ) + ")"@,
        )
    } else if comp == seq!['.'] || comp == seq!['.', '.'] {
        Some(head + " is "@ + quoted_text(comp) + " (reserved)"@)
    } else if comp.contains('/') || comp.contains('\\') {
        Some(head + " "@ + quoted_text(comp) + " contains a path separator"@)
    } else if comp.contains('\0') {
        Some(head + " contains an interior NUL byte"@)
    } else {
        None
    }
}

/// What is wrong with the first of the components from `i` on that something is
/// wrong with.
pub open spec fn components_fault(path: Seq<Seq<char>>, i: int) -> Option<Seq<char>>
    decreases path.len() - i,
{
    if i < 0 || i >= path.len() {
        None
    } else if component_fault(i, path[i]) is Some {
        component_fault(i, path[i])
    } else {
        components_fault(path, i + 1)
    }
}

/// What is wrong with a path, if anything is.
pub open spec fn path_fault(path: Seq<Seq<char>>) -> Option<Seq<char>> {
    if path.len() == 0 {
        Some("path has no components"@)
    } else {
        components_fault(path, 0)
    }
}

/// The components with slashes between them.
pub open spec fn joined_path(path: Seq<Seq<char>>) -> Seq<char>
    decreases path.len(),
{
    if path.len() == 0 {
        Seq::empty()
    } else if path.len() == 1 {
        path[0]
    } else {
        joined_path(path.drop_last()) + "/"@ + path.last()
    }
}

/// A file of a layout, by value.
#[verifier::ext_equal]
pub struct EntryModel {
    /// The components of its path below the root.
    pub path: Seq<Seq<char>>,
    /// Where it starts in the torrent.
    pub torrent_offset: u64,
    /// Its length.
    pub length: u64,
}

impl View for FileEntry {
    type V = EntryModel;

    open spec fn view(&self) -> EntryModel {
        EntryModel {
            path: texts(self.path@),
            torrent_offset: self.torrent_offset,
            length: self.length,
        }
    }
}

/// The files of a layout, by value.
pub open spec fn entries_view(entries: Seq<FileEntry>) -> Seq<EntryModel> {
    Seq::new(entries.len(), |i: int| entries[i]@)
}

/// The first file with this path.
pub open spec fn same_path(entries: Seq<EntryModel>, path: Seq<Seq<char>>) -> Option<int>
    decreases entries.len(),
{
    if entries.len() == 0 {
        None
    } else {
        match same_path(entries.drop_last(), path) {
            Some(i) => Some(i),
            None => if entries.last().path == path {
                Some(entries.len() - 1)
            } else {
                None
            },
        }
    }
}

/// The layout of the files `specs`, with their total length; or what is wrong
/// with the first file that something is wrong with.
pub open spec fn layout_of(specs: Seq<FileSpec>) -> Result<(Seq<EntryModel>, u64), Seq<char>>
    decreases specs.len(),
{
    if specs.len() == 0 {
        Ok((Seq::empty(), 0))
    } else {
        match layout_of(specs.drop_last()) {
            Err(why) => Err(why),
            Ok((entries, running)) => {
                let idx: nat = (specs.len() - 1) as nat;
                let spec = specs.last();
                let path = texts(spec.path@);
                if path_fault(path) is Some {
                    Err("entry "@ + number_text(idx) + ": "@ + path_fault(path)->0)
                } else if same_path(entries, path) is Some {
                    Err(
                        "entry "@ + number_text(idx)
                            + " duplicates path already declared at entry "@ + number_text(
                            same_path(entries, path)->0 as nat,
                        ) + ": "@ + joined_path(path),
                    )
                } else if running + spec.length > u64::MAX {
                    Err(
                        "total length overflow at entry "@ + number_text(idx) + " (prev="@
                            + number_text(running as nat) + ", +"@ + number_text(
                            spec.length as nat,
                        ) + ")"@,
                    )
                } else {
                    Ok(
                        (
                            entries.push(
                                EntryModel { path, torrent_offset: running, length: spec.length },
                            ),
                            (running + spec.length) as u64,
                        ),
                    )
                }
            },
        }
    }
}

/// What `validate_specs` gives for `specs`.
pub open spec fn validated(specs: Seq<FileSpec>) -> Result<(Seq<EntryModel>, u64), Seq<char>> {
    if specs.len() > MAX_ENTRIES {
        Err(
            "too many entries: "@ + number_text(specs.len()) + " (max "@ + number_text(
                MAX_ENTRIES as nat,
            ) + ")"@,
        )
    } else {
        layout_of(specs)
    }
}

/// Whether a string has a character.
fn has_char(s: &String, c: char) -> (r: bool)
    ensures
        r == s@.contains(c),
{
    let mut found: bool = false;
    for x in it: s.as_str().chars()
        invariant
            it.seq() == s@,
            found == s@.take(it.index()).contains(c),
    {
        proof {
            let n = it.index();
            assert(x == s@[n]);
            let before = s@.take(n);
            let after = s@.take(n + 1);
            assert(after =~= before.push(x));
            if before.contains(c) {
                let j = choose|j: int| 0 <= j < before.len() && before[j] == c;
                assert(after[j] == c);
            }
            if x == c {
                assert(after[n] == c);
            }
            if after.contains(c) {
                let j = choose|j: int| 0 <= j < after.len() && after[j] == c;
                if j < n {
                    assert(before[j] == c);
                }
            }
        }
        if x == c {
            found = true;
        }
    }
    assert(s@.take(s@.len() as int) =~= s@);
    found
}

/// What is wrong with component `i`, if anything is.
fn check_component(i: usize, comp: &String) -> (r: Option<String>)
    ensures
        match r {
            Some(why) => component_fault(i as int, comp@) == Some(why@),
            None => component_fault(i as int, comp@) is None,
        },
{
    let mut why = text("component ");
    push_number(&mut why, i as u64);
    let bytes: usize = comp.as_str().as_bytes().len();
    if comp.as_str().is_empty() {
        why.push_str(" is empty");
        return Some(why);
    }
    if bytes > MAX_PATH_COMPONENT_LEN {
        why.push_str(" is ");
        push_number(&mut why, bytes as u64);
        why.push_str(" bytes (max ");
        push_number(&mut why, MAX_PATH_COMPONENT_LEN as u64);
        why.push_str(")");
        return Some(why);
    }
    proof {
        reveal_strlit(".");
        reveal_strlit("..");
        assert("."@ =~= seq!['.']);
        assert(".."@ =~= seq!['.', '.']);
    }
    if *comp == text(".") || *comp == text("..") {
        why.push_str(" is ");
        why.push_str(quoted(comp).as_str());
        why.push_str(" (reserved)");
        return Some(why);
    }
    if has_char(comp, '/') || has_char(comp, '\\') {
        why.push_str(" ");
        why.push_str(quoted(comp).as_str());
        why.push_str(" contains a path separator");
        return Some(why);
    }
    if has_char(comp, '\0') {
        why.push_str(" contains an interior NUL byte");
        return Some(why);
    }
    None
}

/// What is wrong with a path, if anything is: it has no components, or one of
/// them is empty, too long, reserved, or holds a separator or a NUL.
pub fn validate_path_components(components: &Vec<String>) -> (r: Result<(), String>)
    ensures
        match r {
            Ok(_) => path_fault(texts(components@)) is None,
            Err(why) => path_fault(texts(components@)) == Some(why@),
        },
{
    if components.len() == 0 {
        return Err(text("path has no components"));
    }
    let ghost path = texts(components@);
    let mut i: usize = 0;
    while i < components.len()
        invariant
            i <= components@.len(),
            path == texts(components@),
            components@.len() > 0,
            components_fault(path, 0) == components_fault(path, i as int),
        decreases components@.len() - i,
    {
        assert(path[i as int] == components@[i as int]@);
        match check_component(i, &components[i]) {
            Some(why) => {
                return Err(why);
            },
            None => {},
        }
        i = i + 1;
    }
    Ok(())
}

/// Whether two paths have the same components.
fn paths_equal(a: &Vec<String>, b: &Vec<String>) -> (r: bool)
    ensures
        r == (texts(a@) == texts(b@)),
{
    assert(texts(a@).len() == a@.len());
    assert(texts(b@).len() == b@.len());
    if a.len() != b.len() {
        return false;
    }
    let mut i: usize = 0;
    while i < a.len()
        invariant
            i <= a@.len(),
            a@.len() == b@.len(),
            forall|j: int| 0 <= j < i ==> (#[trigger] a@[j])@ == b@[j]@,
        decreases a@.len() - i,
    {
        if a[i] != b[i] {
            assert(texts(a@)[i as int] != texts(b@)[i as int]);
            return false;
        }
        i = i + 1;
    }
    assert(texts(a@) =~= texts(b@));
    true
}

/// The components with slashes between them.
pub fn display_path(path: &Vec<String>) -> (r: String)
    ensures
        r@ == joined_path(texts(path@)),
{
    let ghost all = texts(path@);
    let mut out = String::new();
    let mut i: usize = 0;
    assert(all.take(0) =~= Seq::<Seq<char>>::empty());
    assert(out@ =~= joined_path(all.take(0)));
    while i < path.len()
        invariant
            i <= path@.len(),
            all == texts(path@),
            out@ == joined_path(all.take(i as int)),
        decreases path@.len() - i,
    {
        assert(all.take(i + 1).drop_last() =~= all.take(i as int));
        if i > 0 {
            out.push_str("/");
        }
        out.push_str(path[i].as_str());
        assert(out@ =~= joined_path(all.take(i + 1)));
        i = i + 1;
    }
    assert(all.take(i as int) =~= all);
    out
}

/// The first file with this path.
fn find_path(entries: &Vec<FileEntry>, path: &Vec<String>) -> (r: Option<usize>)
    ensures
        match (r, same_path(entries_view(entries@), texts(path@))) {
            (Some(i), Some(j)) => i == j,
            (None, None) => true,
            _ => false,
        },
{
    let ghost all = entries_view(entries@);
    let ghost want = texts(path@);
    let mut found: Option<usize> = None;
    let mut i: usize = 0;
    assert(all.take(0) =~= Seq::<EntryModel>::empty());
    while i < entries.len()
        invariant
            i <= entries@.len(),
            all == entries_view(entries@),
            want == texts(path@),
            match (found, same_path(all.take(i as int), want)) {
                (Some(a), Some(b)) => a == b,
                (None, None) => true,
                _ => false,
            },
        decreases entries@.len() - i,
    {
        assert(all.take(i + 1).drop_last() =~= all.take(i as int));
        if found.is_none() && paths_equal(&entries[i].path, path) {
            found = Some(i);
        }
        i = i + 1;
    }
    assert(all.take(i as int) =~= all);
    found
}

/// A copy of a path.
fn copy_path(path: &Vec<String>) -> (r: Vec<String>)
    ensures
        texts(r@) == texts(path@),
{
    let mut out: Vec<String> = Vec::new();
    let mut i: usize = 0;
    while i < path.len()
        invariant
            i <= path@.len(),
            out@.len() == i,
            forall|j: int| 0 <= j < i ==> (#[trigger] out@[j])@ == path@[j]@,
        decreases path@.len() - i,
    {
        out.push(path[i].clone());
        i = i + 1;
    }
    assert(texts(out@) =~= texts(path@));
    out
}

/// Lays the declared files out one behind the other, and gives their total
/// length. Refuses too many files, a path that is not acceptable or declared
/// twice, and lengths that add up to too much.
pub fn validate_specs(specs: &Vec<FileSpec>) -> (r: Result<(Vec<FileEntry>, u64), StorageError>)
    ensures
        match (r, validated(specs@)) {
            (Ok((entries, total)), Ok((want, sum))) => entries_view(entries@) == want && total
                == sum,
            (Err(e), Err(why)) => e.path_text() == Some(why),
            _ => false,
        },
{
    if specs.len() > MAX_ENTRIES {
        let mut why = text("too many entries: ");
        push_number(&mut why, specs.len() as u64);
        why.push_str(" (max ");
        push_number(&mut why, MAX_ENTRIES as u64);
        why.push_str(")");
        return Err(StorageError::path(why));
    }
    let mut entries: Vec<FileEntry> = Vec::new();
    let mut running: u64 = 0;
    let mut idx: usize = 0;
    assert(specs@.take(0) =~= Seq::<FileSpec>::empty());
    assert(entries_view(entries@) =~= Seq::<EntryModel>::empty());
    while idx < specs.len()
        invariant
            idx <= specs@.len(),
            layout_of(specs@.take(idx as int)) == Ok::<(Seq<EntryModel>, u64), Seq<char>>(
                (entries_view(entries@), running),
            ),
            validated(specs@) == layout_of(specs@),
        decreases specs@.len() - idx,
    {
        let spec = &specs[idx];
        proof {
            assert(specs@.take(idx + 1).drop_last() =~= specs@.take(idx as int));
        }
        match validate_path_components(&spec.path) {
            Ok(_) => {},
            Err(msg) => {
                let mut why = text("entry ");
                push_number(&mut why, idx as u64);
                why.push_str(": ");
                why.push_str(msg.as_str());
                proof {
                    lemma_layout_prefix_fails(specs@, idx + 1);
                }
                return Err(StorageError::path(why));
            },
        }
        if let Some(prev) = find_path(&entries, &spec.path) {
            let mut why = text("entry ");
            push_number(&mut why, idx as u64);
            why.push_str(" duplicates path already declared at entry ");
            push_number(&mut why, prev as u64);
            why.push_str(": ");
            why.push_str(display_path(&spec.path).as_str());
            proof {
                lemma_layout_prefix_fails(specs@, idx + 1);
            }
            return Err(StorageError::path(why));
        }
        let torrent_offset: u64 = running;
        match running.checked_add(spec.length) {
            Some(sum) => {
                running = sum;
            },
            None => {
                let mut why = text("total length overflow at entry ");
                push_number(&mut why, idx as u64);
                why.push_str(" (prev=");
                push_number(&mut why, running);
                why.push_str(", +");
                push_number(&mut why, spec.length);
                why.push_str(")");
                proof {
                    lemma_layout_prefix_fails(specs@, idx + 1);
                }
                return Err(StorageError::path(why));
            },
        }
        let ghost before = entries_view(entries@);
        let entry = FileEntry { path: copy_path(&spec.path), torrent_offset, length: spec.length };
        entries.push(entry);
        assert(entries_view(entries@) =~= before.push(entry@));
        idx = idx + 1;
    }
    assert(specs@.take(idx as int) =~= specs@);
    Ok((entries, running))
}

/// Once something is wrong, more files do not change what is reported.
proof fn lemma_layout_prefix_fails(specs: Seq<FileSpec>, n: int)
    requires
        0 <= n <= specs.len(),
        layout_of(specs.take(n)) is Err,
    ensures
        layout_of(specs) == layout_of(specs.take(n)),
    decreases specs.len(),
{
    if n == specs.len() {
        assert(specs.take(n) =~= specs);
    } else {
        assert(specs.drop_last().take(n) =~= specs.take(n));
        lemma_layout_prefix_fails(specs.drop_last(), n);
    }
}

/// The files follow each other without gap from the start of the torrent, up to
/// `capacity`.
pub open spec fn contiguous(entries: Seq<EntryModel>, capacity: int) -> bool
    decreases entries.len(),
{
    if entries.len() == 0 {
        capacity == 0
    } else {
        let last = entries.last();
        last.torrent_offset + last.length == capacity && contiguous(
            entries.drop_last(),
            last.torrent_offset as int,
        )
    }
}

/// An accepted layout lays the files one behind the other, their lengths add up
/// to the total, no path stands twice, and every path is acceptable.
pub proof fn law_layout_is_contiguous(specs: Seq<FileSpec>)
    requires
        validated(specs) is Ok,
    ensures
        ({
            let (entries, total) = validated(specs)->Ok_0;
            &&& entries.len() == specs.len()
            &&& contiguous(entries, total as int)
            &&& forall|i: int|
                0 <= i < entries.len() ==> {
                    &&& (#[trigger] entries[i]).length == specs[i].length
                    &&& entries[i].path == texts(specs[i].path@)
                    &&& path_fault(entries[i].path) is None
                }
            &&& forall|i: int, j: int|
                0 <= i < j < entries.len() ==> (#[trigger] entries[i]).path != (
                #[trigger] entries[j]).path
        }),
{
    lemma_layout(specs);
}

proof fn lemma_layout(specs: Seq<FileSpec>)
    requires
        layout_of(specs) is Ok,
    ensures
        ({
            let (entries, total) = layout_of(specs)->Ok_0;
            &&& entries.len() == specs.len()
            &&& contiguous(entries, total as int)
            &&& forall|i: int|
                0 <= i < entries.len() ==> {
                    &&& (#[trigger] entries[i]).length == specs[i].length
                    &&& entries[i].path == texts(specs[i].path@)
                    &&& path_fault(entries[i].path) is None
                }
            &&& forall|i: int, j: int|
                0 <= i < j < entries.len() ==> (#[trigger] entries[i]).path != (
                #[trigger] entries[j]).path
        }),
    decreases specs.len(),
{
    if specs.len() > 0 {
        lemma_layout(specs.drop_last());
        let (front, running) = layout_of(specs.drop_last())->Ok_0;
        let (entries, total) = layout_of(specs)->Ok_0;
        let path = texts(specs.last().path@);
        assert(entries.drop_last() =~= front);
        lemma_same_path(front, path);
        assert forall|i: int| 0 <= i < entries.len() implies {
            &&& (#[trigger] entries[i]).length == specs[i].length
            &&& entries[i].path == texts(specs[i].path@)
            &&& path_fault(entries[i].path) is None
        } by {
            if i < front.len() {
                assert(front[i] == entries[i]);
                assert(specs.drop_last()[i] == specs[i]);
            }
        }
        assert forall|i: int, j: int| 0 <= i < j < entries.len() implies (
        #[trigger] entries[i]).path != (#[trigger] entries[j]).path by {
            assert(front[i] == entries[i]);
            if j < front.len() {
                assert(front[j] == entries[j]);
            }
        }
    }
}

proof fn lemma_same_path(entries: Seq<EntryModel>, path: Seq<Seq<char>>)
    ensures
        match same_path(entries, path) {
            Some(i) => 0 <= i < entries.len() && entries[i].path == path && forall|j: int|
                0 <= j < i ==> (#[trigger] entries[j]).path != path,
            None => forall|j: int| 0 <= j < entries.len() ==> (#[trigger] entries[j]).path != path,
        },
    decreases entries.len(),
{
    if entries.len() > 0 {
        let front = entries.drop_last();
        lemma_same_path(front, path);
        match same_path(front, path) {
            Some(i) => {
                assert(entries[i] == front[i]);
                assert forall|j: int| 0 <= j < i implies (#[trigger] entries[j]).path != path by {
                    assert(front[j] == entries[j]);
                }
            },
            None => {
                assert forall|j: int| 0 <= j < entries.len() - 1 implies (
                #[trigger] entries[j]).path != path by {
                    assert(front[j] == entries[j]);
                }
            },
        }
    }
}

impl EntryModel {
    /// Where the file ends in the torrent.
    pub open spec fn end(self) -> int {
        self.torrent_offset + self.length
    }
}

/// Each file starts where the one before it ends.
proof fn lemma_contiguous(entries: Seq<EntryModel>, capacity: int)
    requires
        contiguous(entries, capacity),
    ensures
        entries.len() > 0 ==> entries[0].torrent_offset == 0 && entries.last().end() == capacity,
        forall|i: int, j: int|
            0 <= i < entries.len() && j == i + 1 && j < entries.len() ==> (
            #[trigger] entries[i]).end() == (#[trigger] entries[j]).torrent_offset,
        forall|i: int| 0 <= i < entries.len() ==> (#[trigger] entries[i]).end() <= capacity,
        forall|i: int, j: int|
            0 <= i < j < entries.len() ==> (#[trigger] entries[i]).end() <= (
            #[trigger] entries[j]).torrent_offset,
    decreases entries.len(),
{
    if entries.len() > 0 {
        let front = entries.drop_last();
        let last = entries.last();
        lemma_contiguous(front, last.torrent_offset as int);
        assert forall|i: int| 0 <= i < entries.len() implies (#[trigger] entries[i]).end()
            <= capacity by {
            if i < front.len() {
                assert(front[i] == entries[i]);
            }
        }
        assert forall|i: int, j: int| 0 <= i < j < entries.len() implies (
        #[trigger] entries[i]).end() <= (#[trigger] entries[j]).torrent_offset by {
            assert(front[i] == entries[i]);
            if j < front.len() {
                assert(front[j] == entries[j]);
            }
        }
        assert forall|i: int, j: int|
            0 <= i < entries.len() && j == i + 1 && j < entries.len() implies (
        #[trigger] entries[i]).end() == (#[trigger] entries[j]).torrent_offset by {
            assert(front[i] == entries[i]);
            if j < front.len() {
                assert(front[j] == entries[j]);
            } else {
                assert(front.last() == entries[i]);
            }
        }
        if front.len() > 0 {
            assert(front[0] == entries[0]);
        } else {
            assert(contiguous(front, last.torrent_offset as int));
            assert(entries[0] == last);
        }
    }
}

/// A part of a transfer that falls on one file.
#[derive(Debug, Clone, Copy)]
pub struct Segment {
    /// The file, by its place in the layout.
    pub entry: usize,
    /// Where in the file.
    pub file_offset: u64,
    /// Where in the buffer.
    pub start: usize,
    /// How many bytes.
    pub len: usize,
}

impl Segment {
    /// The segment stands for the bytes of the torrent that the buffer's bytes
    /// are, inside one file.
    pub open spec fn fits(self, entries: Seq<EntryModel>, offset: int) -> bool {
        &&& self.entry < entries.len()
        &&& 0 < self.len
        &&& self.file_offset + self.len <= entries[self.entry as int].length
        &&& entries[self.entry as int].torrent_offset + self.file_offset == offset + self.start
    }

    /// Where in the buffer the segment ends.
    pub open spec fn stop(self) -> int {
        self.start + self.len
    }
}

/// The segments are the parts of `len` bytes at `offset`, one per file that the
/// range touches, in the order of the files.
pub open spec fn segments_of(
    entries: Seq<EntryModel>,
    offset: int,
    len: int,
    segments: Seq<Segment>,
) -> bool {
    &&& segments.len() == 0 ==> len == 0
    &&& segments.len() > 0 ==> segments[0].start == 0 && segments.last().stop() == len
    &&& forall|k: int| 0 <= k < segments.len() ==> (#[trigger] segments[k]).fits(entries, offset)
    &&& forall|k: int, m: int|
        0 <= k < segments.len() && m == k + 1 && m < segments.len() ==> (
        #[trigger] segments[k]).stop() == (#[trigger] segments[m]).start && segments[k].entry
            < segments[m].entry
}

/// The files of a torrent, one behind the other.
#[derive(Debug)]
pub struct FileLayout {
    entries: Vec<FileEntry>,
    capacity: u64,
}

impl FileLayout {
    /// The files.
    pub closed spec fn view(&self) -> Seq<EntryModel> {
        entries_view(self.entries@)
    }

    /// The length of the torrent.
    pub closed spec fn size(&self) -> u64 {
        self.capacity
    }

    /// The files follow each other without gap and fill the torrent.
    pub open spec fn wf(&self) -> bool {
        contiguous(self@, self.size() as int)
    }

    /// The layout of the declared files; see [`validate_specs`].
    pub fn new(files: &Vec<FileSpec>) -> (r: Result<FileLayout, StorageError>)
        ensures
            match (r, validated(files@)) {
                (Ok(layout), Ok((want, sum))) => layout.wf() && layout@ == want && layout.size()
                    == sum,
                (Err(e), Err(why)) => e.path_text() == Some(why),
                _ => false,
            },
    {
        match validate_specs(files) {
            Ok((entries, capacity)) => {
                proof {
                    law_layout_is_contiguous(files@);
                }
                Ok(FileLayout { entries, capacity })
            },
            Err(e) => Err(e),
        }
    }

    /// The length of the torrent.
    pub fn capacity(&self) -> (r: u64)
        ensures
            r == self.size(),
    {
        self.capacity
    }

    /// The number of files.
    pub fn len(&self) -> (r: usize)
        ensures
            r == self@.len(),
    {
        self.entries.len()
    }

    /// The file at a place.
    pub fn entry(&self, i: usize) -> (r: &FileEntry)
        requires
            i < self@.len(),
        ensures
            r@ == self@[i as int],
    {
        &self.entries[i]
    }

    /// The first file that ends behind `offset`; the number of files where none
    /// does.
    pub fn starting_entry(&self, offset: u64) -> (r: usize)
        requires
            self.wf(),
        ensures
            r <= self@.len(),
            forall|i: int| 0 <= i < r ==> (#[trigger] self@[i]).end() <= offset,
            forall|i: int| r <= i < self@.len() ==> (#[trigger] self@[i]).end() > offset,
    {
        proof {
            lemma_contiguous(self@, self.size() as int);
        }
        let mut lo: usize = 0;
        let mut hi: usize = self.entries.len();
        while lo < hi
            invariant
                lo <= hi <= self@.len(),
                self@.len() == self.entries@.len(),
                forall|i: int| 0 <= i < self@.len() ==> (#[trigger] self@[i]).end() <= self.size(),
                forall|i: int, j: int|
                    0 <= i < j < self@.len() ==> (#[trigger] self@[i]).end() <= (
                    #[trigger] self@[j]).torrent_offset,
                forall|i: int| 0 <= i < lo ==> (#[trigger] self@[i]).end() <= offset,
                forall|i: int| hi <= i < self@.len() ==> (#[trigger] self@[i]).end() > offset,
            decreases hi - lo,
        {
            let mid: usize = lo + (hi - lo) / 2;
            let entry = &self.entries[mid];
            assert(self@[mid as int] == entry@);
            let end: u64 = entry.torrent_offset + entry.length;
            if end <= offset {
                assert forall|i: int| 0 <= i < mid + 1 implies (#[trigger] self@[i]).end()
                    <= offset by {
                    if i < mid {
                        assert(self@[i].end() <= self@[mid as int].torrent_offset);
                    }
                }
                lo = mid + 1;
            } else {
                assert forall|i: int| mid <= i < self@.len() implies (#[trigger] self@[i]).end()
                    > offset by {
                    if i > mid {
                        assert(self@[mid as int].end() <= self@[i].torrent_offset);
                    }
                }
                hi = mid;
            }
        }
        lo
    }

    /// Divides a transfer of `len` bytes at `offset` into its parts on the
    /// files. Refuses a range outside the torrent.
    pub fn segments(&self, offset: u64, len: usize) -> (r: Result<Vec<Segment>, StorageError>)
        requires
            self.wf(),
        ensures
            match r {
                Ok(segments) => offset + len <= self.size() && segments_of(
                    self@,
                    offset as int,
                    len as int,
                    segments@,
                ),
                Err(e) => offset + len > self.size() && e.out_of_bounds(
                    offset,
                    len as u64,
                    self.size(),
                ),
            },
    {
        match bounds_check(offset, len as u64, self.capacity) {
            Ok(_) => {},
            Err(e) => {
                return Err(e);
            },
        }
        let mut segments: Vec<Segment> = Vec::new();
        if len == 0 {
            return Ok(segments);
        }
        proof {
            lemma_contiguous(self@, self.size() as int);
        }
        let ghost all = self@;
        let mut done: usize = 0;
        let mut idx: usize = self.starting_entry(offset);
        proof {
            if idx == all.len() {
                assert(all.last().end() <= offset);
            } else if idx > 0 {
                assert(all[idx - 1].end() == all[idx as int].torrent_offset);
            }
        }
        while done < len
            invariant
                done <= len,
                0 < len,
                all == self@,
                all.len() == self.entries@.len(),
                offset + len <= self.size(),
                all.len() > 0 ==> all.last().end() == self.size(),
                forall|i: int, j: int|
                    0 <= i < all.len() && j == i + 1 && j < all.len() ==> (
                    #[trigger] all[i]).end() == (#[trigger] all[j]).torrent_offset,
                forall|i: int| 0 <= i < all.len() ==> (#[trigger] all[i]).end() <= self.size(),
                done < len ==> idx < self.entries.len(),
                done < len ==> all[idx as int].torrent_offset <= offset + done,
                done < len ==> all[idx as int].end() > offset + done
                    || all[idx as int].torrent_offset == offset + done,
                done == 0 ==> segments@.len() == 0,
                segments@.len() == 0 ==> done == 0,
                segments@.len() > 0 ==> segments@[0].start == 0 && segments@.last().stop() == done
                    && segments@.last().entry < idx,
                forall|k: int|
                    0 <= k < segments@.len() ==> (#[trigger] segments@[k]).fits(all, offset as int),
                forall|k: int, m: int|
                    0 <= k < segments@.len() && m == k + 1 && m < segments@.len() ==> (
                    #[trigger] segments@[k]).stop() == (#[trigger] segments@[m]).start
                        && segments@[k].entry < segments@[m].entry,
            decreases len - done, all.len() - idx,
        {
            let entry = &self.entries[idx];
            assert(all[idx as int] == entry@);
            proof {
                if idx + 1 < all.len() {
                    assert(all[idx as int].end() == all[idx + 1].torrent_offset);
                } else {
                    assert(all.last() == all[idx as int]);
                }
            }
            if entry.length == 0 {
                idx = idx + 1;
                continue;
            }
            let cursor: u64 = offset + done as u64;
            let file_offset: u64 = cursor - entry.torrent_offset;
            let available: u64 = entry.length - file_offset;
            let remaining: usize = len - done;
            let take: usize = if (remaining as u64) <= available {
                remaining
            } else {
                available as usize
            };
            let ghost before = segments@;
            segments.push(Segment { entry: idx, file_offset, start: done, len: take });
            proof {
                assert forall|k: int| 0 <= k < segments@.len() implies (
                #[trigger] segments@[k]).fits(all, offset as int) by {
                    if k < before.len() {
                        assert(before[k] == segments@[k]);
                    }
                }
                assert forall|k: int, m: int|
                    0 <= k < segments@.len() && m == k + 1 && m < segments@.len() implies (
                #[trigger] segments@[k]).stop() == (#[trigger] segments@[m]).start
                    && segments@[k].entry < segments@[m].entry by {
                    assert(before[k] == segments@[k]);
                    if m < before.len() {
                        assert(before[m] == segments@[m]);
                    } else {
                        assert(before.last() == segments@[k]);
                    }
                }
                if before.len() > 0 {
                    assert(segments@[0] == before[0]);
                }
            }
            done = done + take;
            idx = idx + 1;
        }
        Ok(segments)
    }

    /// The directories below the root that held files, the deepest first and in
    /// the order of the files among those of one depth. A directory that would
    /// follow itself stands once.
    pub fn directories(&self) -> (r: Vec<Vec<String>>)
        ensures
            paths_view(r@) == without_repeats(deepest_first(parents_of(self@), deepest(self@))),
    {
        let mut parents: Vec<Vec<String>> = Vec::new();
        let mut depth: usize = 0;
        let mut i: usize = 0;
        let ghost all = self@;
        assert(all.take(0) =~= Seq::<EntryModel>::empty());
        assert(paths_view(parents@) =~= parents_of(all.take(0)));
        while i < self.entries.len()
            invariant
                i <= all.len(),
                all == self@,
                all.len() == self.entries@.len(),
                paths_view(parents@) == parents_of(all.take(i as int)),
                depth == deepest(all.take(i as int)),
            decreases all.len() - i,
        {
            let path = &self.entries[i].path;
            proof {
                assert(all.take(i + 1).drop_last() =~= all.take(i as int));
                assert(all[i as int].path == texts(path@));
            }
            if path.len() > 1 {
                let parent = copy_front(path);
                let ghost before = paths_view(parents@);
                parents.push(parent);
                assert(paths_view(parents@) =~= before.push(texts(parent@)));
                if path.len() - 1 > depth {
                    depth = path.len() - 1;
                }
            }
            i = i + 1;
        }
        assert(all.take(i as int) =~= all);
        let mut out: Vec<Vec<String>> = Vec::new();
        let ghost whole = paths_view(parents@);
        let ghost top = depth as nat;
        assert(paths_view(out@) =~= Seq::<Seq<Seq<char>>>::empty());
        proof {
            assert(Seq::<Seq<Seq<char>>>::empty() + deepest_first(whole, depth as nat)
                =~= deepest_first(whole, depth as nat));
        }
        while depth > 0
            invariant
                whole == paths_view(parents@),
                paths_view(out@) + deepest_first(whole, depth as nat) == deepest_first(whole, top),
            decreases depth,
        {
            let ghost before = paths_view(out@);
            let mut j: usize = 0;
            assert(whole.take(0) =~= Seq::<Seq<Seq<char>>>::empty());
            assert(before + of_depth(whole.take(0), depth as nat) =~= before);
            while j < parents.len()
                invariant
                    j <= parents@.len(),
                    whole == paths_view(parents@),
                    paths_view(out@) == before + of_depth(whole.take(j as int), depth as nat),
                decreases parents@.len() - j,
            {
                assert(whole.take(j + 1).drop_last() =~= whole.take(j as int));
                assert(whole[j as int] == texts(parents@[j as int]@));
                if parents[j].len() == depth {
                    let parent = copy_path(&parents[j]);
                    let ghost so_far = paths_view(out@);
                    out.push(parent);
                    assert(paths_view(out@) =~= so_far.push(texts(parent@)));
                    assert(paths_view(out@) =~= before + of_depth(whole.take(j + 1), depth as nat));
                }
                j = j + 1;
            }
            assert(whole.take(j as int) =~= whole);
            assert((before + of_depth(whole, depth as nat)) + deepest_first(
                whole,
                (depth - 1) as nat,
            ) =~= before + deepest_first(whole, depth as nat));
            depth = depth - 1;
        }
        assert(paths_view(out@) + deepest_first(whole, 0) =~= paths_view(out@));
        drop_repeats(&out)
    }
}

/// A path without its last component.
fn copy_front(path: &Vec<String>) -> (r: Vec<String>)
    requires
        path@.len() > 0,
    ensures
        texts(r@) == texts(path@).drop_last(),
{
    let mut out: Vec<String> = Vec::new();
    let mut i: usize = 0;
    while i < path.len() - 1
        invariant
            i <= path@.len() - 1,
            out@.len() == i,
            forall|j: int| 0 <= j < i ==> (#[trigger] out@[j])@ == path@[j]@,
        decreases path@.len() - i,
    {
        out.push(path[i].clone());
        i = i + 1;
    }
    assert(texts(out@) =~= texts(path@).drop_last());
    out
}

/// Each path by the text of its components.
pub open spec fn paths_view(paths: Seq<Vec<String>>) -> Seq<Seq<Seq<char>>> {
    Seq::new(paths.len(), |i: int| texts(paths[i]@))
}

/// The directories of the files that do not stand at the root, file by file.
pub open spec fn parents_of(entries: Seq<EntryModel>) -> Seq<Seq<Seq<char>>>
    decreases entries.len(),
{
    if entries.len() == 0 {
        Seq::empty()
    } else {
        let rest = parents_of(entries.drop_last());
        if entries.last().path.len() > 1 {
            rest.push(entries.last().path.drop_last())
        } else {
            rest
        }
    }
}

/// The greatest depth of a directory below the root.
pub open spec fn deepest(entries: Seq<EntryModel>) -> nat
    decreases entries.len(),
{
    if entries.len() == 0 {
        0
    } else {
        let rest = deepest(entries.drop_last());
        let here = entries.last().path.len() - 1;
        if here > rest {
            here as nat
        } else {
            rest
        }
    }
}

/// The paths of one depth, in order.
pub open spec fn of_depth(paths: Seq<Seq<Seq<char>>>, depth: nat) -> Seq<Seq<Seq<char>>>
    decreases paths.len(),
{
    if paths.len() == 0 {
        Seq::empty()
    } else {
        let rest = of_depth(paths.drop_last(), depth);
        if paths.last().len() == depth {
            rest.push(paths.last())
        } else {
            rest
        }
    }
}

/// The paths of depth `depth`, then those of the depths below it.
pub open spec fn deepest_first(paths: Seq<Seq<Seq<char>>>, depth: nat) -> Seq<Seq<Seq<char>>>
    decreases depth,
{
    if depth == 0 {
        Seq::empty()
    } else {
        of_depth(paths, depth) + deepest_first(paths, (depth - 1) as nat)
    }
}

/// The paths without those that follow themselves.
pub open spec fn without_repeats(paths: Seq<Seq<Seq<char>>>) -> Seq<Seq<Seq<char>>>
    decreases paths.len(),
{
    if paths.len() == 0 {
        Seq::empty()
    } else {
        let rest = without_repeats(paths.drop_last());
        if paths.len() > 1 && paths[paths.len() - 2] == paths.last() {
            rest
        } else {
            rest.push(paths.last())
        }
    }
}

/// The paths without those that follow themselves.
fn drop_repeats(paths: &Vec<Vec<String>>) -> (r: Vec<Vec<String>>)
    ensures
        paths_view(r@) == without_repeats(paths_view(paths@)),
{
    let mut out: Vec<Vec<String>> = Vec::new();
    let ghost all = paths_view(paths@);
    let mut i: usize = 0;
    assert(all.take(0) =~= Seq::<Seq<Seq<char>>>::empty());
    assert(paths_view(out@) =~= without_repeats(all.take(0)));
    while i < paths.len()
        invariant
            i <= paths@.len(),
            all == paths_view(paths@),
            paths_view(out@) == without_repeats(all.take(i as int)),
        decreases paths@.len() - i,
    {
        proof {
            assert(all.take(i + 1).drop_last() =~= all.take(i as int));
            assert(all[i as int] == texts(paths@[i as int]@));
            if i > 0 {
                assert(all[i - 1] == texts(paths@[i - 1]@));
            }
        }
        if i > 0 && paths_equal(&paths[i - 1], &paths[i]) {
        } else {
            let path = copy_path(&paths[i]);
            let ghost before = paths_view(out@);
            out.push(path);
            assert(paths_view(out@) =~= before.push(texts(path@)));
        }
        i = i + 1;
    }
    assert(all.take(i as int) =~= all);
    out
}

/// Two different files hold different bytes of the torrent.
pub proof fn law_files_do_not_overlap(layout: FileLayout, i: int, j: int, a: int, b: int)
    requires
        layout.wf(),
        0 <= i < layout@.len(),
        0 <= j < layout@.len(),
        0 <= a < layout@[i].length,
        0 <= b < layout@[j].length,
        layout@[i].torrent_offset + a == layout@[j].torrent_offset + b,
    ensures
        i == j && a == b,
{
    lemma_contiguous(layout@, layout.size() as int);
    if i < j {
        assert(layout@[i].end() <= layout@[j].torrent_offset);
    } else if j < i {
        assert(layout@[j].end() <= layout@[i].torrent_offset);
    }
}

/// A transfer has one division into parts.
pub proof fn law_segments_are_unique(
    layout: FileLayout,
    offset: int,
    len: int,
    a: Seq<Segment>,
    b: Seq<Segment>,
)
    requires
        layout.wf(),
        segments_of(layout@, offset, len, a),
        segments_of(layout@, offset, len, b),
    ensures
        a == b,
{
    lemma_segments_agree(layout, offset, len, a, b, a.len() as int);
    lemma_segments_agree(layout, offset, len, b, a, b.len() as int);
    assert(a =~= b);
}

proof fn lemma_segments_agree(
    layout: FileLayout,
    offset: int,
    len: int,
    a: Seq<Segment>,
    b: Seq<Segment>,
    n: int,
)
    requires
        layout.wf(),
        segments_of(layout@, offset, len, a),
        segments_of(layout@, offset, len, b),
        0 <= n <= a.len(),
    ensures
        n <= b.len(),
        forall|k: int| 0 <= k < n ==> (#[trigger] a[k]) == b[k],
    decreases n,
{
    if n > 0 {
        lemma_segments_agree(layout, offset, len, a, b, n - 1);
        let k = n - 1;
        let x = a[k];
        lemma_stops_inside(layout, offset, len, a, k);
        if k > 0 {
            assert(a[k - 1].stop() == a[k].start);
            if b.len() == k {
                assert(b.last() == a[k - 1]);
            } else {
                assert(b[k - 1].stop() == b[k].start);
            }
        }
        let y = b[k];
        lemma_stops_inside(layout, offset, len, b, k);
        assert(x.start == y.start);
        assert(x.fits(layout@, offset) && y.fits(layout@, offset));
        law_files_do_not_overlap(
            layout,
            x.entry as int,
            y.entry as int,
            x.file_offset as int,
            y.file_offset as int,
        );
        lemma_segment_is_full(layout, offset, len, a, k);
        lemma_segment_is_full(layout, offset, len, b, k);
    }
}

proof fn lemma_stops_inside(
    layout: FileLayout,
    offset: int,
    len: int,
    segments: Seq<Segment>,
    k: int,
)
    requires
        segments_of(layout@, offset, len, segments),
        0 <= k < segments.len(),
    ensures
        0 < segments[k].stop() <= len,
    decreases segments.len() - k,
{
    assert(segments[k].fits(layout@, offset));
    if k + 1 < segments.len() {
        lemma_stops_inside(layout, offset, len, segments, k + 1);
        assert(segments[k].stop() == segments[k + 1].start);
    }
}

/// A segment ends with the transfer or with its file.
proof fn lemma_segment_is_full(
    layout: FileLayout,
    offset: int,
    len: int,
    segments: Seq<Segment>,
    k: int,
)
    requires
        layout.wf(),
        segments_of(layout@, offset, len, segments),
        0 <= k < segments.len(),
    ensures
        segments[k].stop() <= len,
        segments[k].stop() == len || segments[k].file_offset + segments[k].len
            == layout@[segments[k].entry as int].length,
{
    lemma_stops_inside(layout, offset, len, segments, k);
    if k + 1 < segments.len() {
        let x = segments[k];
        let y = segments[k + 1];
        assert(x.stop() == y.start && x.entry < y.entry);
        assert(x.fits(layout@, offset) && y.fits(layout@, offset));
        lemma_contiguous(layout@, layout.size() as int);
        assert(layout@[x.entry as int].end() <= layout@[y.entry as int].torrent_offset);
    }
}

/// `files` are the bytes `s` of the torrent, cut at the files' bounds.
pub open spec fn holds(entries: Seq<EntryModel>, files: Seq<Seq<u8>>, s: Seq<u8>) -> bool {
    &&& files.len() == entries.len()
    &&& forall|i: int|
        0 <= i < entries.len() ==> #[trigger] files[i] == s.subrange(
            entries[i].torrent_offset as int,
            entries[i].end(),
        )
}

/// The files after each segment of `buf` was written to its file.
pub open spec fn files_written(
    files: Seq<Seq<u8>>,
    segments: Seq<Segment>,
    buf: Seq<u8>,
) -> Seq<Seq<u8>>
    decreases segments.len(),
{
    if segments.len() == 0 {
        files
    } else {
        let done = files_written(files, segments.drop_last(), buf);
        let last = segments.last();
        let entry = last.entry as int;
        done.update(
            entry,
            spliced(
                done[entry],
                last.file_offset as int,
                buf.subrange(last.start as int, last.stop()),
            ),
        )
    }
}

/// Reading each segment from its file reads the range from the torrent.
pub proof fn law_segmented_read_is_a_read(
    layout: FileLayout,
    offset: int,
    segments: Seq<Segment>,
    files: Seq<Seq<u8>>,
    s: Seq<u8>,
    len: int,
    k: int,
)
    requires
        layout.wf(),
        segments_of(layout@, offset, len, segments),
        s.len() == layout.size(),
        holds(layout@, files, s),
        0 <= k < segments.len(),
        0 <= offset,
        offset + len <= s.len(),
    ensures
        ({
            let part = segments[k];
            files[part.entry as int].subrange(
                part.file_offset as int,
                part.file_offset + part.len,
            ) == s.subrange(offset, offset + len).subrange(part.start as int, part.stop())
        }),
{
    let part = segments[k];
    lemma_contiguous(layout@, layout.size() as int);
    lemma_stops_inside(layout, offset, len, segments, k);
    assert(part.fits(layout@, offset));
    assert(layout@[part.entry as int].end() <= layout.size());
    assert(files[part.entry as int] == s.subrange(
        layout@[part.entry as int].torrent_offset as int,
        layout@[part.entry as int].end(),
    ));
    assert(files[part.entry as int].subrange(part.file_offset as int, part.file_offset + part.len)
        =~= s.subrange(offset, offset + len).subrange(part.start as int, part.stop()));
}

/// Writing each segment to its file writes the range to the torrent.
pub proof fn law_segmented_write_is_a_write(
    layout: FileLayout,
    offset: int,
    segments: Seq<Segment>,
    files: Seq<Seq<u8>>,
    s: Seq<u8>,
    buf: Seq<u8>,
)
    requires
        layout.wf(),
        segments_of(layout@, offset, buf.len() as int, segments),
        s.len() == layout.size(),
        holds(layout@, files, s),
        0 <= offset,
        offset + buf.len() <= s.len(),
    ensures
        holds(layout@, files_written(files, segments, buf), spliced(s, offset, buf)),
{
    lemma_written_prefix(layout, offset, segments, files, s, buf, segments.len() as int);
    assert(segments.take(segments.len() as int) =~= segments);
    if segments.len() > 0 {
        assert(buf.take(segments.last().stop()) =~= buf);
    } else {
        assert(spliced(s, offset, buf) =~= s);
    }
}

proof fn lemma_written_prefix(
    layout: FileLayout,
    offset: int,
    segments: Seq<Segment>,
    files: Seq<Seq<u8>>,
    s: Seq<u8>,
    buf: Seq<u8>,
    n: int,
)
    requires
        layout.wf(),
        segments_of(layout@, offset, buf.len() as int, segments),
        s.len() == layout.size(),
        holds(layout@, files, s),
        0 <= offset,
        offset + buf.len() <= s.len(),
        0 <= n <= segments.len(),
    ensures
        holds(
            layout@,
            files_written(files, segments.take(n), buf),
            if n == 0 {
                s
            } else {
                spliced(s, offset, buf.take(segments[n - 1].stop()))
            },
        ),
    decreases n,
{
    if n > 0 {
        lemma_written_prefix(layout, offset, segments, files, s, buf, n - 1);
        lemma_contiguous(layout@, layout.size() as int);
        lemma_stops_inside(layout, offset, buf.len() as int, segments, n - 1);
        let part = segments[n - 1];
        assert(part.fits(layout@, offset));
        assert(segments.take(n).drop_last() =~= segments.take(n - 1));
        let before = if n == 1 {
            s
        } else {
            spliced(s, offset, buf.take(segments[n - 2].stop()))
        };
        let after = spliced(s, offset, buf.take(part.stop()));
        let done = files_written(files, segments.take(n - 1), buf);
        let now = files_written(files, segments.take(n), buf);
        if n > 1 {
            lemma_stops_inside(layout, offset, buf.len() as int, segments, n - 2);
            assert(segments[n - 2].stop() == segments[n - 1].start);
        }
        assert(after =~= spliced(
            before,
            offset + part.start,
            buf.subrange(part.start as int, part.stop()),
        ));
        assert forall|i: int| 0 <= i < layout@.len() implies #[trigger] now[i] == after.subrange(
            layout@[i].torrent_offset as int,
            layout@[i].end(),
        ) by {
            let entry = layout@[i];
            assert(entry.end() <= layout.size());
            assert(done[i] == before.subrange(entry.torrent_offset as int, entry.end()));
            if i < part.entry {
                assert(layout@[i].end() <= layout@[part.entry as int].torrent_offset);
            } else if i > part.entry {
                assert(layout@[part.entry as int].end() <= layout@[i].torrent_offset);
            }
            assert(now[i] =~= after.subrange(entry.torrent_offset as int, entry.end()));
        }
    }
}

/// The specs have the files' lengths and their paths as text.
pub open spec fn specs_match(
    files: Seq<FileV1>,
    specs: Seq<FileSpec>,
) -> bool {
    &&& specs.len() == files.len()
    &&& forall|i: int| 0 <= i < files.len() ==> #[trigger] spec_matches(files[i], specs[i])
}

/// The spec has the file's length and its path as text.
pub open spec fn spec_matches(file: FileV1, spec: FileSpec) -> bool {
    &&& spec.length == file.length
    &&& spec.path@.len() == file.path@.len()
    &&& forall|c: int|
        0 <= c < file.path@.len() ==> valid_utf8(#[trigger] file.path@[c]@) && spec.path@[c]@
            == decode_utf8(file.path@[c]@)
}

/// Component `c` of file `i` is the first that is not text.
pub open spec fn first_not_text(
    files: Seq<FileV1>,
    i: int,
    c: int,
) -> bool {
    &&& 0 <= i < files.len()
    &&& 0 <= c < files[i].path@.len()
    &&& !valid_utf8(files[i].path@[c]@)
    &&& forall|d: int| 0 <= d < c ==> valid_utf8(#[trigger] files[i].path@[d]@)
    &&& forall|j: int, d: int|
        0 <= j < i && 0 <= d < files[j].path@.len() ==> valid_utf8(#[trigger] files[j].path@[d]@)
}

/// What is said of component `c` of file `i` where it is not text.
pub open spec fn not_text(i: int, c: int) -> Seq<char> {
    "entry "@ + number_text(i as nat) + " component "@ + number_text(c as nat)
        + " is not valid UTF-8"@
}

/// The path of file `idx` as text.
fn text_path(idx: usize, path: &Vec<Vec<u8>>) -> (r: Result<Vec<String>, (usize, StorageError)>)
    ensures
        match r {
            Ok(out) => out@.len() == path@.len() && forall|c: int|
                0 <= c < path@.len() ==> valid_utf8(#[trigger] path@[c]@) && out@[c]@
                    == decode_utf8(path@[c]@),
            Err((c, e)) => c < path@.len() && !valid_utf8(path@[c as int]@) && (forall|d: int|
                0 <= d < c ==> valid_utf8(#[trigger] path@[d]@)) && e.path_text() == Some(
                not_text(idx as int, c as int),
            ),
        },
{
    let mut out: Vec<String> = Vec::new();
    let mut c: usize = 0;
    while c < path.len()
        invariant
            c <= path@.len(),
            out@.len() == c,
            forall|d: int|
                0 <= d < c ==> valid_utf8(#[trigger] path@[d]@) && out@[d]@ == decode_utf8(
                    path@[d]@,
                ),
        decreases path@.len() - c,
    {
        let bytes: Vec<u8> = vstd::slice::slice_to_vec(path[c].as_slice());
        assert(bytes@ == path@[c as int]@);
        match String::from_utf8(bytes) {
            Ok(s) => {
                out.push(s);
            },
            Err(_) => {
                let mut why = text("entry ");
                push_number(&mut why, idx as u64);
                why.push_str(" component ");
                push_number(&mut why, c as u64);
                why.push_str(" is not valid UTF-8");
                return Err((c, StorageError::path(why)));
            },
        }
        c = c + 1;
    }
    Ok(out)
}

/// The files with their paths as text.
fn specs_of_files(files: &Vec<FileV1>) -> (r: Result<Vec<FileSpec>, StorageError>)
    ensures
        match r {
            Ok(specs) => specs_match(files@, specs@),
            Err(e) => exists|i: int, c: int| #[trigger]
                first_not_text(files@, i, c) && e.path_text() == Some(not_text(i, c)),
        },
{
    let mut specs: Vec<FileSpec> = Vec::new();
    let mut idx: usize = 0;
    while idx < files.len()
        invariant
            idx <= files@.len(),
            specs@.len() == idx,
            forall|i: int| 0 <= i < idx ==> #[trigger] spec_matches(files@[i], specs@[i]),
        decreases files@.len() - idx,
    {
        match text_path(idx, &files[idx].path) {
            Ok(path) => {
                let ghost before = specs@;
                specs.push(FileSpec { path, length: files[idx].length });
                assert forall|i: int| 0 <= i < idx + 1 implies #[trigger] spec_matches(
                    files@[i],
                    specs@[i],
                ) by {
                    if i < idx {
                        assert(spec_matches(files@[i], before[i]));
                        assert(specs@[i] == before[i]);
                    }
                }
            },
            Err((c, e)) => {
                assert forall|j: int, d: int|
                    0 <= j < idx && 0 <= d < files@[j].path@.len() implies valid_utf8(
                    #[trigger] files@[j].path@[d]@,
                ) by {
                    assert(spec_matches(files@[j], specs@[j]));
                }
                assert(first_not_text(files@, idx as int, c as int));
                return Err(e);
            },
        }
        idx = idx + 1;
    }
    Ok(specs)
}

/// The files that a parsed info dictionary declares. Refuses a torrent without
/// a version 1 part, one of a single file, and a path that is not UTF-8.
pub fn specs_from_info(info: &Info) -> (r: Result<Vec<FileSpec>, StorageError>)
    ensures
        match info.v1 {
            None => r is Err && r->Err_0.path_text() == Some(
                "multi-file storage requires a v1 info dict; this torrent is v2-only (BEP 52 v2-tree storage is a future milestone)"@,
            ),
            Some(v1) => match v1.files {
                FileListV1::Single { .. } => r is Err && r->Err_0.path_text() == Some(
                    "this is a single-file torrent; use FileStorage instead of MultiFileStorage"@,
                ),
                FileListV1::Multi { files } => match r {
                    Ok(specs) => specs_match(files@, specs@),
                    Err(e) => exists|i: int, c: int| #[trigger]
                        first_not_text(files@, i, c) && e.path_text() == Some(not_text(i, c)),
                },
            },
        },
{
    match &info.v1 {
        None => Err(
            StorageError::path(
                text(
                    "multi-file storage requires a v1 info dict; this torrent is v2-only (BEP 52 v2-tree storage is a future milestone)",
                ),
            ),
        ),
        Some(v1) => match &v1.files {
            FileListV1::Single { .. } => Err(
                StorageError::path(
                    text(
                        "this is a single-file torrent; use FileStorage instead of MultiFileStorage",
                    ),
                ),
            ),
            FileListV1::Multi { files } => specs_of_files(files),
        },
    }
}

/// A name that a file or directory may have: not empty, no more than 255 bytes,
/// neither of the two names that stand for a directory itself and the one above,
/// and without separators or zeros.
pub open spec fn safe_name(comp: Seq<char>) -> bool {
    &&& comp.len() > 0
    &&& encode_utf8(comp).len() <= 255
    &&& comp != seq!['.']
    &&& comp != seq!['.', '.']
    &&& forall|i: int|
        0 <= i < comp.len() ==> #[trigger] comp[i] != '/' && comp[i] != '\\' && comp[i] != '\0'
}

proof fn lemma_safe_name(i: int, comp: Seq<char>)
    ensures
        component_fault(i, comp) is None <==> safe_name(comp),
{
    if safe_name(comp) {
        if comp.contains('/') {
            let k = choose|k: int| 0 <= k < comp.len() && comp[k] == '/';
            assert(comp[k] != '/');
        }
        if comp.contains('\\') {
            let k = choose|k: int| 0 <= k < comp.len() && comp[k] == '\\';
            assert(comp[k] != '\\');
        }
        if comp.contains('\0') {
            let k = choose|k: int| 0 <= k < comp.len() && comp[k] == '\0';
            assert(comp[k] != '\0');
        }
    }
    if component_fault(i, comp) is None {
        assert forall|k: int| 0 <= k < comp.len() implies #[trigger] comp[k] != '/' && comp[k]
            != '\\' && comp[k] != '\0' by {
            assert(comp.contains(comp[k]));
        }
    }
}

proof fn lemma_safe_path(path: Seq<Seq<char>>, i: int)
    requires
        0 <= i <= path.len(),
    ensures
        components_fault(path, i) is None <==> forall|k: int|
            i <= k < path.len() ==> safe_name(#[trigger] path[k]),
    decreases path.len() - i,
{
    if i < path.len() {
        lemma_safe_name(i, path[i]);
        lemma_safe_path(path, i + 1);
    }
}

/// A path is taken exactly if it has names and each of them is safe, so that it
/// leads to a place below the root.
pub proof fn law_which_paths_are_taken(path: Seq<Seq<char>>)
    ensures
        path_fault(path) is None <==> path.len() > 0 && forall|k: int|
            0 <= k < path.len() ==> safe_name(#[trigger] path[k]),
{
    if path.len() > 0 {
        lemma_safe_path(path, 0);
    }
}

/// The lengths of the first `n` files together.
pub open spec fn length_before(specs: Seq<FileSpec>, n: int) -> int
    decreases n,
{
    if n <= 0 {
        0
    } else {
        length_before(specs, n - 1) + specs[n - 1].length
    }
}

/// Files are taken exactly if there are no more than a hundred thousand, every path
/// is, no two are the same, and their lengths can be counted. Each then starts where
/// the lengths of those before it end.
pub proof fn law_which_files_are_taken(specs: Seq<FileSpec>)
    ensures
        validated(specs) is Ok <==> {
            &&& specs.len() <= 100_000
            &&& forall|i: int|
                0 <= i < specs.len() ==> path_fault(texts((#[trigger] specs[i]).path@)) is None
            &&& forall|i: int, j: int|
                0 <= i < j < specs.len() ==> texts((#[trigger] specs[i]).path@) != texts(
                    (#[trigger] specs[j]).path@,
                )
            &&& length_before(specs, specs.len() as int) <= u64::MAX
        },
        validated(specs) matches Ok((entries, total)) ==> {
            &&& total == length_before(specs, specs.len() as int)
            &&& entries.len() == specs.len()
            &&& forall|i: int|
                0 <= i < entries.len() ==> {
                    &&& (#[trigger] entries[i]).torrent_offset == length_before(specs, i)
                    &&& entries[i].length == specs[i].length
                    &&& entries[i].path == texts(specs[i].path@)
                }
        },
{
    lemma_files_taken(specs);
}

proof fn lemma_length_before_same(a: Seq<FileSpec>, b: Seq<FileSpec>, n: int)
    requires
        0 <= n <= a.len(),
        n <= b.len(),
        forall|i: int| 0 <= i < n ==> (#[trigger] a[i]) == b[i],
    ensures
        length_before(a, n) == length_before(b, n),
    decreases n,
{
    if n > 0 {
        lemma_length_before_same(a, b, n - 1);
        assert(a[n - 1] == b[n - 1]);
    }
}

proof fn lemma_files_taken(specs: Seq<FileSpec>)
    ensures
        layout_of(specs) is Ok <==> {
            &&& forall|i: int|
                0 <= i < specs.len() ==> path_fault(texts((#[trigger] specs[i]).path@)) is None
            &&& forall|i: int, j: int|
                0 <= i < j < specs.len() ==> texts((#[trigger] specs[i]).path@) != texts(
                    (#[trigger] specs[j]).path@,
                )
            &&& length_before(specs, specs.len() as int) <= u64::MAX
        },
        layout_of(specs) matches Ok((entries, total)) ==> {
            &&& total == length_before(specs, specs.len() as int)
            &&& entries.len() == specs.len()
            &&& forall|i: int|
                0 <= i < entries.len() ==> {
                    &&& (#[trigger] entries[i]).torrent_offset == length_before(specs, i)
                    &&& entries[i].length == specs[i].length
                    &&& entries[i].path == texts(specs[i].path@)
                }
        },
    decreases specs.len(),
{
    if specs.len() > 0 {
        let front = specs.drop_last();
        let n = specs.len() - 1;
        lemma_files_taken(front);
        lemma_length_before_same(front, specs, n);
        let path = texts(specs.last().path@);
        if let Ok((entries, running)) = layout_of(front) {
            lemma_same_path(entries, path);
            match same_path(entries, path) {
                Some(i) => {
                    assert(entries[i].path == texts(front[i].path@));
                    assert(front[i] == specs[i]);
                    assert(texts(specs[i].path@) == texts(specs[n].path@));
                },
                None => {
                    if path_fault(path) is None {
                        assert forall|i: int, j: int| 0 <= i < j < specs.len() implies texts(
                            (#[trigger] specs[i]).path@,
                        ) != texts((#[trigger] specs[j]).path@) by {
                            assert(front[i] == specs[i]);
                            if j < n {
                                assert(front[j] == specs[j]);
                            } else {
                                assert(entries[i].path == texts(front[i].path@));
                                assert(entries[i].path != path);
                            }
                        }
                        assert forall|i: int| 0 <= i < specs.len() implies path_fault(
                            texts((#[trigger] specs[i]).path@),
                        ) is None by {
                            if i < n {
                                assert(front[i] == specs[i]);
                            }
                        }
                    }
                },
            }
            if layout_of(specs) is Ok {
                let (all, total) = layout_of(specs)->Ok_0;
                assert forall|i: int| 0 <= i < all.len() implies {
                    &&& (#[trigger] all[i]).torrent_offset == length_before(specs, i)
                    &&& all[i].length == specs[i].length
                    &&& all[i].path == texts(specs[i].path@)
                } by {
                    if i < n {
                        assert(all[i] == entries[i]);
                        assert(front[i] == specs[i]);
                        lemma_length_before_same(front, specs, i);
                    }
                }
            }
            assert(path_fault(path) is Some ==> path_fault(texts(specs[n].path@)) is Some);
        } else {
            if forall|i: int|
                0 <= i < specs.len() ==> path_fault(texts((#[trigger] specs[i]).path@)) is None {
                assert forall|i: int| 0 <= i < front.len() implies path_fault(
                    texts((#[trigger] front[i]).path@),
                ) is None by {
                    assert(specs[i] == front[i]);
                }
            }
            if forall|i: int, j: int|
                0 <= i < j < specs.len() ==> texts((#[trigger] specs[i]).path@) != texts(
                    (#[trigger] specs[j]).path@,
                ) {
                assert forall|i: int, j: int| 0 <= i < j < front.len() implies texts(
                    (#[trigger] front[i]).path@,
                ) != texts((#[trigger] front[j]).path@) by {
                    assert(specs[i] == front[i] && specs[j] == front[j]);
                }
            }
        }
    }
}

proof fn lemma_parents(entries: Seq<EntryModel>, p: Seq<Seq<char>>)
    ensures
        parents_of(entries).contains(p) <==> exists|i: int|
            0 <= i < entries.len() && (#[trigger] entries[i]).path.len() > 1
                && entries[i].path.drop_last() == p,
        parents_of(entries).contains(p) ==> 1 <= p.len() <= deepest(entries),
    decreases entries.len(),
{
    let all = parents_of(entries);
    if entries.len() > 0 {
        let front = entries.drop_last();
        let rest = parents_of(front);
        lemma_parents(front, p);
        if all.contains(p) {
            let k = choose|k: int| 0 <= k < all.len() && all[k] == p;
            if k < rest.len() {
                assert(rest[k] == p);
                let i = choose|i: int|
                    0 <= i < front.len() && (#[trigger] front[i]).path.len() > 1
                        && front[i].path.drop_last() == p;
                assert(entries[i] == front[i]);
            } else {
                assert(entries[entries.len() - 1].path.drop_last() == p);
            }
        }
        if exists|i: int|
            0 <= i < entries.len() && (#[trigger] entries[i]).path.len() > 1
                && entries[i].path.drop_last() == p {
            let i = choose|i: int|
                0 <= i < entries.len() && (#[trigger] entries[i]).path.len() > 1
                    && entries[i].path.drop_last() == p;
            if i < front.len() {
                assert(front[i] == entries[i]);
                let k = choose|k: int| 0 <= k < rest.len() && rest[k] == p;
                assert(all[k] == p);
            } else {
                assert(all[rest.len() as int] == p);
            }
        }
    }
}

proof fn lemma_of_depth(paths: Seq<Seq<Seq<char>>>, depth: nat, p: Seq<Seq<char>>)
    ensures
        of_depth(paths, depth).contains(p) <==> paths.contains(p) && p.len() == depth,
        forall|k: int|
            0 <= k < of_depth(paths, depth).len() ==> (#[trigger] of_depth(paths, depth)[k]).len()
                == depth,
    decreases paths.len(),
{
    let all = of_depth(paths, depth);
    if paths.len() > 0 {
        let front = paths.drop_last();
        let rest = of_depth(front, depth);
        lemma_of_depth(front, depth, p);
        if all.contains(p) {
            let k = choose|k: int| 0 <= k < all.len() && all[k] == p;
            if k < rest.len() {
                assert(rest[k] == p);
                let i = choose|i: int| 0 <= i < front.len() && front[i] == p;
                assert(paths[i] == p);
            } else {
                assert(paths[paths.len() - 1] == p);
            }
        }
        if paths.contains(p) && p.len() == depth {
            let i = choose|i: int| 0 <= i < paths.len() && paths[i] == p;
            if i < front.len() {
                assert(front[i] == p);
                let k = choose|k: int| 0 <= k < rest.len() && rest[k] == p;
                assert(all[k] == p);
            } else {
                assert(all[rest.len() as int] == p);
            }
        }
        assert forall|k: int| 0 <= k < all.len() implies (#[trigger] all[k]).len() == depth by {
            if k < rest.len() {
                assert(all[k] == rest[k]);
            }
        }
    }
}

proof fn lemma_deepest_first(paths: Seq<Seq<Seq<char>>>, depth: nat, p: Seq<Seq<char>>)
    ensures
        deepest_first(paths, depth).contains(p) <==> paths.contains(p) && 1 <= p.len() <= depth,
        forall|k: int|
            0 <= k < deepest_first(paths, depth).len() ==> 1 <= (#[trigger] deepest_first(
                paths,
                depth,
            )[k]).len() <= depth,
        forall|j: int, k: int|
            0 <= j < k < deepest_first(paths, depth).len() ==> (#[trigger] deepest_first(
                paths,
                depth,
            )[j]).len() >= (#[trigger] deepest_first(paths, depth)[k]).len(),
    decreases depth,
{
    if depth > 0 {
        let a = of_depth(paths, depth);
        let b = deepest_first(paths, (depth - 1) as nat);
        let all = a + b;
        lemma_of_depth(paths, depth, p);
        lemma_deepest_first(paths, (depth - 1) as nat, p);
        if all.contains(p) {
            let k = choose|k: int| 0 <= k < all.len() && all[k] == p;
            if k < a.len() {
                assert(a[k] == p);
                assert(a.contains(p));
            } else {
                assert(b[k - a.len()] == p);
                assert(b.contains(p));
            }
        }
        if paths.contains(p) && 1 <= p.len() <= depth {
            if p.len() == depth {
                let k = choose|k: int| 0 <= k < a.len() && a[k] == p;
                assert(all[k] == p);
            } else {
                let k = choose|k: int| 0 <= k < b.len() && b[k] == p;
                assert(all[a.len() + k] == p);
            }
        }
    }
}

proof fn lemma_without_repeats(paths: Seq<Seq<Seq<char>>>, p: Seq<Seq<char>>)
    ensures
        without_repeats(paths).contains(p) <==> paths.contains(p),
        paths.len() > 0 ==> without_repeats(paths).len() > 0 && without_repeats(paths).last()
            == paths.last(),
        (forall|j: int, k: int|
            0 <= j < k < paths.len() ==> (#[trigger] paths[j]).len() >= (#[trigger] paths[k]).len())
            ==> forall|j: int, k: int|
            0 <= j < k < without_repeats(paths).len() ==> (#[trigger] without_repeats(
                paths,
            )[j]).len() >= (#[trigger] without_repeats(paths)[k]).len(),
    decreases paths.len(),
{
    let all = without_repeats(paths);
    if paths.len() > 0 {
        let front = paths.drop_last();
        let rest = without_repeats(front);
        let n = paths.len() - 1;
        lemma_without_repeats(front, p);
        lemma_without_repeats(front, paths[n]);
        if all.contains(p) {
            let k = choose|k: int| 0 <= k < all.len() && all[k] == p;
            if k < rest.len() {
                assert(rest[k] == p);
                let i = choose|i: int| 0 <= i < front.len() && front[i] == p;
                assert(paths[i] == p);
            } else {
                assert(paths[n] == p);
            }
        }
        if paths.contains(p) {
            let i = choose|i: int| 0 <= i < paths.len() && paths[i] == p;
            if i < n {
                assert(front[i] == p);
                let k = choose|k: int| 0 <= k < rest.len() && rest[k] == p;
                assert(all[k] == p);
            } else if paths.len() > 1 && paths[n - 1] == paths[n] {
                assert(front[n - 1] == p);
                let k = choose|k: int| 0 <= k < rest.len() && rest[k] == p;
                assert(all[k] == p);
            } else {
                assert(all[rest.len() as int] == p);
            }
        }
        if paths.len() > 1 {
            assert(front.last() == paths[n - 1]);
        }
        if forall|j: int, k: int|
            0 <= j < k < paths.len() ==> (#[trigger] paths[j]).len() >= (#[trigger] paths[k]).len() {
            assert forall|j: int, k: int| 0 <= j < k < front.len() implies (
            #[trigger] front[j]).len() >= (#[trigger] front[k]).len() by {
                assert(paths[j] == front[j] && paths[k] == front[k]);
            }
            assert forall|j: int, k: int| 0 <= j < k < all.len() implies (#[trigger] all[j]).len()
                >= (#[trigger] all[k]).len() by {
                if k < rest.len() {
                    assert(all[j] == rest[j] && all[k] == rest[k]);
                } else {
                    assert(all[j] == rest[j]);
                    if j < rest.len() - 1 {
                        assert(rest[j].len() >= rest[rest.len() - 1].len());
                    }
                    assert(paths[n - 1].len() >= paths[n].len());
                }
            }
        }
    }
}

/// The directories to be removed are exactly those that files stood in below the
/// root, and none comes before one that lies deeper, so that a directory is empty
/// when its turn comes.
pub proof fn law_directories_go_deepest_first(entries: Seq<EntryModel>, p: Seq<Seq<char>>)
    ensures
        ({
            let dirs = without_repeats(deepest_first(parents_of(entries), deepest(entries)));
            &&& dirs.contains(p) <==> exists|i: int|
                0 <= i < entries.len() && (#[trigger] entries[i]).path.len() > 1
                    && entries[i].path.drop_last() == p
            &&& forall|j: int, k: int|
                0 <= j < k < dirs.len() ==> (#[trigger] dirs[j]).len() >= (#[trigger] dirs[k]).len()
        }),
{
    let parents = parents_of(entries);
    let sorted = deepest_first(parents, deepest(entries));
    lemma_parents(entries, p);
    lemma_deepest_first(parents, deepest(entries), p);
    lemma_without_repeats(sorted, p);
}

} // verus!
