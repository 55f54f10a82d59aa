//! Setting a layout up on disk: which steps are taken on the file system, in
//! which order, and what is made of their outcomes.
//!
//! A path of the file system is the sequence of its names below the file
//! system's root. Text that shows a path or a failure comes with the outcome.
use crate::lex::bytes_equal;
use crate::storage::error::StorageError;
use crate::storage::multi_file::{
    display_path, joined_path, law_layout_is_contiguous, validated, EntryModel, FileLayout, FileSpec,
};
use crate::text::{number_text, push_number, text};
use vstd::prelude::*;

verus! {

/// What was found at the download root.
#[derive(Debug)]
pub enum RootProbe {
    /// The root could not be resolved.
    Unresolved {
        /// The root as it was given.
        shown: String,
        /// The failure.
        why: String,
    },
    /// The root is something else than a directory.
    NotDirectory {
        /// The resolved root.
        shown: String,
    },
    /// The root is a directory.
    Directory {
        /// The resolved root.
        names: Vec<Vec<u8>>,
        /// The resolved root.
        shown: String,
    },
}

/// A step on the file system.
#[derive(Debug, Clone, Copy, PartialEq, Eq, Structural)]
pub enum FsAction {
    /// See whether the file's path is a symbolic link.
    LookAtLeaf {
        /// The file.
        entry: usize,
    },
    /// Resolve the file's path after `up` names were taken off its end.
    Resolve {
        /// The file.
        entry: usize,
        /// How many names to take off.
        up: usize,
    },
    /// Create the directories above the file.
    CreateParents {
        /// The file.
        entry: usize,
    },
    /// See again whether the file's path is a symbolic link.
    LookAgain {
        /// The file.
        entry: usize,
    },
    /// Create the file, or empty it.
    CreateFile {
        /// The file.
        entry: usize,
    },
    /// Give the file its length.
    SetLength {
        /// The file.
        entry: usize,
        /// The length.
        length: u64,
    },
    /// Find the file's length.
    Measure {
        /// The file.
        entry: usize,
    },
}

/// What came of a step.
#[derive(Debug)]
pub enum FsOutcome {
    /// It was done, or there is no symbolic link.
    Done,
    /// There is a symbolic link.
    Symlink,
    /// The path resolves.
    Resolved {
        /// To this path.
        names: Vec<Vec<u8>>,
        /// To this path.
        shown: String,
    },
    /// There is nothing at the path.
    NotFound,
    /// The file's length.
    Length(u64),
    /// It failed.
    Failed {
        /// The path that was tried.
        shown: String,
        /// The failure.
        why: String,
    },
}

/// The outcome by value.
pub enum OutcomeModel {
    /// It was done, or there is no symbolic link.
    Done,
    /// There is a symbolic link.
    Symlink,
    /// The path resolves.
    Resolved(Seq<Seq<u8>>, Seq<char>),
    /// There is nothing at the path.
    NotFound,
    /// The file's length.
    Length(u64),
    /// It failed.
    Failed(Seq<char>, Seq<char>),
}

/// The names of a path.
pub open spec fn names_view(names: Seq<Vec<u8>>) -> Seq<Seq<u8>> {
    Seq::new(names.len(), |i: int| names[i]@)
}

impl View for FsOutcome {
    type V = OutcomeModel;

    open spec fn view(&self) -> OutcomeModel {
        match self {
            FsOutcome::Done => OutcomeModel::Done,
            FsOutcome::Symlink => OutcomeModel::Symlink,
            FsOutcome::Resolved { names, shown } => OutcomeModel::Resolved(
                names_view(names@),
                shown@,
            ),
            FsOutcome::NotFound => OutcomeModel::NotFound,
            FsOutcome::Length(n) => OutcomeModel::Length(*n),
            FsOutcome::Failed { shown, why } => OutcomeModel::Failed(shown@, why@),
        }
    }
}

/// The outcome is one that the step can have.
pub open spec fn answers(action: FsAction, outcome: OutcomeModel) -> bool {
    match action {
        FsAction::LookAtLeaf { .. } | FsAction::LookAgain { .. } => outcome is Done
            || outcome is Symlink,
        FsAction::Resolve { .. } => outcome is Resolved || outcome is NotFound || outcome is Failed,
        FsAction::Measure { .. } => outcome is Length || outcome is Failed,
        _ => outcome is Done || outcome is Failed,
    }
}

/// Where the work stands.
#[derive(Debug, Clone, Copy, PartialEq, Eq, Structural)]
pub enum Stage {
    /// This step comes next.
    Next(FsAction),
    /// Everything is in place.
    Ready,
    /// A step failed.
    Refused,
}

/// A layout that is being set up, by value.
#[verifier::ext_equal]
pub struct OpeningModel {
    /// The files.
    pub entries: Seq<EntryModel>,
    /// The names of the resolved root.
    pub root: Seq<Seq<u8>>,
    /// The resolved root as text.
    pub root_shown: Seq<char>,
    /// The files are to be created.
    pub create: bool,
    /// Where the work stands.
    pub stage: Stage,
}

/// `path` is `root` or below it.
pub open spec fn within(root: Seq<Seq<u8>>, path: Seq<Seq<u8>>) -> bool {
    root.len() <= path.len() && path.take(root.len() as int) == root
}

/// A path below the root as text.
pub open spec fn full_path(root_shown: Seq<char>, path: Seq<Seq<char>>) -> Seq<char> {
    if root_shown.len() > 0 && root_shown.last() == '/' {
        root_shown + joined_path(path)
    } else {
        root_shown + "/"@ + joined_path(path)
    }
}

/// What is said of file `idx`.
pub open spec fn of_entry(idx: int, msg: Seq<char>) -> Seq<char> {
    "entry "@ + number_text(idx as nat) + ": "@ + msg
}

impl OpeningModel {
    /// The file's full path as text.
    pub open spec fn full(self, i: int) -> Seq<char> {
        full_path(self.root_shown, self.entries[i].path)
    }

    /// The number of names that can be taken off a file's path.
    pub open spec fn height(self, i: int) -> int {
        (self.root.len() + self.entries[i].path.len()) as int
    }

    /// The stage names a file that there is, and no more names than there are.
    pub open spec fn wf(self) -> bool {
        match self.stage {
            Stage::Next(FsAction::LookAtLeaf { entry }) => entry < self.entries.len(),
            Stage::Next(FsAction::Resolve { entry, up }) => entry < self.entries.len() && up
                <= self.height(entry as int),
            Stage::Next(FsAction::CreateParents { entry }) => entry < self.entries.len()
                && self.create,
            Stage::Next(FsAction::LookAgain { entry }) => entry < self.entries.len() && self.create,
            Stage::Next(FsAction::CreateFile { entry }) => entry < self.entries.len()
                && self.create,
            Stage::Next(FsAction::SetLength { entry, length }) => entry < self.entries.len()
                && self.create && length == self.entries[entry as int].length,
            Stage::Next(FsAction::Measure { entry }) => entry < self.entries.len() && !self.create,
            _ => true,
        }
    }

    /// The stage at which the files from `i` on are created or measured.
    pub open spec fn filling(self, i: int) -> Stage {
        if i >= self.entries.len() {
            Stage::Ready
        } else if self.create {
            Stage::Next(FsAction::CreateParents { entry: i as usize })
        } else {
            Stage::Next(FsAction::Measure { entry: i as usize })
        }
    }

    /// The stage at which the paths from `i` on are looked at.
    pub open spec fn checking(self, i: int) -> Stage {
        if i >= self.entries.len() {
            self.filling(0)
        } else {
            Stage::Next(FsAction::LookAtLeaf { entry: i as usize })
        }
    }

    /// What follows on an attempt to resolve the path of file `i`.
    pub open spec fn after_resolve(self, i: int, up: int, outcome: OutcomeModel) -> Result<
        Stage,
        Seq<char>,
    > {
        match outcome {
            OutcomeModel::Resolved(names, shown) => if within(self.root, names) {
                Ok(self.checking(i + 1))
            } else {
                Err(
                    self.full(i) + " resolves to "@ + shown + ", which is outside "@
                        + self.root_shown,
                )
            },
            OutcomeModel::NotFound => if up < self.height(i) {
                Ok(Stage::Next(FsAction::Resolve { entry: i as usize, up: (up + 1) as usize }))
            } else {
                Err("cannot resolve any ancestor of "@ + self.full(i))
            },
            OutcomeModel::Failed(shown, why) => Err("cannot canonicalise "@ + shown + ": "@ + why),
            _ => Ok(self.stage),
        }
    }

    /// What follows on finding the length of file `i`.
    pub open spec fn after_measure(self, i: int, outcome: OutcomeModel) -> Result<
        Stage,
        Seq<char>,
    > {
        match outcome {
            OutcomeModel::Length(n) => if n == self.entries[i].length {
                Ok(self.filling(i + 1))
            } else {
                Err(
                    self.full(i) + " has len "@ + number_text(n as nat) + " (expected "@
                        + number_text(self.entries[i].length as nat) + ")"@,
                )
            },
            OutcomeModel::Failed(_, why) => Err(self.full(i) + " missing: "@ + why),
            _ => Ok(self.stage),
        }
    }

    /// What follows on the outcome of `action`: the next stage, or what is said
    /// of the file.
    pub open spec fn after(self, action: FsAction, outcome: OutcomeModel) -> Result<
        Stage,
        Seq<char>,
    > {
        match action {
            FsAction::LookAtLeaf { entry } => if outcome is Symlink {
                Err(self.full(entry as int) + " exists as a symlink; refusing to open through it"@)
            } else {
                Ok(Stage::Next(FsAction::Resolve { entry, up: 0 }))
            },
            FsAction::Resolve { entry, up } => self.after_resolve(entry as int, up as int, outcome),
            FsAction::CreateParents { entry } => match outcome {
                OutcomeModel::Failed(_, why) => Err(
                    "cannot create parent dirs for "@ + self.full(entry as int) + ": "@ + why,
                ),
                _ => Ok(Stage::Next(FsAction::LookAgain { entry })),
            },
            FsAction::LookAgain { entry } => if outcome is Symlink {
                Err(
                    self.full(entry as int)
                        + " exists as a symlink; refusing to create through it"@,
                )
            } else {
                Ok(Stage::Next(FsAction::CreateFile { entry }))
            },
            FsAction::CreateFile { entry } => match outcome {
                OutcomeModel::Failed(_, why) => Err(
                    "cannot create "@ + self.full(entry as int) + ": "@ + why,
                ),
                _ => Ok(
                    Stage::Next(
                        FsAction::SetLength { entry, length: self.entries[entry as int].length },
                    ),
                ),
            },
            FsAction::SetLength { entry, length } => match outcome {
                OutcomeModel::Failed(_, why) => Err(
                    "set_len("@ + number_text(length as nat) + ") failed on "@ + self.full(
                        entry as int,
                    ) + ": "@ + why,
                ),
                _ => Ok(self.filling(entry + 1)),
            },
            FsAction::Measure { entry } => self.after_measure(entry as int, outcome),
        }
    }
}

/// The file that a step is about.
pub open spec fn entry_of(action: FsAction) -> int {
    match action {
        FsAction::LookAtLeaf { entry } => entry as int,
        FsAction::Resolve { entry, .. } => entry as int,
        FsAction::CreateParents { entry } => entry as int,
        FsAction::LookAgain { entry } => entry as int,
        FsAction::CreateFile { entry } => entry as int,
        FsAction::SetLength { entry, .. } => entry as int,
        FsAction::Measure { entry } => entry as int,
    }
}

/// A layout that is being set up.
#[derive(Debug)]
pub struct Opening {
    layout: FileLayout,
    root: Vec<Vec<u8>>,
    root_shown: String,
    create: bool,
    stage: Stage,
}

/// Whether `path` is `root` or below it.
fn is_within(root: &Vec<Vec<u8>>, path: &Vec<Vec<u8>>) -> (r: bool)
    ensures
        r == within(names_view(root@), names_view(path@)),
{
    let ghost a = names_view(root@);
    let ghost b = names_view(path@);
    if root.len() > path.len() {
        return false;
    }
    let mut i: usize = 0;
    while i < root.len()
        invariant
            i <= root@.len() <= path@.len(),
            a == names_view(root@),
            b == names_view(path@),
            forall|j: int| 0 <= j < i ==> a[j] == b[j],
        decreases root@.len() - i,
    {
        if !bytes_equal(root[i].as_slice(), path[i].as_slice()) {
            assert(a[i as int] != b[i as int]);
            assert(b.take(a.len() as int)[i as int] == b[i as int]);
            return false;
        }
        i = i + 1;
    }
    assert(b.take(a.len() as int) =~= a);
    true
}

impl Opening {
    /// The layout that is being set up, by value.
    pub closed spec fn view(&self) -> OpeningModel {
        OpeningModel {
            entries: self.layout@,
            root: names_view(self.root@),
            root_shown: self.root_shown@,
            create: self.create,
            stage: self.stage,
        }
    }

    /// The length of the torrent.
    pub closed spec fn size(&self) -> u64 {
        self.layout.size()
    }

    /// The layout and the stage are sound.
    pub closed spec fn wf(&self) -> bool {
        &&& self.layout.wf()
        &&& self@.wf()
        &&& self@.entries.len() <= usize::MAX
        &&& forall|i: int|
            0 <= i < self@.entries.len() ==> (#[trigger] self@.height(i)) <= usize::MAX
    }

    /// Begins to set the declared files up below a root. A root that is no
    /// directory is refused, then what [`FileLayout::new`] refuses.
    pub fn start(root: RootProbe, files: &Vec<FileSpec>, create: bool) -> (r: Result<
        Opening,
        StorageError,
    >)
        requires
            root matches RootProbe::Directory { names, .. } ==> forall|i: int|
                0 <= i < files@.len() ==> names@.len() + (#[trigger] files@[i]).path@.len()
                    <= usize::MAX,
        ensures
            match root {
                RootProbe::Unresolved { shown, why } => r is Err && r->Err_0.path_text() == Some(
                    "cannot canonicalise root "@ + shown@ + ": "@ + why@,
                ),
                RootProbe::NotDirectory { shown } => r is Err && r->Err_0.path_text() == Some(
                    "root "@ + shown@ + " is not a directory"@,
                ),
                RootProbe::Directory { names, shown } => match (r, validated(files@)) {
                    (Ok(opening), Ok((want, sum))) => {
                        &&& opening.wf()
                        &&& opening@.entries == want
                        &&& opening.size() == sum
                        &&& opening@.root == names_view(names@)
                        &&& opening@.root_shown == shown@
                        &&& opening@.create == create
                        &&& opening@.stage == opening@.checking(0)
                    },
                    (Err(e), Err(why)) => e.path_text() == Some(why),
                    _ => false,
                },
            },
    {
        match root {
            RootProbe::Unresolved { shown, why } => {
                let mut msg = text("cannot canonicalise root ");
                msg.push_str(shown.as_str());
                msg.push_str(": ");
                msg.push_str(why.as_str());
                Err(StorageError::path(msg))
            },
            RootProbe::NotDirectory { shown } => {
                let mut msg = text("root ");
                msg.push_str(shown.as_str());
                msg.push_str(" is not a directory");
                Err(StorageError::path(msg))
            },
            RootProbe::Directory { names, shown } => match FileLayout::new(files) {
                Err(e) => Err(e),
                Ok(layout) => {
                    proof {
                        law_layout_is_contiguous(files@);
                    }
                    let stage = if layout.len() == 0 {
                        Stage::Ready
                    } else {
                        Stage::Next(FsAction::LookAtLeaf { entry: 0 })
                    };
                    Ok(Opening { layout, root: names, root_shown: shown, create, stage })
                },
            },
        }
    }

    /// The step to take next, if there is one left.
    pub fn next(&self) -> (r: Option<FsAction>)
        ensures
            r == (match self@.stage {
                Stage::Next(action) => Some(action),
                _ => None,
            }),
    {
        match self.stage {
            Stage::Next(action) => Some(action),
            _ => None,
        }
    }

    /// The layout, once everything is in place.
    pub fn finish(self) -> (r: Option<FileLayout>)
        requires
            self.wf(),
        ensures
            match r {
                Some(layout) => self@.stage is Ready && layout.wf() && layout@ == self@.entries
                    && layout.size() == self.size(),
                None => !(self@.stage is Ready),
            },
    {
        match self.stage {
            Stage::Ready => Some(self.layout),
            _ => None,
        }
    }

    /// The file's full path as text.
    pub fn full(&self, i: usize) -> (r: String)
        requires
            i < self@.entries.len(),
        ensures
            r@ == self@.full(i as int),
    {
        let mut out = self.root_shown.clone();
        if !ends_with_slash(&self.root_shown) {
            out.push_str("/");
        }
        out.push_str(display_path(&self.layout.entry(i).path).as_str());
        out
    }

    /// The file's full path with text behind it.
    fn said(&self, i: usize, tail: &str) -> (r: String)
        requires
            i < self@.entries.len(),
        ensures
            r@ == self@.full(i as int) + tail@,
    {
        let mut out = self.full(i);
        out.push_str(tail);
        out
    }

    fn filling(&self, i: usize) -> (r: Stage)
        ensures
            r == self@.filling(i as int),
    {
        if i >= self.layout.len() {
            Stage::Ready
        } else if self.create {
            Stage::Next(FsAction::CreateParents { entry: i })
        } else {
            Stage::Next(FsAction::Measure { entry: i })
        }
    }

    fn checking(&self, i: usize) -> (r: Stage)
        ensures
            r == self@.checking(i as int),
    {
        if i >= self.layout.len() {
            self.filling(0)
        } else {
            Stage::Next(FsAction::LookAtLeaf { entry: i })
        }
    }

    fn after_resolve(&self, i: usize, up: usize, outcome: &FsOutcome) -> (r: Result<Stage, String>)
        requires
            self.wf(),
            i < self@.entries.len(),
            up <= self@.height(i as int),
        ensures
            matches_verdict(r, self@.after_resolve(i as int, up as int, outcome@)),
    {
        match outcome {
            FsOutcome::Resolved { names, shown } => if is_within(&self.root, names) {
                Ok(self.checking(i + 1))
            } else {
                let mut msg = self.said(i, " resolves to ");
                msg.push_str(shown.as_str());
                msg.push_str(", which is outside ");
                msg.push_str(self.root_shown.as_str());
                Err(msg)
            },
            FsOutcome::NotFound => {
                let depth: usize = self.layout.entry(i).path.len();
                assert(self@.entries[i as int].path.len() == depth);
                assert(self@.height(i as int) == self.root@.len() + depth);
                if up < self.root.len() + depth {
                    Ok(Stage::Next(FsAction::Resolve { entry: i, up: up + 1 }))
                } else {
                    let mut msg = text("cannot resolve any ancestor of ");
                    msg.push_str(self.full(i).as_str());
                    Err(msg)
                }
            },
            FsOutcome::Failed { shown, why } => {
                let mut msg = text("cannot canonicalise ");
                msg.push_str(shown.as_str());
                msg.push_str(": ");
                msg.push_str(why.as_str());
                Err(msg)
            },
            _ => Ok(self.stage),
        }
    }

    fn after_measure(&self, i: usize, outcome: &FsOutcome) -> (r: Result<Stage, String>)
        requires
            self.wf(),
            i < self@.entries.len(),
        ensures
            matches_verdict(r, self@.after_measure(i as int, outcome@)),
    {
        let length: u64 = self.layout.entry(i).length;
        match outcome {
            FsOutcome::Length(n) => if *n == length {
                Ok(self.filling(i + 1))
            } else {
                let mut msg = self.said(i, " has len ");
                push_number(&mut msg, *n);
                msg.push_str(" (expected ");
                push_number(&mut msg, length);
                msg.push_str(")");
                Err(msg)
            },
            FsOutcome::Failed { why, .. } => {
                let mut msg = self.said(i, " missing: ");
                msg.push_str(why.as_str());
                Err(msg)
            },
            _ => Ok(self.stage),
        }
    }

    /// `head`, the file's full path, and the failure.
    fn failing(&self, head: &str, i: usize, why: &String) -> (r: String)
        requires
            i < self@.entries.len(),
        ensures
            r@ == head@ + self@.full(i as int) + ": "@ + why@,
    {
        let mut msg = text(head);
        msg.push_str(self.full(i).as_str());
        msg.push_str(": ");
        msg.push_str(why.as_str());
        msg
    }

    fn after(&self, action: FsAction, outcome: &FsOutcome) -> (r: Result<Stage, String>)
        requires
            self.wf(),
            self@.stage == Stage::Next(action),
        ensures
            matches_verdict(r, self@.after(action, outcome@)),
    {
        match action {
            FsAction::LookAtLeaf { entry } => match outcome {
                FsOutcome::Symlink => Err(
                    self.said(entry, " exists as a symlink; refusing to open through it"),
                ),
                _ => Ok(Stage::Next(FsAction::Resolve { entry, up: 0 })),
            },
            FsAction::Resolve { entry, up } => self.after_resolve(entry, up, outcome),
            FsAction::CreateParents { entry } => match outcome {
                FsOutcome::Failed { why, .. } => Err(
                    self.failing("cannot create parent dirs for ", entry, why),
                ),
                _ => Ok(Stage::Next(FsAction::LookAgain { entry })),
            },
            FsAction::LookAgain { entry } => match outcome {
                FsOutcome::Symlink => Err(
                    self.said(entry, " exists as a symlink; refusing to create through it"),
                ),
                _ => Ok(Stage::Next(FsAction::CreateFile { entry })),
            },
            FsAction::CreateFile { entry } => match outcome {
                FsOutcome::Failed { why, .. } => Err(self.failing("cannot create ", entry, why)),
                _ => Ok(
                    Stage::Next(
                        FsAction::SetLength { entry, length: self.layout.entry(entry).length },
                    ),
                ),
            },
            FsAction::SetLength { entry, length } => match outcome {
                FsOutcome::Failed { why, .. } => {
                    let mut head = text("set_len(");
                    push_number(&mut head, length);
                    head.push_str(") failed on ");
                    Err(self.failing(head.as_str(), entry, why))
                },
                _ => {
                        Ok(self.filling(entry + 1))
                },
            },
            FsAction::Measure { entry } => self.after_measure(entry, outcome),
        }
    }

    /// Takes note of what came of the step that [`Opening::next`] named. A
    /// failure names the file and ends the work.
    pub fn on_outcome(&mut self, outcome: FsOutcome) -> (r: Result<(), StorageError>)
        requires
            old(self).wf(),
            old(self)@.stage matches Stage::Next(action) && answers(action, outcome@),
        ensures
            final(self).wf(),
            final(self).size() == old(self).size(),
            ({
                let action = old(self)@.stage->Next_0;
                match old(self)@.after(action, outcome@) {
                    Ok(stage) => r is Ok && final(self)@ == (OpeningModel { stage, ..old(self)@ }),
                    Err(msg) => r is Err && r->Err_0.path_text() == Some(
                        of_entry(entry_of(action), msg),
                    ) && final(self)@ == (OpeningModel { stage: Stage::Refused, ..old(self)@ }),
                }
            }),
    {
        let ghost before = self@;
        if let Stage::Next(action) = self.stage {
            assert(before.height(entry_of(action)) <= usize::MAX);
            match self.after(action, &outcome) {
                Ok(stage) => {
                    proof {
                        law_opening_stays_sound(self@, action, outcome@);
                    }
                    self.stage = stage;
                    assert(self@ =~= OpeningModel { stage, ..before });
                    assert forall|i: int| 0 <= i < self@.entries.len() implies (
                    #[trigger] self@.height(i)) <= usize::MAX by {
                        assert(before.height(i) <= usize::MAX);
                    }
                    Ok(())
                },
                Err(msg) => {
                    self.stage = Stage::Refused;
                    assert(self@ =~= OpeningModel { stage: Stage::Refused, ..before });
                    assert forall|i: int| 0 <= i < self@.entries.len() implies (
                    #[trigger] self@.height(i)) <= usize::MAX by {
                        assert(before.height(i) <= usize::MAX);
                    }
                    let entry: usize = match action {
                        FsAction::LookAtLeaf { entry } => entry,
                        FsAction::Resolve { entry, .. } => entry,
                        FsAction::CreateParents { entry } => entry,
                        FsAction::LookAgain { entry } => entry,
                        FsAction::CreateFile { entry } => entry,
                        FsAction::SetLength { entry, .. } => entry,
                        FsAction::Measure { entry } => entry,
                    };
                    let mut why = text("entry ");
                    push_number(&mut why, entry as u64);
                    why.push_str(": ");
                    why.push_str(msg.as_str());
                    Err(StorageError::path(why))
                },
            }
        } else {
            Ok(())
        }
    }
}

/// The result is the verdict.
pub open spec fn matches_verdict(
    r: Result<Stage, String>,
    verdict: Result<Stage, Seq<char>>,
) -> bool {
    match (r, verdict) {
        (Ok(a), Ok(b)) => a == b,
        (Err(a), Err(b)) => a@ == b,
        _ => false,
    }
}

/// Whether a string ends with a slash.
fn ends_with_slash(s: &String) -> (r: bool)
    ensures
        r == (s@.len() > 0 && s@.last() == '/'),
{
    let mut last: bool = false;
    for c in it: s.as_str().chars()
        invariant
            it.seq() == s@,
            last == (it.index() > 0 && s@[it.index() - 1] == '/'),
    {
        last = c == '/';
    }
    last
}

/// Every step leads to a stage that is sound.
pub proof fn law_opening_stays_sound(m: OpeningModel, action: FsAction, outcome: OutcomeModel)
    requires
        m.wf(),
        m.stage == Stage::Next(action),
        m.entries.len() <= usize::MAX,
        m.height(entry_of(action)) <= usize::MAX,
        answers(action, outcome),
        m.after(action, outcome) is Ok,
    ensures
        (OpeningModel { stage: m.after(action, outcome)->Ok_0, ..m }).wf(),
{
}

/// How far the work has come: the paths are looked at first, then the files are
/// created or measured, file by file.
pub open spec fn progress(stage: Stage) -> (int, int, int) {
    match stage {
        Stage::Next(FsAction::LookAtLeaf { entry }) => (0, entry as int, 0),
        Stage::Next(FsAction::Resolve { entry, up }) => (0, entry as int, 1 + up),
        Stage::Next(FsAction::CreateParents { entry }) => (1, entry as int, 0),
        Stage::Next(FsAction::LookAgain { entry }) => (1, entry as int, 1),
        Stage::Next(FsAction::CreateFile { entry }) => (1, entry as int, 2),
        Stage::Next(FsAction::SetLength { entry, .. }) => (1, entry as int, 3),
        Stage::Next(FsAction::Measure { entry }) => (1, entry as int, 0),
        Stage::Ready => (2, 0, 0),
        Stage::Refused => (2, 0, 0),
    }
}

/// `a` comes before `b`.
pub open spec fn sooner(a: (int, int, int), b: (int, int, int)) -> bool {
    a.0 < b.0 || (a.0 == b.0 && (a.1 < b.1 || (a.1 == b.1 && a.2 < b.2)))
}

/// Every step that does not fail brings the work forward, within bounds: it
/// comes to an end.
pub proof fn law_opening_moves_forward(m: OpeningModel, action: FsAction, outcome: OutcomeModel)
    requires
        m.wf(),
        m.stage == Stage::Next(action),
        m.entries.len() <= usize::MAX,
        m.height(entry_of(action)) <= usize::MAX,
        answers(action, outcome),
        m.after(action, outcome) is Ok,
    ensures
        ({
            let after = progress(m.after(action, outcome)->Ok_0);
            &&& sooner(progress(m.stage), after)
            &&& after.0 <= 2
            &&& after.1 <= m.entries.len()
            &&& after.2 <= 4 + m.height(after.1)
        }),
{
}

/// The work goes past the path of a file only when that path, or its nearest
/// ancestor that there is, resolves to the root or below it; and no file is
/// created or measured before that was seen of the last one.
pub proof fn law_no_file_before_every_path_is_inside(
    m: OpeningModel,
    action: FsAction,
    outcome: OutcomeModel,
)
    requires
        m.wf(),
        m.stage == Stage::Next(action),
        m.entries.len() <= usize::MAX,
        m.height(entry_of(action)) <= usize::MAX,
        answers(action, outcome),
        progress(m.stage).0 == 0,
        m.after(action, outcome) is Ok,
        ({
            let after = progress(m.after(action, outcome)->Ok_0);
            after.0 > 0 || after.1 != entry_of(action)
        }),
    ensures
        action is Resolve,
        outcome is Resolved && within(m.root, outcome->Resolved_0),
        m.after(action, outcome)->Ok_0 == m.checking(entry_of(action) + 1),
        progress(m.after(action, outcome)->Ok_0).0 > 0 ==> entry_of(action) == m.entries.len() - 1,
{
}

/// An existing file is taken only when it has the declared length.
pub proof fn law_opened_file_has_its_length(
    m: OpeningModel,
    entry: usize,
    outcome: OutcomeModel,
)
    requires
        m.wf(),
        m.stage == Stage::Next(FsAction::Measure { entry }),
        answers(FsAction::Measure { entry }, outcome),
    ensures
        m.after(FsAction::Measure { entry }, outcome) is Ok <==> outcome == OutcomeModel::Length(
            m.entries[entry as int].length,
        ),
{
}

/// The step at which file `i` is first created or measured, or the end behind the
/// last file.
pub open spec fn begins_filling(m: OpeningModel, i: int, stage: Stage) -> bool {
    &&& i >= m.entries.len() ==> stage is Ready
    &&& (i < m.entries.len() && m.create) ==> stage == Stage::Next(
        FsAction::CreateParents { entry: i as usize },
    )
    &&& (i < m.entries.len() && !m.create) ==> stage == Stage::Next(
        FsAction::Measure { entry: i as usize },
    )
}

/// Each step that goes well leads on, file by file: from a look at the file's path
/// to resolving it, upwards until something is there; once all paths were looked
/// at, to making directories, looking again, creating the file and giving it its
/// declared length. Each step that fails, finds a link in the file's place, or
/// resolves outside the root, refuses the whole.
pub proof fn law_steps_follow_each_other(m: OpeningModel, action: FsAction, outcome: OutcomeModel)
    requires
        m.wf(),
        m.stage == Stage::Next(action),
        m.entries.len() <= usize::MAX,
        m.height(entry_of(action)) <= usize::MAX,
        answers(action, outcome),
    ensures
        ({
            let r = m.after(action, outcome);
            let i = entry_of(action);
            &&& 0 <= i < m.entries.len()
            &&& (outcome is Failed || outcome is Symlink) ==> r is Err
            &&& (action is LookAtLeaf && outcome is Done) ==> r == Ok::<Stage, Seq<char>>(
                Stage::Next(FsAction::Resolve { entry: i as usize, up: 0 }),
            )
            &&& (action matches FsAction::Resolve { up, .. } ==> {
                &&& (outcome is NotFound && up < m.root.len() + m.entries[i].path.len()) ==> r
                    == Ok::<Stage, Seq<char>>(
                    Stage::Next(FsAction::Resolve { entry: i as usize, up: (up + 1) as usize }),
                )
                &&& (outcome is NotFound && up >= m.root.len() + m.entries[i].path.len())
                    ==> r is Err
                &&& (outcome matches OutcomeModel::Resolved(names, _) ==> {
                    let inside = m.root.len() <= names.len() && forall|k: int|
                        0 <= k < m.root.len() ==> #[trigger] names[k] == m.root[k];
                    &&& !inside ==> r is Err
                    &&& inside ==> r is Ok
                    &&& (inside && i + 1 < m.entries.len()) ==> r->Ok_0 == Stage::Next(
                        FsAction::LookAtLeaf { entry: (i + 1) as usize },
                    )
                    &&& (inside && i + 1 == m.entries.len()) ==> begins_filling(m, 0, r->Ok_0)
                })
            })
            &&& (action is CreateParents && outcome is Done) ==> r == Ok::<Stage, Seq<char>>(
                Stage::Next(FsAction::LookAgain { entry: i as usize }),
            )
            &&& (action is LookAgain && outcome is Done) ==> r == Ok::<Stage, Seq<char>>(
                Stage::Next(FsAction::CreateFile { entry: i as usize }),
            )
            &&& (action is CreateFile && outcome is Done) ==> r == Ok::<Stage, Seq<char>>(
                Stage::Next(
                    FsAction::SetLength { entry: i as usize, length: m.entries[i].length },
                ),
            )
            &&& (action is SetLength && outcome is Done) ==> r is Ok && begins_filling(
                m,
                i + 1,
                r->Ok_0,
            )
            &&& (action is Measure && outcome == OutcomeModel::Length(m.entries[i].length))
                ==> r is Ok && begins_filling(m, i + 1, r->Ok_0)
            &&& (action is Measure && outcome != OutcomeModel::Length(m.entries[i].length))
                ==> r is Err
        }),
{
    if let OutcomeModel::Resolved(names, _) = outcome {
        if m.root.len() <= names.len() {
            if forall|k: int| 0 <= k < m.root.len() ==> #[trigger] names[k] == m.root[k] {
                assert(names.take(m.root.len() as int) =~= m.root);
            } else {
                let k = choose|k: int| 0 <= k < m.root.len() && #[trigger] names[k] != m.root[k];
                assert(names.take(m.root.len() as int)[k] == names[k]);
            }
        }
    }
}

} // verus!
