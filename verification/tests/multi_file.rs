//! Torrents over several files.
use magpie_bt::session::info::{FileListV1, FileV1, Info, InfoV1};
use magpie_bt::storage::fd_pool::{FdKey, FdPool};
use magpie_bt::storage::file::{
    after_removal, next_prune, Direction, IoOutcome, Removal, Transfer, TransferFault,
    TransferTurn,
};
use magpie_bt::storage::multi_file::{
    specs_from_info, validate_path_components, validate_specs, FileLayout, FileSpec, MAX_ENTRIES,
    MAX_PATH_COMPONENT_LEN,
};
use magpie_bt::storage::opening::{FsAction, FsOutcome, Opening, RootProbe};
use magpie_bt::storage::{StorageError, StorageErrorKind};
use std::collections::{HashMap, HashSet};

fn spec(path: &[&str], length: u64) -> FileSpec {
    FileSpec {
        path: path.iter().map(|s| (*s).to_owned()).collect(),
        length,
    }
}

fn path_err(err: StorageError) -> String {
    match err.kind {
        StorageErrorKind::Path(msg) => msg,
        other => panic!("expected Path error, got {other:?}"),
    }
}

// ----- path validation -----

#[test]
fn empty_components_rejected() {
    let msg = path_err(validate_specs(&vec![spec(&[], 1)]).unwrap_err());
    assert!(msg.contains("no components"), "msg={msg}");
}

#[test]
fn empty_string_component_rejected() {
    let msg = path_err(validate_specs(&vec![spec(&["", "file.bin"], 1)]).unwrap_err());
    assert!(msg.contains("empty"), "msg={msg}");
}

#[test]
fn parent_dir_component_rejected() {
    let msg = path_err(validate_specs(&vec![spec(&["..", "evil.bin"], 1)]).unwrap_err());
    assert!(msg.contains("reserved"), "msg={msg}");
}

#[test]
fn current_dir_component_rejected() {
    let msg = path_err(validate_specs(&vec![spec(&[".", "file.bin"], 1)]).unwrap_err());
    assert!(msg.contains("reserved"), "msg={msg}");
}

#[test]
fn path_separator_in_component_rejected() {
    let msg = path_err(validate_specs(&vec![spec(&["a/b"], 1)]).unwrap_err());
    assert!(msg.contains("separator"), "msg={msg}");
}

#[test]
fn backslash_in_component_rejected() {
    let msg = path_err(validate_specs(&vec![spec(&["a\\b"], 1)]).unwrap_err());
    assert!(msg.contains("separator"), "msg={msg}");
}

#[test]
fn nul_byte_in_component_rejected() {
    let msg = path_err(validate_specs(&vec![spec(&["a\0b"], 1)]).unwrap_err());
    assert!(msg.contains("NUL"), "msg={msg}");
}

#[test]
fn absolute_component_rejected() {
    let msg = path_err(validate_specs(&vec![spec(&["/"], 1)]).unwrap_err());
    assert!(
        msg.contains("separator") || msg.contains("non-normal"),
        "msg={msg}"
    );
}

#[test]
fn duplicate_path_rejected() {
    let err = validate_specs(&vec![spec(&["a", "file.bin"], 1), spec(&["a", "file.bin"], 1)])
        .unwrap_err();
    assert!(path_err(err).contains("duplicates"));
}

#[test]
fn overflow_total_length_rejected() {
    let err = validate_specs(&vec![spec(&["a"], u64::MAX), spec(&["b"], 1)]).unwrap_err();
    assert!(path_err(err).contains("overflow"));
}

#[test]
fn happy_path_two_files() {
    let (entries, cap) = validate_specs(&vec![
        spec(&["dir", "first.bin"], 100),
        spec(&["dir", "second.bin"], 50),
    ])
    .unwrap();
    assert_eq!(cap, 150);
    assert_eq!(entries.len(), 2);
    assert_eq!(entries[0].torrent_offset, 0);
    assert_eq!(entries[0].length, 100);
    assert_eq!(entries[0].path, vec!["dir".to_owned(), "first.bin".to_owned()]);
    assert_eq!(entries[1].torrent_offset, 100);
    assert_eq!(entries[1].length, 50);
}

#[test]
fn happy_path_with_zero_length() {
    let (entries, cap) =
        validate_specs(&vec![spec(&["a"], 10), spec(&["b"], 0), spec(&["c"], 20)]).unwrap();
    assert_eq!(cap, 30);
    assert_eq!(entries[0].torrent_offset, 0);
    assert_eq!(entries[1].torrent_offset, 10);
    assert_eq!(entries[1].length, 0);
    assert_eq!(entries[2].torrent_offset, 10);
    assert_eq!(entries[2].length, 20);
}

#[test]
fn too_many_entries_rejected() {
    let specs: Vec<FileSpec> = (0..=MAX_ENTRIES)
        .map(|i| spec(&[&format!("f{i}")], 1))
        .collect();
    let err = validate_specs(&specs).unwrap_err();
    let msg = path_err(err);
    assert!(msg.contains("too many entries"), "msg={msg}");
}

#[test]
fn component_too_long_rejected() {
    let long = "a".repeat(MAX_PATH_COMPONENT_LEN + 1);
    let err = validate_specs(&vec![FileSpec {
        path: vec![long],
        length: 1,
    }])
    .unwrap_err();
    let msg = path_err(err);
    assert!(msg.contains("bytes"), "msg={msg}");
}

#[test]
fn component_at_limit_accepted() {
    // Exactly MAX_PATH_COMPONENT_LEN must be accepted (boundary).
    let at_limit = "a".repeat(MAX_PATH_COMPONENT_LEN);
    let (entries, _) = validate_specs(&vec![FileSpec {
        path: vec![at_limit],
        length: 1,
    }])
    .expect("exactly MAX_PATH_COMPONENT_LEN must be accepted");
    assert_eq!(entries.len(), 1);
}

#[test]
fn refusals_name_the_file() {
    let msg = path_err(validate_specs(&vec![spec(&["ok"], 1), spec(&["a\tb", ".."], 1)]).unwrap_err());
    assert!(msg.starts_with("entry 1: "), "msg={msg}");
    // Offending names are quoted with escapes.
    let why = validate_path_components(&vec!["a\t/b".to_owned()]).unwrap_err();
    assert!(why.contains("a\\t/b"), "why={why}");
    assert!(validate_path_components(&vec!["dir".to_owned(), "name".to_owned()]).is_ok());
}

// ----- open files -----

#[test]
fn fd_pool_cap_clamped() {
    assert_eq!(FdPool::<()>::with_cap(0).cap(), 4);
    assert_eq!(FdPool::<()>::with_cap(1_000_000).cap(), 65_536);
    assert_eq!(FdPool::<()>::with_cap(128).cap(), 128);
}

#[test]
fn default_cap_is_128() {
    assert_eq!(FdPool::<()>::default_cap(), 128);
    assert_eq!(FdPool::<()>::with_default_cap().cap(), 128);
}

/// The handle of a file, opened with the next number if need be.
fn get_or_open(pool: &mut FdPool<u64>, key: FdKey, now: u64) -> u64 {
    if let Some(i) = pool.get(key, now) {
        return *pool.handle(i);
    }
    pool.make_room();
    let fresh = pool.opens_total();
    pool.insert(key, fresh, now);
    fresh
}

#[test]
fn fd_pool_cache_hit_reuses_fd() {
    let mut pool = FdPool::with_cap(4);
    let key = FdKey { storage_id: 1, entry_idx: 0 };
    let a = get_or_open(&mut pool, key, 0);
    let b = get_or_open(&mut pool, key, 1);
    assert_eq!(a, b);
    assert_eq!(pool.opens_total(), 1);
}

#[test]
fn fd_pool_evicts_lru_at_cap() {
    let mut pool = FdPool::with_cap(4);
    let key = |i: u32| FdKey { storage_id: 1, entry_idx: i };
    for i in 0..4u32 {
        get_or_open(&mut pool, key(i), u64::from(i));
    }
    assert_eq!(pool.opens_total(), 4);
    // Touch f0 so f1 becomes LRU.
    get_or_open(&mut pool, key(0), 10);
    // Open f4 — forces eviction of f1.
    get_or_open(&mut pool, key(4), 11);
    assert_eq!(pool.opens_total(), 5);
    // f1 was evicted: re-open increments counter.
    get_or_open(&mut pool, key(1), 12);
    assert_eq!(pool.opens_total(), 6);
    // f0 still cached: hit does not increment.
    get_or_open(&mut pool, key(0), 13);
    assert_eq!(pool.opens_total(), 6);
}

#[test]
fn fd_pool_different_storage_ids_dont_collide() {
    let mut pool = FdPool::with_cap(4);
    get_or_open(&mut pool, FdKey { storage_id: 1, entry_idx: 0 }, 0);
    get_or_open(&mut pool, FdKey { storage_id: 2, entry_idx: 0 }, 1);
    assert_eq!(pool.opens_total(), 2);
}

// ----- layouts -----

/// Files in memory behind a layout.
struct Files {
    layout: FileLayout,
    data: Vec<Vec<u8>>,
}

impl Files {
    fn new(specs: Vec<FileSpec>) -> Files {
        let data = specs.iter().map(|s| vec![0u8; s.length as usize]).collect();
        Files { layout: FileLayout::new(&specs).unwrap(), data }
    }

    fn write_block(&mut self, offset: u64, buf: &[u8]) -> Result<(), StorageError> {
        for s in self.layout.segments(offset, buf.len())? {
            let at = s.file_offset as usize;
            self.data[s.entry][at..at + s.len].copy_from_slice(&buf[s.start..s.start + s.len]);
        }
        Ok(())
    }

    fn read_block(&self, offset: u64, buf: &mut [u8]) -> Result<(), StorageError> {
        for s in self.layout.segments(offset, buf.len())? {
            let at = s.file_offset as usize;
            buf[s.start..s.start + s.len].copy_from_slice(&self.data[s.entry][at..at + s.len]);
        }
        Ok(())
    }
}

#[test]
fn write_read_within_single_file() {
    let mut s = Files::new(vec![spec(&["a"], 100), spec(&["b"], 100)]);
    s.write_block(10, &[1, 2, 3, 4, 5]).unwrap();
    let mut out = [0u8; 5];
    s.read_block(10, &mut out).unwrap();
    assert_eq!(out, [1, 2, 3, 4, 5]);
}

#[test]
fn write_read_spans_two_files() {
    let mut s = Files::new(vec![spec(&["a"], 10), spec(&["b"], 10)]);
    // Write 4 bytes starting at offset 8 → 2 in file a, 2 in file b.
    s.write_block(8, &[1, 2, 3, 4]).unwrap();
    let mut out = [0u8; 4];
    s.read_block(8, &mut out).unwrap();
    assert_eq!(out, [1, 2, 3, 4]);
    assert_eq!(&s.data[0][8..10], &[1, 2]);
    assert_eq!(&s.data[1][0..2], &[3, 4]);
}

#[test]
fn write_read_spans_three_files_with_zero_in_middle() {
    let mut s = Files::new(vec![spec(&["a"], 5), spec(&["empty"], 0), spec(&["b"], 5)]);
    s.write_block(3, &[1, 2, 3, 4]).unwrap();
    let mut out = [0u8; 4];
    s.read_block(3, &mut out).unwrap();
    assert_eq!(out, [1, 2, 3, 4]);
    assert_eq!(&s.data[0][3..5], &[1, 2]);
    assert_eq!(&s.data[2][0..2], &[3, 4]);
}

#[test]
fn write_at_offset_zero_and_exact_boundary() {
    let mut s = Files::new(vec![spec(&["a"], 4), spec(&["b"], 4)]);
    s.write_block(0, &[1, 2, 3, 4, 5, 6, 7, 8]).unwrap();
    let mut out = [0u8; 8];
    s.read_block(0, &mut out).unwrap();
    assert_eq!(out, [1, 2, 3, 4, 5, 6, 7, 8]);
}

#[test]
fn read_past_capacity_is_out_of_bounds() {
    let s = Files::new(vec![spec(&["a"], 10)]);
    let mut buf = [0u8; 10];
    let err = s.read_block(5, &mut buf).unwrap_err();
    assert!(matches!(err.kind, StorageErrorKind::OutOfBounds { .. }));
}

#[test]
fn capacity_matches_sum_of_lengths() {
    let s = Files::new(vec![spec(&["a"], 3), spec(&["b"], 5), spec(&["c"], 7)]);
    assert_eq!(s.layout.capacity(), 15);
}

#[test]
fn layout_tells_its_files() {
    let layout =
        FileLayout::new(&vec![spec(&["x", "y", "a"], 3), spec(&["z"], 0), spec(&["x", "b"], 2)])
            .unwrap();
    assert_eq!(layout.len(), 3);
    assert_eq!(layout.entry(2).torrent_offset, 3);
    assert_eq!(layout.starting_entry(2), 0);
    assert_eq!(layout.starting_entry(4), 2);
    let dirs = layout.directories();
    assert!(dirs.contains(&vec!["x".to_owned(), "y".to_owned()]));
    assert!(dirs.contains(&vec!["x".to_owned()]));
}

// ----- info dictionaries -----

fn info_v1_multi(files: Vec<FileV1>) -> Info {
    Info {
        piece_length: 16_384,
        private: false,
        v1: Some(InfoV1 { pieces: vec![], files: FileListV1::Multi { files } }),
    }
}

#[test]
fn create_from_info_v1_multi_roundtrips() {
    let info = info_v1_multi(vec![
        FileV1 { length: 10, path: vec![b"a".to_vec()] },
        FileV1 { length: 10, path: vec![b"sub".to_vec(), b"b".to_vec()] },
    ]);
    let mut s = Files::new(specs_from_info(&info).unwrap());
    assert_eq!(s.layout.capacity(), 20);
    s.write_block(5, &[1, 2, 3, 4, 5, 6, 7, 8]).unwrap();
    let mut out = [0u8; 8];
    s.read_block(5, &mut out).unwrap();
    assert_eq!(out, [1, 2, 3, 4, 5, 6, 7, 8]);
}

#[test]
fn from_info_rejects_single_file() {
    let info = Info {
        piece_length: 16_384,
        private: false,
        v1: Some(InfoV1 { pieces: vec![], files: FileListV1::Single { length: 100 } }),
    };
    let msg = path_err(specs_from_info(&info).unwrap_err());
    assert!(msg.contains("single-file"), "msg={msg}");
}

#[test]
fn from_info_rejects_v2_only() {
    let info = Info { piece_length: 16_384, private: false, v1: None };
    let msg = path_err(specs_from_info(&info).unwrap_err());
    assert!(msg.contains("v2-only") || msg.contains("v1 info dict"), "msg={msg}");
}

#[test]
fn from_info_accepts_hybrid() {
    let info = info_v1_multi(vec![FileV1 { length: 10, path: vec![b"h".to_vec()] }]);
    let layout = FileLayout::new(&specs_from_info(&info).unwrap()).unwrap();
    assert_eq!(layout.capacity(), 10);
}

#[test]
fn from_info_rejects_non_utf8_path() {
    let info = info_v1_multi(vec![FileV1 { length: 10, path: vec![vec![0xff, 0xfe, 0xfd]] }]);
    let msg = path_err(specs_from_info(&info).unwrap_err());
    assert!(msg.contains("UTF-8"), "msg={msg}");
}

// ----- setting up on disk -----

type Names = Vec<Vec<u8>>;

/// A file system in memory, with a root at `/r`.
#[derive(Default)]
struct MemFs {
    files: HashMap<Names, u64>,
    dirs: HashSet<Names>,
    links: HashMap<Names, Names>,
}

fn names(path: &[&str]) -> Names {
    path.iter().map(|s| s.as_bytes().to_vec()).collect()
}

fn shown(path: &Names) -> String {
    path.iter().map(|n| format!("/{}", String::from_utf8_lossy(n))).collect()
}

impl MemFs {
    fn new() -> MemFs {
        let mut fs = MemFs::default();
        fs.dirs.insert(vec![]);
        fs.dirs.insert(names(&["r"]));
        fs
    }

    /// The path without symbolic links, if there is something there.
    fn resolve(&self, path: &Names) -> Option<Names> {
        let mut out: Names = vec![];
        for n in path {
            out.push(n.clone());
            if let Some(target) = self.links.get(&out) {
                out = target.clone();
            }
            if !self.dirs.contains(&out) && !self.files.contains_key(&out) {
                return None;
            }
        }
        Some(out)
    }

    fn perform(&mut self, root: &Names, specs: &[FileSpec], action: FsAction) -> FsOutcome {
        let full = |entry: usize| -> Names {
            let mut p = root.clone();
            p.extend(specs[entry].path.iter().map(|c| c.as_bytes().to_vec()));
            p
        };
        match action {
            FsAction::LookAtLeaf { entry } | FsAction::LookAgain { entry } => {
                if self.links.contains_key(&full(entry)) {
                    FsOutcome::Symlink
                } else {
                    FsOutcome::Done
                }
            }
            FsAction::Resolve { entry, up } => {
                let mut p = full(entry);
                p.truncate(p.len() - up);
                match self.resolve(&p) {
                    Some(names) => FsOutcome::Resolved { shown: shown(&names), names },
                    None => FsOutcome::NotFound,
                }
            }
            FsAction::CreateParents { entry } => {
                let p = full(entry);
                for n in 0..p.len() {
                    self.dirs.insert(p[..n].to_vec());
                }
                FsOutcome::Done
            }
            FsAction::CreateFile { entry } => {
                self.files.insert(full(entry), 0);
                FsOutcome::Done
            }
            FsAction::SetLength { entry, length } => {
                self.files.insert(full(entry), length);
                FsOutcome::Done
            }
            FsAction::Measure { entry } => match self.files.get(&full(entry)) {
                Some(n) => FsOutcome::Length(*n),
                None => FsOutcome::Failed {
                    shown: shown(&full(entry)),
                    why: String::from("no such file"),
                },
            },
        }
    }

    fn set_up(&mut self, specs: &Vec<FileSpec>, create: bool) -> Result<FileLayout, StorageError> {
        let root = names(&["r"]);
        let probe = RootProbe::Directory { names: root.clone(), shown: shown(&root) };
        let mut opening = Opening::start(probe, specs, create)?;
        while let Some(action) = opening.next() {
            let outcome = self.perform(&root, specs, action);
            opening.on_outcome(outcome)?;
        }
        Ok(opening.finish().expect("everything is in place"))
    }
}

#[test]
fn create_makes_files_with_declared_sizes() {
    let mut fs = MemFs::new();
    let specs = vec![spec(&["a"], 100), spec(&["sub", "b"], 50), spec(&["c"], 0)];
    let layout = fs.set_up(&specs, true).unwrap();
    assert_eq!(layout.capacity(), 150);
    assert_eq!(fs.files[&names(&["r", "a"])], 100);
    assert_eq!(fs.files[&names(&["r", "sub", "b"])], 50);
    assert_eq!(fs.files[&names(&["r", "c"])], 0);
}

#[test]
fn open_rejects_missing_file() {
    let mut fs = MemFs::new();
    let err = fs.set_up(&vec![spec(&["absent"], 1)], false).unwrap_err();
    assert!(matches!(err.kind, StorageErrorKind::Path(_)));
}

#[test]
fn open_rejects_wrong_length() {
    let mut fs = MemFs::new();
    fs.files.insert(names(&["r", "f"]), 5);
    let msg = path_err(fs.set_up(&vec![spec(&["f"], 100)], false).unwrap_err());
    assert!(msg.contains("has len"), "msg={msg}");
}

#[test]
fn open_from_info_resumes_existing() {
    let mut fs = MemFs::new();
    let info = info_v1_multi(vec![
        FileV1 { length: 10, path: vec![b"a".to_vec()] },
        FileV1 { length: 10, path: vec![b"b".to_vec()] },
    ]);
    let specs = specs_from_info(&info).unwrap();
    fs.set_up(&specs, true).unwrap();
    let layout = fs.set_up(&specs, false).unwrap();
    assert_eq!(layout.capacity(), 20);
}

#[test]
fn dangling_symlink_leaf_rejected() {
    let mut fs = MemFs::new();
    fs.links.insert(names(&["r", "evil"]), names(&["nonexistent", "target"]));
    let msg = path_err(fs.set_up(&vec![spec(&["evil"], 10)], true).unwrap_err());
    assert!(msg.contains("symlink"), "msg={msg}");
    assert!(fs.files.is_empty());
}

#[test]
fn symlink_escape_rejected() {
    let mut fs = MemFs::new();
    fs.dirs.insert(names(&["outside"]));
    fs.links.insert(names(&["r", "escape"]), names(&["outside"]));
    let msg = path_err(fs.set_up(&vec![spec(&["escape", "hosed"], 1)], true).unwrap_err());
    assert!(msg.contains("outside") || msg.contains("resolves"), "msg={msg}");
    assert!(fs.files.is_empty());
}

#[test]
fn a_root_must_be_a_directory() {
    let specs = vec![spec(&["a"], 1)];
    let root = RootProbe::NotDirectory { shown: "/f".to_owned() };
    let msg = path_err(Opening::start(root, &specs, true).unwrap_err());
    assert_eq!(msg, "root /f is not a directory");
    let root = RootProbe::Unresolved { shown: "/g".to_owned(), why: "gone".to_owned() };
    let msg = path_err(Opening::start(root, &specs, true).unwrap_err());
    assert_eq!(msg, "cannot canonicalise root /g: gone");
}

// ----- transfers and removal -----

#[test]
fn delete_removes_files_and_empty_dirs() {
    let specs = vec![spec(&["d1", "a"], 10), spec(&["d1", "b"], 10), spec(&["d2", "c"], 10)];
    let layout = FileLayout::new(&specs).unwrap();
    let mut fs = MemFs::new();
    fs.set_up(&specs, true).unwrap();
    for i in 0..layout.len() {
        let mut p = names(&["r"]);
        p.extend(layout.entry(i).path.iter().map(|c| c.as_bytes().to_vec()));
        let outcome = match fs.files.remove(&p) {
            Some(_) => Removal::Removed,
            None => Removal::NotFound,
        };
        after_removal(outcome).unwrap();
    }
    for dir in layout.directories() {
        let mut depth = Some(dir.len());
        while let Some(d) = depth {
            let mut p = names(&["r"]);
            p.extend(dir[..d].iter().map(|c| c.as_bytes().to_vec()));
            let empty = fs.files.keys().chain(fs.dirs.iter()).all(|q| {
                q.len() <= p.len() || q[..p.len()] != p[..]
            });
            let removed = empty && fs.dirs.remove(&p);
            depth = next_prune(d, removed);
        }
    }
    assert!(!fs.dirs.contains(&names(&["r", "d1"])));
    assert!(!fs.dirs.contains(&names(&["r", "d2"])));
    // Root itself is preserved.
    assert!(fs.dirs.contains(&names(&["r"])));
    assert!(after_removal(Removal::Failed("busy".to_owned())).is_err());
}

#[test]
fn transfers_go_on_until_everything_was_moved() {
    let mut t = Transfer::new(Direction::Write, 100, 10);
    assert_eq!(t.next(), Some((0, 100)));
    assert!(matches!(t.on_outcome(IoOutcome::Moved(4)), TransferTurn::Again));
    assert_eq!(t.next(), Some((4, 104)));
    assert!(matches!(t.on_outcome(IoOutcome::Interrupted), TransferTurn::Again));
    assert!(matches!(t.on_outcome(IoOutcome::Moved(6)), TransferTurn::Finished));
    assert_eq!(t.next(), None);
}

#[test]
fn transfers_that_stall_fail() {
    let mut w = Transfer::new(Direction::Write, 0, 1);
    assert!(matches!(
        w.on_outcome(IoOutcome::Moved(0)),
        TransferTurn::Failed(TransferFault::WriteZero)
    ));
    let mut r = Transfer::new(Direction::Read, 0, 1);
    assert!(matches!(
        r.on_outcome(IoOutcome::Moved(0)),
        TransferTurn::Failed(TransferFault::UnexpectedEof)
    ));
    let mut f = Transfer::new(Direction::Read, 0, 1);
    assert!(matches!(
        f.on_outcome(IoOutcome::Failed("x".to_owned())),
        TransferTurn::Failed(TransferFault::Backend(_))
    ));
}
