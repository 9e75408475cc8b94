//! The scan is driven here over an in-memory file tree: each action the walk
//! asks for is carried out on the tree or on a map standing for the cache.

use camembert::scanner::{
    new_scan, skeleton_entries, EntryType, RawEntry, ScanAction, ScanEvent, ScanProgress,
};
use camembert::{DiskEntry, EntryKind};
use std::collections::HashMap;

#[derive(Clone, Debug)]
enum Node {
    File(u64),
    Dir(Vec<(String, Node)>),
}

/// A file tree; paths are lists of folder names from the top.
struct Fs {
    top: Vec<(String, Node)>,
}

type Cache = HashMap<Vec<String>, Vec<DiskEntry>>;

fn path(parts: &[&str]) -> Vec<String> {
    parts.iter().map(|s| s.to_string()).collect()
}

impl Fs {
    fn new() -> Self {
        Fs { top: Vec::new() }
    }

    fn dir_mut<'a>(mut children: &'a mut Vec<(String, Node)>, folder: &[&str]) -> &'a mut Vec<(String, Node)> {
        for part in folder {
            let pos = match children.iter().position(|(n, _)| n == part) {
                Some(p) => p,
                None => {
                    children.push((part.to_string(), Node::Dir(Vec::new())));
                    children.len() - 1
                }
            };
            children = match &mut children[pos].1 {
                Node::Dir(c) => c,
                Node::File(_) => panic!("{part} is a file"),
            };
        }
        children
    }

    fn mkdir(&mut self, folder: &[&str]) {
        Self::dir_mut(&mut self.top, folder);
    }

    fn write_file(&mut self, folder: &[&str], name: &str, bytes: u64) {
        Self::dir_mut(&mut self.top, folder).push((name.to_string(), Node::File(bytes)));
    }

    fn remove(&mut self, target: &[&str]) {
        let (last, parent) = target.split_last().unwrap();
        Self::dir_mut(&mut self.top, parent).retain(|(n, _)| n != last);
    }

    /// Lists the folder at `at`, numbering each child by its position in
    /// `paths`, where its full path is kept.
    fn read_dir(&self, at: &[String], paths: &mut Vec<Vec<String>>) -> Option<Vec<RawEntry>> {
        let mut children = &self.top;
        for part in at {
            match children.iter().find(|(n, _)| n == part) {
                Some((_, Node::Dir(c))) => children = c,
                _ => return None,
            }
        }
        let mut items = Vec::new();
        for (name, node) in children {
            let handle = paths.len() as u64;
            let mut full = at.to_vec();
            full.push(name.clone());
            paths.push(full);
            items.push(match node {
                Node::File(len) => RawEntry { name: name.clone(), handle, entry_type: EntryType::File, len: Some(*len) },
                Node::Dir(_) => RawEntry { name: name.clone(), handle, entry_type: EntryType::Dir, len: None },
            });
        }
        Some(items)
    }
}

fn joined(root: &[String], rel: &[String]) -> Vec<String> {
    root.iter().chain(rel.iter()).cloned().collect()
}

/// Progress with the paths made absolute.
#[derive(Debug, PartialEq)]
enum Seen {
    Entered(Vec<String>),
    TopLevelDone(String, u64),
}

fn scan_cached_with_progress(fs: &Fs, root: &[&str], cache: &mut Cache, seen: &mut Vec<Seen>) -> Result<Vec<DiskEntry>, ()> {
    let root = path(root);
    let mut paths: Vec<Vec<String>> = vec![root.clone()];
    let mut scan = new_scan();
    let mut event = ScanEvent::Begin;
    loop {
        assert!(scan.step_fits(&event));
        event = match scan.step(event) {
            ScanAction::LookupCache(p, h) => {
                assert_eq!(joined(&root, &p), paths[h as usize]);
                ScanEvent::Looked(cache.get(&paths[h as usize]).cloned())
            }
            ScanAction::ReadDir(_, h) => {
                let at = paths[h as usize].clone();
                ScanEvent::Listed(fs.read_dir(&at, &mut paths))
            }
            ScanAction::Report(ScanProgress::Entered(p, h)) => {
                assert_eq!(joined(&root, &p), paths[h as usize]);
                seen.push(Seen::Entered(paths[h as usize].clone()));
                ScanEvent::Continue
            }
            ScanAction::Report(ScanProgress::TopLevelDone { name, bytes }) => {
                seen.push(Seen::TopLevelDone(name, bytes));
                ScanEvent::Continue
            }
            ScanAction::Store(p, h, entries) => {
                assert_eq!(joined(&root, &p), paths[h as usize]);
                cache.insert(paths[h as usize].clone(), entries);
                ScanEvent::Continue
            }
            ScanAction::Proceed => ScanEvent::Continue,
            ScanAction::Done(entries) => return Ok(entries),
            ScanAction::Failed => return Err(()),
        };
    }
}

fn scan_first_level_cached(fs: &Fs, root: &[&str], cache: &mut Cache) -> Result<Vec<DiskEntry>, ()> {
    scan_cached_with_progress(fs, root, cache, &mut Vec::new())
}

fn scan_first_level(fs: &Fs, root: &[&str]) -> Result<Vec<DiskEntry>, ()> {
    scan_first_level_cached(fs, root, &mut Cache::new())
}

fn list_first_level(fs: &Fs, root: &[&str]) -> Result<Vec<DiskEntry>, ()> {
    fs.read_dir(&path(root), &mut Vec::new()).map(|items| skeleton_entries(&items)).ok_or(())
}

fn by_name(mut v: Vec<DiskEntry>) -> Vec<DiskEntry> {
    v.sort_by(|a, b| a.name.cmp(&b.name));
    v
}

const ROOT: &[&str] = &["tmp", "scan"];

fn fresh() -> Fs {
    let mut fs = Fs::new();
    fs.mkdir(ROOT);
    fs
}

fn under(rest: &[&'static str]) -> Vec<&'static str> {
    ROOT.iter().chain(rest.iter()).copied().collect()
}

#[test]
fn scanning_an_empty_folder_returns_no_entries() {
    let fs = fresh();
    assert!(scan_first_level(&fs, ROOT).unwrap().is_empty());
}

#[test]
fn scanning_a_folder_with_files_reports_each_files_size() {
    let mut fs = fresh();
    fs.write_file(ROOT, "report.pdf", 1234);
    fs.write_file(ROOT, "song.mp3", 5000);
    let entries = by_name(scan_first_level(&fs, ROOT).unwrap());
    assert_eq!(entries, vec![DiskEntry::file("report.pdf", 1234), DiskEntry::file("song.mp3", 5000)]);
}

#[test]
fn scanning_aggregates_a_subfolders_contents_into_a_single_entry() {
    let mut fs = fresh();
    fs.write_file(&under(&["Photos"]), "img1.jpg", 1000);
    fs.write_file(&under(&["Photos"]), "img2.jpg", 2000);
    assert_eq!(scan_first_level(&fs, ROOT).unwrap(), vec![DiskEntry::folder("Photos", 3000)]);
}

#[test]
fn scanning_recurses_through_nested_subfolders() {
    let mut fs = fresh();
    fs.write_file(&under(&["project", "src"]), "main.rs", 500);
    fs.write_file(&under(&["project", "target", "debug"]), "out", 1500);
    assert_eq!(scan_first_level(&fs, ROOT).unwrap(), vec![DiskEntry::folder("project", 2000)]);
}

#[test]
fn scanning_keeps_top_level_files_and_folders_separate() {
    let mut fs = fresh();
    fs.write_file(ROOT, "root_file.txt", 100);
    fs.write_file(&under(&["Documents"]), "cv.pdf", 2000);
    let entries = by_name(scan_first_level(&fs, ROOT).unwrap());
    assert_eq!(entries, vec![DiskEntry::folder("Documents", 2000), DiskEntry::file("root_file.txt", 100)]);
}

#[test]
fn scanning_a_nonexistent_path_returns_an_error() {
    let fs = fresh();
    let result = scan_first_level(&fs, &["Z:", "this", "path", "does", "not", "exist", "disk-camembert-test"]);
    assert!(result.is_err(), "expected an io::Error, got {:?}", result);
}

#[test]
fn scanning_a_file_path_instead_of_a_folder_returns_an_error() {
    let mut fs = fresh();
    fs.write_file(ROOT, "solo.txt", 2);
    let result = scan_first_level(&fs, &under(&["solo.txt"]));
    assert!(result.is_err(), "expected an io::Error, got {:?}", result);
}

#[test]
fn scanning_a_parent_populates_the_cache_for_its_immediate_subfolders() {
    let mut fs = fresh();
    fs.write_file(&under(&["Photos"]), "img1.jpg", 1000);
    fs.write_file(&under(&["Photos"]), "img2.jpg", 2000);
    let mut cache = Cache::new();
    scan_first_level_cached(&fs, ROOT, &mut cache).unwrap();
    let cached_photos = cache.get(&path(&under(&["Photos"]))).expect("Photos must be cached");
    assert_eq!(
        by_name(cached_photos.clone()),
        vec![DiskEntry::file("img1.jpg", 1000), DiskEntry::file("img2.jpg", 2000)]
    );
}

#[test]
fn scanning_populates_the_cache_for_deeply_nested_descendants_too() {
    let mut fs = fresh();
    fs.write_file(&under(&["project", "src"]), "main.rs", 500);
    let mut cache = Cache::new();
    scan_first_level_cached(&fs, ROOT, &mut cache).unwrap();
    assert!(cache.contains_key(&path(&under(&["project"]))));
    assert!(cache.contains_key(&path(&under(&["project", "src"]))));
}

#[test]
fn drilling_into_a_cached_child_does_not_need_a_fresh_filesystem_scan() {
    let mut fs = fresh();
    fs.write_file(&under(&["Photos"]), "img.jpg", 5000);
    let mut cache = Cache::new();
    scan_first_level_cached(&fs, ROOT, &mut cache).unwrap();
    fs.remove(&under(&["Photos"]));
    let drilled = scan_first_level_cached(&fs, &under(&["Photos"]), &mut cache).unwrap();
    assert_eq!(drilled, vec![DiskEntry::file("img.jpg", 5000)]);
}

#[test]
fn a_second_call_for_the_same_root_returns_cached_entries() {
    let mut fs = fresh();
    fs.write_file(ROOT, "a.txt", 100);
    let mut cache = Cache::new();
    let first = scan_first_level_cached(&fs, ROOT, &mut cache).unwrap();
    fs.remove(ROOT);
    let second = scan_first_level_cached(&fs, ROOT, &mut cache).unwrap();
    assert_eq!(first, second);
}

#[test]
fn cached_folder_total_equals_sum_of_its_first_level_entries() {
    let mut fs = fresh();
    fs.write_file(&under(&["project", "src"]), "main.rs", 500);
    fs.write_file(&under(&["project", "src"]), "lib.rs", 300);
    fs.write_file(&under(&["project"]), "README.md", 200);
    let mut cache = Cache::new();
    let scan = scan_first_level_cached(&fs, ROOT, &mut cache).unwrap();
    let project_total = scan.iter().find(|e| e.name == "project").unwrap().bytes;
    let cached_sum: u64 = cache.get(&path(&under(&["project"]))).unwrap().iter().map(|e| e.bytes).sum();
    assert_eq!(project_total, cached_sum, "parent's reported total must match cached child entries");
}

#[test]
fn cached_scan_of_a_nonexistent_path_returns_an_error() {
    let fs = fresh();
    let mut cache = Cache::new();
    let result = scan_first_level_cached(&fs, &["Z:", "nope", "nope", "nope", "disk-camembert-test"], &mut cache);
    assert!(result.is_err());
}

#[test]
fn scanning_a_parent_reuses_cached_subfolder_data_without_re_walking_the_disk() {
    let mut fs = fresh();
    fs.write_file(&under(&["Photos"]), "real.jpg", 100);
    let mut cache = Cache::new();
    cache.insert(path(&under(&["Photos"])), vec![DiskEntry::file("fake.jpg", 99_999)]);
    let entries = scan_first_level_cached(&fs, ROOT, &mut cache).unwrap();
    let photos_entry = entries.iter().find(|e| e.name == "Photos").expect("Photos must be in scan output");
    assert_eq!(photos_entry.bytes, 99_999, "parent scan must reuse cached child data instead of re-walking");
}

#[test]
fn list_first_level_returns_immediate_children_with_zero_bytes() {
    let mut fs = fresh();
    fs.write_file(ROOT, "report.pdf", 1234);
    fs.write_file(&under(&["Photos"]), "img.jpg", 9999);
    let entries = by_name(list_first_level(&fs, ROOT).unwrap());
    assert_eq!(entries.len(), 2);
    assert_eq!(entries[0].name, "Photos");
    assert_eq!(entries[0].bytes, 0);
    assert_eq!(entries[0].kind, EntryKind::Folder);
    assert_eq!(entries[1].name, "report.pdf");
    assert_eq!(entries[1].bytes, 0);
    assert_eq!(entries[1].kind, EntryKind::File);
}

#[test]
fn list_first_level_does_not_recurse_into_subfolders() {
    let mut fs = fresh();
    fs.write_file(&under(&["a", "b", "c"]), "deep.txt", 100);
    let entries = list_first_level(&fs, ROOT).unwrap();
    assert_eq!(entries.len(), 1);
    assert_eq!(entries[0].name, "a");
    assert_eq!(entries[0].bytes, 0);
}

#[test]
fn list_first_level_propagates_io_errors_for_nonexistent_paths() {
    let fs = fresh();
    assert!(list_first_level(&fs, &["Z:", "definitely", "does", "not", "exist"]).is_err());
}

#[test]
fn progress_emits_top_level_done_for_each_immediate_child() {
    let mut fs = fresh();
    fs.write_file(ROOT, "report.pdf", 1234);
    fs.write_file(&under(&["Photos"]), "img.jpg", 5000);
    let mut seen = Vec::new();
    scan_cached_with_progress(&fs, ROOT, &mut Cache::new(), &mut seen).unwrap();
    let mut events: Vec<(String, u64)> = seen
        .into_iter()
        .filter_map(|s| match s {
            Seen::TopLevelDone(name, bytes) => Some((name, bytes)),
            Seen::Entered(_) => None,
        })
        .collect();
    events.sort();
    assert_eq!(events, vec![("Photos".to_string(), 5000), ("report.pdf".to_string(), 1234)]);
}

fn entered(seen: &[Seen]) -> Vec<Vec<String>> {
    seen.iter()
        .filter_map(|s| match s {
            Seen::Entered(p) => Some(p.clone()),
            Seen::TopLevelDone(..) => None,
        })
        .collect()
}

#[test]
fn progress_entered_path_includes_at_least_each_subfolder_we_descend_into() {
    let mut fs = fresh();
    fs.write_file(&under(&["Documents", "Invoices"]), "jan.pdf", 100);
    let mut seen = Vec::new();
    scan_cached_with_progress(&fs, ROOT, &mut Cache::new(), &mut seen).unwrap();
    let entered = entered(&seen);
    assert!(entered.contains(&path(ROOT)));
    assert!(entered.contains(&path(&under(&["Documents"]))));
    assert!(entered.contains(&path(&under(&["Documents", "Invoices"]))));
}

#[test]
fn progress_does_not_re_enter_subtrees_already_in_cache() {
    let mut fs = fresh();
    fs.write_file(&under(&["Documents", "Invoices"]), "jan.pdf", 100);
    fs.write_file(&under(&["Videos"]), "movie.mp4", 5000);
    let mut cache = Cache::new();
    cache.insert(path(&under(&["Documents"])), vec![DiskEntry::folder("Invoices", 100)]);
    cache.insert(path(&under(&["Documents", "Invoices"])), vec![DiskEntry::file("jan.pdf", 100)]);
    let mut seen = Vec::new();
    scan_cached_with_progress(&fs, ROOT, &mut cache, &mut seen).unwrap();
    let entered = entered(&seen);
    assert!(
        !entered.contains(&path(&under(&["Documents"]))),
        "Documents was already cached — should not be re-entered, got {:?}",
        entered
    );
    assert!(
        !entered.contains(&path(&under(&["Documents", "Invoices"]))),
        "Invoices was already cached — should not be re-entered, got {:?}",
        entered
    );
    assert!(
        entered.contains(&path(&under(&["Videos"]))),
        "Videos is not cached — should have been entered, got {:?}",
        entered
    );
}

#[test]
fn progress_callback_emits_no_events_for_a_cache_hit() {
    let fs = fresh();
    let mut cache = Cache::new();
    cache.insert(path(ROOT), vec![DiskEntry::folder("preexisting", 42)]);
    let mut seen = Vec::new();
    scan_cached_with_progress(&fs, ROOT, &mut cache, &mut seen).unwrap();
    assert_eq!(seen.len(), 0, "cache hit must not emit progress");
}

// ---- further cases ----

#[test]
fn links_other_kinds_and_unreadable_entries_are_left_out() {
    let items = vec![
        RawEntry { handle: 1, name: "link".into(), entry_type: EntryType::Symlink, len: None },
        RawEntry { handle: 1, name: "sock".into(), entry_type: EntryType::Other, len: None },
        RawEntry { handle: 1, name: "gone".into(), entry_type: EntryType::Unreadable, len: None },
        RawEntry { handle: 1, name: "f".into(), entry_type: EntryType::File, len: Some(7) },
        RawEntry { handle: 1, name: "d".into(), entry_type: EntryType::Dir, len: None },
    ];
    assert_eq!(skeleton_entries(&items), vec![DiskEntry::file("f", 0), DiskEntry::folder("d", 0)]);
}

#[test]
fn a_file_whose_length_cannot_be_read_counts_as_empty_and_order_is_kept() {
    // Driven by hand: the root lists a file of unknown length and a link.
    let mut scan = new_scan();
    assert!(matches!(scan.step(ScanEvent::Begin), ScanAction::LookupCache(p, 0) if p.is_empty()));
    assert!(matches!(scan.step(ScanEvent::Looked(None)), ScanAction::ReadDir(p, 0) if p.is_empty()));
    let listing = vec![
        RawEntry { handle: 1, name: "b".into(), entry_type: EntryType::File, len: None },
        RawEntry { handle: 1, name: "l".into(), entry_type: EntryType::Symlink, len: None },
        RawEntry { handle: 1, name: "a".into(), entry_type: EntryType::File, len: Some(3) },
    ];
    assert!(matches!(scan.step(ScanEvent::Listed(Some(listing))), ScanAction::Report(ScanProgress::Entered(p, 0)) if p.is_empty()));
    assert!(matches!(scan.step(ScanEvent::Continue), ScanAction::Report(ScanProgress::TopLevelDone { ref name, bytes: 0 }) if name == "b"));
    assert!(matches!(scan.step(ScanEvent::Continue), ScanAction::Proceed));
    assert!(matches!(scan.step(ScanEvent::Continue), ScanAction::Report(ScanProgress::TopLevelDone { ref name, bytes: 3 }) if name == "a"));
    match scan.step(ScanEvent::Continue) {
        ScanAction::Store(p, 0, es) => {
            assert!(p.is_empty());
            assert_eq!(es, vec![DiskEntry::file("b", 0), DiskEntry::file("a", 3)]);
        }
        other => panic!("unexpected {other:?}"),
    }
    match scan.step(ScanEvent::Continue) {
        ScanAction::Done(es) => assert_eq!(es, vec![DiskEntry::file("b", 0), DiskEntry::file("a", 3)]),
        other => panic!("unexpected {other:?}"),
    }
}

#[test]
fn an_unreadable_subfolder_counts_as_empty() {
    let mut scan = new_scan();
    scan.step(ScanEvent::Begin);
    scan.step(ScanEvent::Looked(None));
    let listing = vec![RawEntry { handle: 1, name: "locked".into(), entry_type: EntryType::Dir, len: None }];
    scan.step(ScanEvent::Listed(Some(listing)));
    assert!(matches!(scan.step(ScanEvent::Continue), ScanAction::LookupCache(p, 1) if p == vec!["locked".to_string()]));
    assert!(matches!(scan.step(ScanEvent::Looked(None)), ScanAction::Report(ScanProgress::Entered(_, 1))));
    assert!(matches!(scan.step(ScanEvent::Continue), ScanAction::ReadDir(_, 1)));
    assert!(matches!(scan.step(ScanEvent::Listed(None)), ScanAction::Proceed));
    assert!(matches!(scan.step(ScanEvent::Continue), ScanAction::Store(p, 1, es) if p == vec!["locked".to_string()] && es.is_empty()));
    assert!(matches!(scan.step(ScanEvent::Continue), ScanAction::Report(ScanProgress::TopLevelDone { bytes: 0, .. })));
}

#[test]
fn driving_the_walk_out_of_turn_fails_it() {
    let mut scan = new_scan();
    assert!(matches!(scan.step(ScanEvent::Continue), ScanAction::Failed));
}

#[test]
fn children_shown_under_the_same_name_are_told_apart_by_their_number() {
    // Two folders whose names show the same once made readable.
    let mut scan = new_scan();
    scan.step(ScanEvent::Begin);
    scan.step(ScanEvent::Looked(None));
    let listing = vec![
        RawEntry { handle: 1, name: "dup\u{FFFD}".into(), entry_type: EntryType::Dir, len: None },
        RawEntry { handle: 2, name: "dup\u{FFFD}".into(), entry_type: EntryType::Dir, len: None },
    ];
    scan.step(ScanEvent::Listed(Some(listing)));
    assert!(matches!(scan.step(ScanEvent::Continue), ScanAction::LookupCache(_, 1)));
    assert!(matches!(scan.step(ScanEvent::Looked(Some(vec![DiskEntry::file("x", 5)]))), ScanAction::Report(_)));
    assert!(matches!(scan.step(ScanEvent::Continue), ScanAction::LookupCache(_, 2)));
    assert!(matches!(scan.step(ScanEvent::Looked(None)), ScanAction::Report(ScanProgress::Entered(_, 2))));
    assert!(matches!(scan.step(ScanEvent::Continue), ScanAction::ReadDir(_, 2)));
    assert!(matches!(scan.step(ScanEvent::Listed(Some(vec![]))), ScanAction::Proceed));
    assert!(matches!(scan.step(ScanEvent::Continue), ScanAction::Store(_, 2, _)));
}
