use tuxcleaner::analyze::{
    analysis_root, analysis_rules, assemble_report, can_report, plan_child, plan_children, start_child, start_sizing,
    AnalysisError, AnalysisReport, ChildEntry, ChildPlan, PathMetadata, Sizing,
};
use tuxcleaner::model::{CleanupAction, CleanupGroup, Risk};
use tuxcleaner::path::FilePath;
use tuxcleaner::stream::{
    begin_stream, bucket_of, can_close, read_failure, resolve_failure, skipped_so_far, stream_buckets, take_large_files,
    Flusher, ScanUpdate, StreamBucket,
};
use tuxcleaner::walk::{
    check_large_file, is_excluded_large_file, is_hidden_component, should_skip_name, DirectoryEntry, EntryKind,
    FileMetadata, LargeFile, LargeFileRule, TreeWalk, WalkRules,
};

const ROOT: &str = "/home/user";

/// A tree of directories in memory.
struct Disk {
    listings: Vec<(FilePath, Vec<DirectoryEntry>)>,
}

impl Disk {
    fn new() -> Self {
        Disk { listings: vec![(FilePath::from_text(ROOT), Vec::new())] }
    }

    fn dir(mut self, relative: &str) -> Self {
        let mut at = FilePath::from_text(ROOT);
        for name in relative.split('/') {
            let next = at.child(&name.as_bytes().to_vec());
            if !self.listings.iter().any(|(path, _)| *path == next) {
                self.add(&at, name.as_bytes(), EntryKind::Directory);
                self.listings.push((next.clone(), Vec::new()));
            }
            at = next;
        }
        self
    }

    fn entry(mut self, relative: &str, kind: EntryKind) -> Self {
        let (parent, name) = match relative.rsplit_once('/') {
            Some((parent, name)) => (FilePath::from_text(&format!("{ROOT}/{parent}")), name),
            None => (FilePath::from_text(ROOT), relative),
        };
        self.add(&parent, name.as_bytes(), kind);
        self
    }

    fn file(self, relative: &str, size: u64) -> Self {
        self.entry(relative, EntryKind::File(FileMetadata { size, modified_unix: Some(7) }))
    }

    fn add(&mut self, parent: &FilePath, name: &[u8], kind: EntryKind) {
        for (path, entries) in self.listings.iter_mut() {
            if path == parent {
                entries.push(DirectoryEntry { name: name.to_vec(), kind });
            }
        }
    }

    fn list(&self, dir: &FilePath) -> Option<Vec<DirectoryEntry>> {
        self.listings.iter().find(|(path, _)| path == dir).map(|(_, entries)| {
            entries.iter().map(|entry| DirectoryEntry { name: entry.name.clone(), kind: entry.kind }).collect()
        })
    }

    fn children(&self) -> Option<Vec<ChildEntry>> {
        self.list(&FilePath::from_text(ROOT)).map(|entries| {
            entries
                .into_iter()
                .map(|entry| {
                    let resolves_to_dir = matches!(entry.kind, EntryKind::Directory | EntryKind::Symlink);
                    ChildEntry { entry, resolves_to_dir }
                })
                .collect()
        })
    }
}

/// Lists one directory after the other.
fn walk_through(disk: &Disk, walk: &mut TreeWalk, cancelled: bool) {
    while let Some(dir) = walk.next_dir(cancelled) {
        let listing = disk.list(&dir.path);
        assert!(walk.try_absorb(&dir, &listing));
    }
}

/// Lists all the directories that are known at once, and takes them in backwards.
fn walk_at_once(disk: &Disk, walk: &mut TreeWalk) {
    loop {
        let mut dirs = Vec::new();
        while let Some(dir) = walk.next_dir(false) {
            dirs.push(dir);
        }
        if dirs.is_empty() {
            return;
        }
        for dir in dirs.iter().rev() {
            let listing = disk.list(&dir.path);
            walk.absorb(dir, &listing);
        }
    }
}

fn prepared(disk: &Disk, minimum_size: u64, max_depth: usize) -> (Vec<ChildPlan>, Vec<TreeWalk>, u64) {
    let root = FilePath::from_text(ROOT);
    let (plans, skipped) = plan_children(&root, &disk.children());
    let walks = plans.iter().map(|plan| start_child(plan, analysis_rules(&root, minimum_size, max_depth))).collect();
    (plans, walks, skipped)
}

fn analyze(disk: &Disk, minimum_size: u64, max_depth: usize) -> AnalysisReport {
    let (plans, mut walks, skipped) = prepared(disk, minimum_size, max_depth);
    for walk in walks.iter_mut() {
        walk_through(disk, walk, false);
    }
    assert!(can_report(&walks, skipped));
    assemble_report(FilePath::from_text(ROOT), plans, walks, skipped, false).unwrap()
}

fn sized(disk: &Disk, cancelled: bool) -> u64 {
    let metadata = PathMetadata { is_symlink: false, is_file: false, size: 4096 };
    match start_sizing(FilePath::from_text(ROOT), Some(metadata)) {
        Sizing::Known(size) => size,
        Sizing::Walk(mut walk) => {
            walk_through(disk, &mut walk, cancelled);
            walk.bytes()
        }
    }
}

#[test]
fn analyzes_top_level_usage_and_marks_hidden_app_data() {
    let disk = Disk::new()
        .dir("Documents")
        .dir(".models")
        .file("Documents/video.mkv", 100)
        .file(".models/model.bin", 200);
    let report = analyze(&disk, 50, 10);
    assert_eq!(report.total_size, 300);
    assert_eq!(report.large_files.len(), 2);
    assert!(report.large_files[0].app_data);
    assert!(!report.large_files[1].app_data);
    assert_eq!(report.large_files[0].modified_unix, Some(7));
    assert_eq!(report.entries[0].name, ".models");
    assert_eq!(report.entries[1].name, "Documents");
}

#[test]
fn excludes_git_and_node_modules_trees() {
    let disk = Disk::new()
        .dir("project/.git")
        .dir("project/node_modules")
        .file("project/.git/object", 100)
        .file("project/node_modules/module", 100)
        .file("project/source.rs", 10);
    let report = analyze(&disk, 1, 10);
    assert_eq!(report.total_size, 10);
}

#[test]
fn excludes_known_cache_trees_from_large_file_candidates() {
    let disk = Disk::new()
        .dir(".cache/browser")
        .dir("go/pkg/mod")
        .dir("Downloads")
        .file(".cache/browser/cache.bin", 100)
        .file("go/pkg/mod/archive.bin", 100)
        .file("Downloads/archive.bin", 100);
    let report = analyze(&disk, 50, 10);
    assert_eq!(report.total_size, 300);
    assert_eq!(report.large_files.len(), 1);
    assert_eq!(report.large_files[0].path, FilePath::from_text("/home/user/Downloads/archive.bin"));
}

#[test]
fn cancellable_analysis_stops_before_traversal() {
    let root = FilePath::from_text(ROOT);
    let error = analysis_root(&root, true, Some(root.clone()), true).unwrap_err();
    assert_eq!(error.message(), "analysis cancelled");
}

#[test]
fn never_follows_symlinked_directories() {
    let disk = Disk::new().entry("link", EntryKind::Symlink);
    let report = analyze(&disk, 1, 10);
    assert_eq!(report.total_size, 0);
    assert!(report.large_files.is_empty());
    assert_eq!(report.entries.len(), 1);
    assert!(report.entries[0].is_dir);
}

#[test]
fn never_follows_symlink_loops() {
    let disk = Disk::new().dir("real").file("real/small.bin", 10).entry("real/loop", EntryKind::Symlink);
    let report = analyze(&disk, 1, 10);
    assert_eq!(report.total_size, 10);
}

#[test]
fn parallel_dir_size_matches_manual_total_and_ignores_symlinks() {
    let disk = Disk::new()
        .dir("a/b")
        .file("a/one.bin", 30)
        .file("a/b/two.bin", 70)
        .entry("a/link", EntryKind::Symlink);
    assert_eq!(sized(&disk, false), 100);
}

#[test]
fn parallel_dir_size_stops_when_cancelled() {
    let disk = Disk::new().file("file.bin", 100);
    assert_eq!(sized(&disk, true), 0);
}

#[test]
fn streaming_scan_reports_same_totals_as_blocking_analyze() {
    let disk = Disk::new()
        .dir("Documents")
        .dir("project/node_modules")
        .file("Documents/video.mkv", 500)
        .file("project/node_modules/module", 1000)
        .file("project/source.rs", 20);
    let expected = analyze(&disk, 100, 10);

    let (plans, mut walks, skipped) = prepared(&disk, 100, 10);
    let mut flusher = Flusher::new(plans.len());
    let mut updates = Vec::new();
    let mut ended = vec![false; walks.len()];
    for i in 0..walks.len() {
        walk_through(&disk, &mut walks[i], false);
        ended[i] = true;
        let count = skipped_so_far(skipped, &walks, &ended).unwrap();
        let buckets = stream_buckets(&plans, &walks);
        let found = take_large_files(&mut walks);
        updates.extend(flusher.flush(&buckets, found, count));
    }
    let count = skipped_so_far(skipped, &walks, &ended).unwrap();
    let buckets = stream_buckets(&plans, &walks);
    let found = take_large_files(&mut walks);
    assert!(can_close(&buckets));
    updates.extend(flusher.close(&buckets, found, count));

    for entry in &expected.entries {
        let told = updates.iter().rev().find_map(|update| match update {
            ScanUpdate::Progress { top, size, is_dir, .. } if *top == entry.path => Some((*size, *is_dir)),
            _ => None,
        });
        assert_eq!(told, Some((entry.size, entry.is_dir)));
    }

    let large = updates.iter().filter(|update| matches!(update, ScanUpdate::Large(_))).count();
    assert_eq!(large, expected.large_files.len());
    let last = updates.pop().unwrap();
    assert!(!updates.iter().any(|update| matches!(update, ScanUpdate::Done { .. } | ScanUpdate::Error(_))));
    match last {
        ScanUpdate::Done { total_size, total_files, skipped } => {
            assert_eq!(total_size, expected.total_size);
            assert_eq!(total_files, expected.total_files);
            assert_eq!(skipped, expected.skipped_entries);
        }
        other => panic!("streaming scan failed: {other:?}"),
    }
}

#[test]
fn every_order_of_listing_gives_the_same_report() {
    let disk = Disk::new()
        .dir("a/b/c")
        .dir("a/d")
        .file("a/b/c/one", 5)
        .file("a/b/two", 7)
        .file("a/d/three", 11)
        .entry("a/d/broken", EntryKind::Unknown)
        .file("four", 13);
    let expected = analyze(&disk, 6, 10);
    let (plans, mut walks, skipped) = prepared(&disk, 6, 10);
    for walk in walks.iter_mut() {
        walk_at_once(&disk, walk);
    }
    let report = assemble_report(FilePath::from_text(ROOT), plans, walks, skipped, false).unwrap();
    assert_eq!(report, expected);
    assert_eq!(report.total_size, 36);
    assert_eq!(report.total_files, 4);
    assert_eq!(report.skipped_entries, 1);
    assert_eq!(report.large_files.len(), 3);
}

#[test]
fn walks_go_no_deeper_than_asked() {
    let disk = Disk::new().dir("a/b").file("a/one", 1).file("a/b/two", 2).file("three", 4);
    assert_eq!(analyze(&disk, 100, 0).total_size, 4);
    assert_eq!(analyze(&disk, 100, 1).total_size, 5);
    assert_eq!(analyze(&disk, 100, 2).total_size, 7);
}

#[test]
fn what_cannot_be_read_is_counted() {
    let disk = Disk::new()
        .entry("gone", EntryKind::Directory)
        .entry("odd", EntryKind::Unknown)
        .entry("locked", EntryKind::UnreadableFile)
        .entry("socket", EntryKind::Other)
        .entry(".git", EntryKind::Unknown);
    let report = analyze(&disk, 1, 10);
    assert_eq!(report.skipped_entries, 3);
    assert_eq!(report.entries.len(), 4);
    let (plans, skipped) = plan_children(&FilePath::from_text(ROOT), &None);
    assert!(plans.is_empty());
    assert_eq!(skipped, 1);
}

#[test]
fn plans_count_unreadable_children() {
    let root = FilePath::from_text(ROOT);
    let child = |name: &str, kind: EntryKind| ChildEntry {
        entry: DirectoryEntry { name: name.as_bytes().to_vec(), kind },
        resolves_to_dir: false,
    };
    let mut skipped: u64 = 5;
    let plan = plan_child(&root, &child("x", EntryKind::UnreadableFile), &mut skipped).unwrap();
    assert_eq!(plan.path, FilePath::from_text("/home/user/x"));
    assert_eq!(skipped, 6);
    assert!(plan_child(&root, &child("node_modules", EntryKind::Directory), &mut skipped).is_none());
    assert_eq!(skipped, 6);
}

#[test]
fn cancelled_analyses_have_no_report() {
    let disk = Disk::new().file("file.bin", 10);
    let (plans, walks, skipped) = prepared(&disk, 1, 10);
    let error = assemble_report(FilePath::from_text(ROOT), plans, walks, skipped, true).unwrap_err();
    assert_eq!(error, AnalysisError::Cancelled);
}

#[test]
fn missing_and_unresolved_roots_are_errors() {
    let root = FilePath::from_text("/no/where");
    let missing = analysis_root(&root, false, None, true).unwrap_err();
    assert_eq!(missing.message(), "analysis path does not exist: /no/where");
    let unresolved = analysis_root(&root, true, None, true).unwrap_err();
    assert_eq!(unresolved.message(), "failed to resolve /no/where");
    let resolved = FilePath::from_text("/some/where");
    assert_eq!(analysis_root(&root, true, Some(resolved.clone()), false), Ok(resolved));
}

#[test]
fn entries_and_files_of_one_size_stand_by_name_and_path() {
    let disk = Disk::new().dir("b").dir("a").file("b/x", 10).file("a/y", 10).file("c", 20);
    let report = analyze(&disk, 10, 10);
    let names: Vec<&str> = report.entries.iter().map(|entry| entry.name.as_str()).collect();
    assert_eq!(names, vec!["c", "a", "b"]);
    let paths: Vec<String> = report.large_files.iter().map(|file| file.path.display()).collect();
    assert_eq!(paths, vec!["/home/user/c", "/home/user/a/y", "/home/user/b/x"]);
}

#[test]
fn names_that_are_not_utf8_are_shown_with_replacements() {
    let root = FilePath::from_text(ROOT);
    let children = Some(vec![ChildEntry {
        entry: DirectoryEntry {
            name: vec![b'a', 0xff],
            kind: EntryKind::File(FileMetadata { size: 1, modified_unix: None }),
        },
        resolves_to_dir: false,
    }]);
    let (plans, skipped) = plan_children(&root, &children);
    let walks = plans.iter().map(|plan| start_child(plan, analysis_rules(&root, 0, 1))).collect();
    let report = assemble_report(root, plans, walks, skipped, false).unwrap();
    assert_eq!(report.entries[0].name, "a\u{fffd}");
    assert_eq!(report.large_files[0].path.display(), "/home/user/a\u{fffd}");
}

#[test]
fn sizes_stop_at_the_largest_number() {
    let disk = Disk::new().file("a", u64::MAX).file("b", u64::MAX);
    let report = analyze(&disk, 1, 10);
    assert_eq!(report.total_size, u64::MAX);
    assert_eq!(report.total_files, 2);
}

#[test]
fn sums_that_are_no_machine_numbers_are_told_beforehand() {
    let rules = WalkRules { skip_known: false, max_depth: 3, large: None };
    let mut walk = TreeWalk::through(FilePath::from_text("/a"), rules);
    let dir = walk.next_dir(false).unwrap();
    let file = |name: &str, size: u64| DirectoryEntry {
        name: name.as_bytes().to_vec(),
        kind: EntryKind::File(FileMetadata { size, modified_unix: None }),
    };
    let fits = Some(vec![file("x", u64::MAX)]);
    let too_much = Some(vec![file("x", u64::MAX), file("y", 1)]);
    assert!(walk.can_absorb(&dir, &fits));
    assert!(!walk.can_absorb(&dir, &too_much));
    assert!(!walk.try_absorb(&dir, &too_much));
    assert_eq!(walk.bytes(), 0);
    walk.absorb(&dir, &fits);
    assert_eq!(walk.bytes(), u64::MAX);
    assert!(walk.can_absorb(&dir, &None));
    let full = StreamBucket { path: FilePath::from_text("/a"), is_dir: true, bytes: u64::MAX, files: 1 };
    let more = StreamBucket { path: FilePath::from_text("/b"), is_dir: true, bytes: 1, files: 1 };
    assert!(!can_close(&vec![full, more]));
}

#[test]
fn files_and_links_have_the_size_of_their_own() {
    let path = FilePath::from_text("/a");
    let known = |is_symlink: bool, is_file: bool| {
        match start_sizing(path.clone(), Some(PathMetadata { is_symlink, is_file, size: 42 })) {
            Sizing::Known(size) => Some(size),
            Sizing::Walk(_) => None,
        }
    };
    assert_eq!(known(true, false), Some(42));
    assert_eq!(known(false, true), Some(42));
    assert_eq!(known(false, false), None);
    assert!(matches!(start_sizing(path, None), Sizing::Known(0)));
}

#[test]
fn directory_sizes_count_what_analyses_skip() {
    let disk = Disk::new().dir(".git").file(".git/object", 9).dir("node_modules").file("node_modules/m", 8);
    assert_eq!(sized(&disk, false), 17);
    assert_eq!(analyze(&disk, 1, 10).total_size, 0);
}

#[test]
fn large_files_are_told_by_size_place_and_name() {
    let rule = LargeFileRule { root: FilePath::from_text(ROOT), minimum_size: 50 };
    let at = |path: &str, size: u64| {
        check_large_file(&rule, &FilePath::from_text(path), &FileMetadata { size, modified_unix: None })
    };
    assert!(at("/home/user/a", 49).is_none());
    assert!(at("/home/other/a", 50).is_none());
    assert!(at("/home/user/.npm/a", 50).is_none());
    assert!(!at("/home/user/a/b", 50).unwrap().app_data);
    assert!(at("/home/user/a/.b/c", 50).unwrap().app_data);
    for excluded in [".cache", ".local/share/Trash", ".cargo", ".npm", "go/pkg", ".local/share/flatpak", ".local/share/docker"] {
        assert!(is_excluded_large_file(&FilePath::from_text(&format!("{excluded}/x")).components()));
    }
    assert!(!is_excluded_large_file(&FilePath::from_text("go/pkgs/x").components()));
    assert!(!is_excluded_large_file(&FilePath::from_text(".local/share/x").components()));
}

#[test]
fn names_are_told_apart() {
    assert!(should_skip_name(&b".git".to_vec()));
    assert!(should_skip_name(&b"node_modules".to_vec()));
    assert!(!should_skip_name(&b".github".to_vec()));
    assert!(is_hidden_component(&b".config".to_vec()));
    assert!(!is_hidden_component(&b"config".to_vec()));
    assert!(!is_hidden_component(&b".".to_vec()));
    assert!(!is_hidden_component(&b"..".to_vec()));
}

#[test]
fn large_files_are_offered_for_removal() {
    let file = LargeFile { path: FilePath::from_text("/home/user/a"), size: 5, modified_unix: None, app_data: false };
    let item = file.cleanup_item();
    assert_eq!(item.id, "large-file:/home/user/a");
    assert_eq!(item.label, "Large personal file /home/user/a");
    assert_eq!(item.group, CleanupGroup::User);
    assert_eq!(item.risk, Risk::Explicit);
    assert_eq!(item.estimated_bytes, 5);
    assert_eq!(item.action, CleanupAction::RemovePersonalFile { path: FilePath::from_text("/home/user/a") });
}

#[test]
fn updates_are_sent_where_something_changed() {
    let bucket = |path: &str, bytes: u64| StreamBucket { path: FilePath::from_text(path), is_dir: true, bytes, files: 1 };
    let progress = |path: &str, size: u64| ScanUpdate::Progress { top: FilePath::from_text(path), size, files: 1, is_dir: true };
    let large = || LargeFile { path: FilePath::from_text("/a/x"), size: 5, modified_unix: None, app_data: false };
    let mut flusher = Flusher::new(2);
    assert_eq!(flusher.flush(&vec![bucket("/a", 0), bucket("/b", 0)], Vec::new(), 0), Vec::new());
    assert_eq!(
        flusher.flush(&vec![bucket("/a", 5), bucket("/b", 0)], vec![large()], 2),
        vec![progress("/a", 5), ScanUpdate::Large(large()), ScanUpdate::Skipped(2)]
    );
    assert_eq!(flusher.flush(&vec![bucket("/a", 5), bucket("/b", 3)], Vec::new(), 2), vec![progress("/b", 3)]);
    assert_eq!(
        flusher.close(&vec![bucket("/a", 5), bucket("/b", 3)], vec![large()], 2),
        vec![
            progress("/a", 5),
            progress("/b", 3),
            ScanUpdate::Large(large()),
            ScanUpdate::Done { total_size: 8, total_files: 2, skipped: 2 },
        ]
    );
}

#[test]
fn entries_that_cannot_be_read_are_counted_once_a_walk_has_ended() {
    let disk = Disk::new().dir("a").entry("a/x", EntryKind::Unknown).dir("b").entry("b/y", EntryKind::Unknown);
    let (plans, mut walks, first) = prepared(&disk, 1, 10);
    assert_eq!(plans.len(), 2);
    for walk in walks.iter_mut() {
        walk_through(&disk, walk, false);
    }
    assert_eq!(first, 0);
    assert_eq!(skipped_so_far(5, &walks, &vec![false, false]), Some(5));
    assert_eq!(skipped_so_far(5, &walks, &vec![false, true]), Some(6));
    assert_eq!(skipped_so_far(5, &walks, &vec![true, true]), Some(7));
    assert_eq!(skipped_so_far(u64::MAX, &walks, &vec![true, true]), None);
    assert_eq!(bucket_of(&plans[0], &walks[0]).files, 0);
}

#[test]
fn large_files_are_taken_once() {
    let disk = Disk::new().dir("a").file("a/x", 60).file("b", 70);
    let (_, mut walks, _) = prepared(&disk, 50, 10);
    for walk in walks.iter_mut() {
        walk_through(&disk, walk, false);
    }
    let paths: Vec<String> = take_large_files(&mut walks).iter().map(|file| file.path.display()).collect();
    assert_eq!(paths, vec!["/home/user/a/x", "/home/user/b"]);
    assert!(take_large_files(&mut walks).is_empty());
    assert_eq!(walks[0].bytes() + walks[1].bytes(), 130);
}

#[test]
fn the_minimum_size_only_selects_large_files() {
    let disk = Disk::new().dir("a/b").file("a/x", 60).file("a/b/y", 80).file("z", 60).entry("odd", EntryKind::Unknown);
    let mut all = analyze(&disk, 10, 10);
    let some = analyze(&disk, 70, 10);
    assert_eq!(all.large_files.len(), 3);
    all.large_files.retain(|file| file.size >= 70);
    assert_eq!(some, all);
}

#[test]
fn streams_begin_where_the_directory_is_resolved_and_read() {
    let requested = FilePath::from_text("link");
    let root = FilePath::from_text(ROOT);
    let failed = begin_stream(&requested, Err("gone".to_owned()), Ok(Vec::new()));
    assert_eq!(failed, Err(ScanUpdate::Error("failed to resolve link: gone".to_owned())));
    let failed = begin_stream(&requested, Err("gone".to_owned()), Err("locked".to_owned()));
    assert_eq!(failed, Err(ScanUpdate::Error("failed to resolve link: gone".to_owned())));
    let failed = begin_stream(&requested, Ok(root.clone()), Err("locked".to_owned()));
    assert_eq!(failed, Err(ScanUpdate::Error("failed to read /home/user: locked".to_owned())));
    let disk = Disk::new().file("a", 1).entry("b", EntryKind::Unknown);
    let (begun, plans, skipped) = begin_stream(&requested, Ok(root.clone()), Ok(disk.children().unwrap())).unwrap();
    assert_eq!(begun, root);
    assert_eq!(plans.len(), 2);
    assert_eq!(skipped, 1);
}

#[test]
fn failures_end_a_stream() {
    let root = FilePath::from_text("/a");
    assert_eq!(resolve_failure(&root, "gone"), ScanUpdate::Error("failed to resolve /a: gone".to_owned()));
    assert_eq!(read_failure(&root, "locked"), ScanUpdate::Error("failed to read /a: locked".to_owned()));
}
