use tuxcleaner::analyze::{start_sizing, PathMetadata, Sizing};
use tuxcleaner::distro::{Distribution, DistroFamily};
use tuxcleaner::model::{CleanupAction, CleanupGroup, CleanupItem, CommandSpec, Risk};
use tuxcleaner::path::FilePath;
use tuxcleaner::scanner::{
    can_summarize, cleanup_program, dev_cache_paths, group_slug, sum_sizes, summarize_by_group, user_cache_paths,
    PackageFacts, ScanFacts, Scanner, JOURNAL_KEPT,
};
use tuxcleaner::walk::{DirectoryEntry, EntryKind};

fn scanner(family: DistroFamily, name: &str) -> Scanner {
    Scanner::new(FilePath::from_text("/home/user"), Distribution { family, name: name.to_owned() })
}

fn facts() -> ScanFacts {
    ScanFacts {
        packages: PackageFacts { estimated: 0, item: None, installed: false },
        journalctl: false,
        journal_bytes: 0,
        user_bytes: vec![0; user_cache_paths().len()],
        trash_bytes: 0,
        dev_bytes: vec![0; dev_cache_paths().len()],
        docker: false,
        flatpak: false,
    }
}

fn item(group: CleanupGroup, bytes: u64, action: CleanupAction) -> CleanupItem {
    CleanupItem {
        id: "item".to_owned(),
        group,
        label: "Item".to_owned(),
        estimated_bytes: bytes,
        risk: Risk::Low,
        action,
    }
}

fn command(program: &str) -> CleanupAction {
    CleanupAction::Command { program: program.to_owned(), args: Vec::new(), requires_root: true }
}

#[test]
fn dir_size_does_not_follow_symlinks() {
    let metadata = PathMetadata { is_symlink: false, is_file: false, size: 4096 };
    let size = match start_sizing(FilePath::from_text("/root"), Some(metadata)) {
        Sizing::Known(size) => size,
        Sizing::Walk(mut walk) => {
            while let Some(dir) = walk.next_dir(false) {
                assert_eq!(dir.path, FilePath::from_text("/root"));
                let listing = Some(vec![DirectoryEntry { name: b"link".to_vec(), kind: EntryKind::Symlink }]);
                walk.absorb(&dir, &listing);
            }
            walk.bytes()
        }
    };
    assert_eq!(size, 0);
}

#[test]
fn scan_only_includes_existing_known_cache_paths() {
    let mut known = facts();
    let pip = dev_cache_paths().iter().position(|cache| cache.relative == ".cache/pip").unwrap();
    known.dev_bytes[pip] = 123;
    let report = scanner(DistroFamily::Unsupported, "Custom").scan(known);
    assert!(report.items.iter().any(|item| item.id == "dev..cache.pip"));
    assert!(!report.items.iter().any(|item| item.id.contains("mozilla")));
    assert_eq!(report.items.len(), 1);
    assert_eq!(report.items[0].estimated_bytes, 123);
    assert_eq!(report.items[0].label, "pip cache");
    assert_eq!(
        report.items[0].action,
        CleanupAction::RemovePath { path: FilePath::from_text("/home/user/.cache/pip"), contents_only: false }
    );
    assert_eq!(
        report.warnings,
        vec!["Custom is not yet supported for package cleanup; user and developer caches are still available".to_owned()]
    );
}

#[test]
fn every_known_cache_has_an_item_of_its_own() {
    let mut known = facts();
    known.user_bytes = (1..=user_cache_paths().len() as u64).collect();
    known.dev_bytes = (1..=dev_cache_paths().len() as u64).collect();
    let scanner = scanner(DistroFamily::Arch, "Arch Linux");
    let report = scanner.scan(known);
    assert_eq!(report.items.len(), 19);
    assert!(report.warnings.is_empty());
    assert!(report.items.iter().all(|item| match &item.action {
        CleanupAction::RemovePath { path, .. } => path.starts_with(&scanner.home),
        _ => false,
    }));
    assert_eq!(report.items[0].id, "dev..cache.composer");
    assert_eq!(report.items[9].id, "dev..cache.pip");
    assert_eq!(report.items[10].id, "user..cache.opera");
    assert_eq!(report.items[18].id, "user..cache.yay");
    assert_eq!(scanner.cache_path(&user_cache_paths()[0]).display(), "/home/user/.cache/yay");
}

#[test]
fn packages_are_cleaned_by_a_program_that_is_installed() {
    let with = |estimated: u64, installed: bool| {
        let mut known = facts();
        known.packages =
            PackageFacts { estimated, item: Some(item(CleanupGroup::System, estimated, command("pacman"))), installed };
        scanner(DistroFamily::Arch, "Arch Linux").scan(known)
    };
    assert_eq!(with(5, true).items.len(), 1);
    assert!(with(5, true).warnings.is_empty());
    assert!(with(5, false).items.is_empty());
    assert_eq!(
        with(5, false).warnings,
        vec!["pacman is not installed; the package cache was measured but cannot be cleaned safely".to_owned()]
    );
    assert!(with(0, false).warnings.is_empty());
}

#[test]
fn the_program_of_an_action_is_its_first() {
    let spec = |program: &str| CommandSpec { program: program.to_owned(), args: Vec::new(), requires_root: true };
    let sequence = CleanupAction::CommandSequence { commands: vec![spec("apt-get"), spec("dpkg")] };
    assert_eq!(cleanup_program(&sequence), Some("apt-get"));
    assert_eq!(cleanup_program(&command("dnf")), Some("dnf"));
    assert_eq!(cleanup_program(&CleanupAction::CommandSequence { commands: Vec::new() }), None);
    let path = FilePath::from_text("/a");
    assert_eq!(cleanup_program(&CleanupAction::RemovePersonalFile { path }), None);
}

#[test]
fn the_journal_keeps_what_it_may() {
    let with = |journalctl: bool, journal_bytes: u64| {
        let mut known = facts();
        known.journalctl = journalctl;
        known.journal_bytes = journal_bytes;
        scanner(DistroFamily::Arch, "Arch Linux").scan(known).items
    };
    assert_eq!(JOURNAL_KEPT, 200 * 1024 * 1024);
    assert!(with(true, JOURNAL_KEPT).is_empty());
    assert!(with(false, JOURNAL_KEPT + 1).is_empty());
    let items = with(true, JOURNAL_KEPT + 7);
    assert_eq!(items[0].id, "system.journal");
    assert_eq!(items[0].estimated_bytes, 7);
    assert_eq!(
        items[0].action,
        CleanupAction::Command {
            program: "journalctl".to_owned(),
            args: vec!["--vacuum-size=200M".to_owned()],
            requires_root: true,
        }
    );
}

#[test]
fn the_trash_keeps_its_directory() {
    let mut known = facts();
    known.trash_bytes = 3;
    let scanner = scanner(DistroFamily::Arch, "Arch Linux");
    let report = scanner.scan(known);
    assert_eq!(report.items[0].id, "user.trash");
    assert_eq!(report.items[0].risk, Risk::Explicit);
    assert_eq!(
        report.items[0].action,
        CleanupAction::RemovePath { path: scanner.trash_path(), contents_only: true }
    );
    assert_eq!(scanner.trash_path().display(), "/home/user/.local/share/Trash");
}

#[test]
fn containers_are_pruned_without_volumes() {
    let mut known = facts();
    known.docker = true;
    known.flatpak = true;
    let report = scanner(DistroFamily::Fedora, "Fedora Linux").scan(known);
    assert_eq!(report.distribution, "Fedora Linux");
    assert_eq!(report.items[0].id, "containers.docker");
    assert_eq!(
        report.items[0].action,
        CleanupAction::Command {
            program: "docker".to_owned(),
            args: vec!["system".to_owned(), "prune".to_owned(), "-f".to_owned()],
            requires_root: false,
        }
    );
    assert_eq!(report.items[1].id, "containers.flatpak");
    assert_eq!(
        report.items[1].action,
        CleanupAction::Command {
            program: "flatpak".to_owned(),
            args: vec!["uninstall".to_owned(), "--unused".to_owned(), "-y".to_owned()],
            requires_root: false,
        }
    );
}

#[test]
fn reports_stand_by_group_and_size() {
    let mut known = facts();
    known.docker = true;
    known.user_bytes[0] = 1;
    known.user_bytes[1] = 2;
    known.dev_bytes[0] = 5;
    known.trash_bytes = 9;
    known.journalctl = true;
    known.journal_bytes = JOURNAL_KEPT + 1;
    let report = scanner(DistroFamily::Arch, "Arch Linux").scan(known);
    let ids: Vec<&str> = report.items.iter().map(|item| item.id.as_str()).collect();
    assert_eq!(
        ids,
        vec!["containers.docker", "dev..cache.pip", "system.journal", "user.trash", "user..cache.paru", "user..cache.yay"]
    );
}

#[test]
fn sizes_are_summed_by_group() {
    let items = vec![
        item(CleanupGroup::User, 3, command("a")),
        item(CleanupGroup::Dev, 5, command("b")),
        item(CleanupGroup::User, 4, command("c")),
    ];
    assert!(can_summarize(&items));
    let sums = summarize_by_group(&items);
    assert_eq!(sums.get(&CleanupGroup::User), Some(&7));
    assert_eq!(sums.get(&CleanupGroup::Dev), Some(&5));
    assert_eq!(sums.get(&CleanupGroup::System), None);
    let too_much = vec![
        item(CleanupGroup::User, u64::MAX, command("a")),
        item(CleanupGroup::Dev, u64::MAX, command("b")),
        item(CleanupGroup::User, 1, command("c")),
    ];
    assert!(!can_summarize(&too_much));
}

#[test]
fn sums_that_do_not_fit_are_told() {
    assert_eq!(sum_sizes(&vec![1, 2, 3]), Some(6));
    assert_eq!(sum_sizes(&vec![u64::MAX, 0]), Some(u64::MAX));
    assert_eq!(sum_sizes(&vec![u64::MAX, 1]), None);
}

#[test]
fn groups_have_slugs_and_titles() {
    let all = [
        (CleanupGroup::System, "system", "System"),
        (CleanupGroup::User, "user", "User"),
        (CleanupGroup::Dev, "dev", "Developer"),
        (CleanupGroup::Containers, "containers", "Containers"),
    ];
    for (group, slug, title) in all {
        assert_eq!(group_slug(group), slug);
        assert_eq!(group.title(), title);
    }
}
