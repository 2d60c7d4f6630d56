use tuxcleaner::model::{CleanupAction, CleanupGroup, Risk};
use tuxcleaner::path::FilePath;
use tuxcleaner::purge::{
    discover_artifacts, is_artifact, minimum_age, rank_artifacts, visit_project_entry, ArtifactMetadata,
    DiscoveredArtifact, ProjectEntry, PurgeCandidate, NANOS_PER_SECOND,
};

const DAY: i128 = 86_400 * NANOS_PER_SECOND;

fn entry(path: &str, modified: i128) -> ProjectEntry {
    ProjectEntry {
        path: FilePath::from_text(path),
        depth: path.split('/').count() - 2,
        is_dir: true,
        metadata: Some(ArtifactMetadata { is_symlink: false, modified: Some(modified) }),
    }
}

/// The directories that a walk from `/root` comes by.
fn reached(paths: &[&str]) -> Vec<ProjectEntry> {
    paths
        .iter()
        .filter(|path| {
            path.split('/').skip(2).enumerate().all(|(i, name)| visit_project_entry(i + 1, &name.as_bytes().to_vec()))
        })
        .map(|path| entry(path, 0))
        .collect()
}

#[test]
fn finds_build_artifacts_but_never_git_contents() {
    let entries = reached(&["/root/project", "/root/project/target", "/root/project/.git", "/root/project/.git/target"]);
    let found = discover_artifacts(&entries, 10 * DAY, minimum_age(0));
    let results = rank_artifacts(found, &vec![50]);
    assert_eq!(results.len(), 1);
    assert_eq!(results[0].path, FilePath::from_text("/root/project/target"));
    assert_eq!(results[0].size, 50);
}

#[test]
fn the_root_itself_is_always_visited() {
    assert!(visit_project_entry(0, &b".git".to_vec()));
    assert!(!visit_project_entry(1, &b".git".to_vec()));
    assert!(visit_project_entry(1, &b".github".to_vec()));
    assert!(visit_project_entry(8, &b"src".to_vec()));
}

#[test]
fn artifacts_that_lie_too_deep_are_not_found() {
    let at = |depth: usize| {
        let found = ProjectEntry { depth, ..entry("/a/target", 0) };
        discover_artifacts(&vec![found], DAY, minimum_age(0)).len()
    };
    assert_eq!(at(0), 1);
    assert_eq!(at(7), 1);
    assert_eq!(at(8), 0);
}

#[test]
fn artifacts_are_told_by_their_name() {
    for name in ["node_modules", "target", ".build", "build", "dist", ".venv"] {
        assert!(is_artifact(&FilePath::from_text(&format!("/a/{name}"))));
    }
    assert!(!is_artifact(&FilePath::from_text("/a/target/debug")));
    assert!(!is_artifact(&FilePath::from_text("/a/Target")));
    assert!(!is_artifact(&FilePath::from_text("/a/target/..")));
    assert!(!is_artifact(&FilePath::from_text("/")));
}

#[test]
fn only_old_artifacts_are_found() {
    let entries = vec![
        entry("/a/target", 7 * DAY),
        entry("/b/target", 7 * DAY + 1),
        entry("/c/target", 20 * DAY),
        entry("/d/target", -DAY),
        ProjectEntry {
            path: FilePath::from_text("/e/target"),
            depth: 2,
            is_dir: true,
            metadata: Some(ArtifactMetadata { is_symlink: false, modified: None }),
        },
        ProjectEntry {
            path: FilePath::from_text("/f/target"),
            depth: 2,
            is_dir: true,
            metadata: Some(ArtifactMetadata { is_symlink: true, modified: Some(0) }),
        },
        ProjectEntry { path: FilePath::from_text("/g/target"), depth: 2, is_dir: true, metadata: None },
        ProjectEntry {
            path: FilePath::from_text("/h/target"),
            depth: 2,
            is_dir: false,
            metadata: Some(ArtifactMetadata { is_symlink: false, modified: Some(0) }),
        },
    ];
    let found = discover_artifacts(&entries, 10 * DAY, minimum_age(3));
    let expected = |path: &str, modified_unix: Option<u64>, age_days: u64| DiscoveredArtifact {
        path: FilePath::from_text(path),
        kind: "target".to_owned(),
        modified_unix,
        age_days,
    };
    assert_eq!(
        found,
        vec![
            expected("/a/target", Some(7 * 86_400), 3),
            expected("/d/target", None, 11),
            expected("/e/target", Some(0), 10),
        ]
    );
    let all = discover_artifacts(&entries, 10 * DAY, minimum_age(0));
    assert_eq!(all.len(), 5);
    assert_eq!(all[2].age_days, 0);
}

#[test]
fn ages_stop_at_the_largest_number() {
    assert_eq!(minimum_age(2), 172_800);
    assert_eq!(minimum_age(u64::MAX), u64::MAX);
    assert!(discover_artifacts(&vec![entry("/a/target", 0)], 10 * DAY, minimum_age(u64::MAX)).is_empty());
}

#[test]
fn candidates_of_one_size_stand_by_path() {
    let found = discover_artifacts(
        &vec![entry("/b/dist", 0), entry("/a/dist", 0), entry("/c/dist", 0)],
        DAY,
        minimum_age(0),
    );
    let ranked = rank_artifacts(found, &vec![1, 1, 2]);
    let paths: Vec<String> = ranked.iter().map(|candidate| candidate.path.display()).collect();
    assert_eq!(paths, vec!["/c/dist", "/a/dist", "/b/dist"]);
}

#[test]
fn candidates_are_offered_for_removal() {
    let candidate = PurgeCandidate {
        path: FilePath::from_text("/a/dist"),
        kind: "dist".to_owned(),
        size: 9,
        modified_unix: None,
        age_days: 4,
    };
    let item = candidate.cleanup_item();
    assert_eq!(item.id, "purge:/a/dist");
    assert_eq!(item.label, "/a/dist (dist)");
    assert_eq!(item.group, CleanupGroup::Dev);
    assert_eq!(item.risk, Risk::Explicit);
    assert_eq!(item.estimated_bytes, 9);
    assert_eq!(item.action, CleanupAction::RemovePath { path: FilePath::from_text("/a/dist"), contents_only: false });
}
