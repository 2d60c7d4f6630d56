//! Build artifacts of projects that have not been touched for a while.

use vstd::prelude::*;
use vstd::string::StringExecFns;
use vstd::utf8::{decode_utf8, encode_utf8, valid_utf8};

use crate::model::{ActionView, CleanupAction, CleanupGroup, CleanupItem, ItemView, Risk};
use crate::order::{order_of, ranked_is_total_preorder, sort, sorted_is_ordered, stable_sorted, views, Ranked};
use crate::path::{path_le, path_order_is_total, path_order_is_transitive, spells, FilePath, PathView};
use crate::text::{from_utf8_lossy, saturating_mul, saturating_product};

verus! {

/// How deep a walk through a project goes.
pub const PROJECT_DEPTH: usize = 7;

/// The seconds of a day.
pub const SECONDS_PER_DAY: u64 = 86_400;

/// The nanoseconds of a second.
pub const NANOS_PER_SECOND: i128 = 1_000_000_000;

/// The last nanosecond that a clock of signed 64-bit seconds can show.
pub const LAST_NANO: i128 = 9_223_372_036_854_775_807_999_999_999;

/// The first nanosecond that such a clock can show.
pub const FIRST_NANO: i128 = -9_223_372_036_854_775_808_000_000_000;

/// Whether a clock of signed 64-bit seconds can show a moment, in nanoseconds
/// since the Unix epoch.
pub open spec fn on_the_clock(nanos: i128) -> bool {
    FIRST_NANO <= nanos <= LAST_NANO
}

/// What the directory entry of an artifact says, the entry itself, not what it may
/// point to. The moment of the last change is in nanoseconds since the Unix epoch.
#[derive(Clone, Copy, Debug, PartialEq, Eq)]
pub struct ArtifactMetadata {
    pub is_symlink: bool,
    pub modified: Option<i128>,
}

/// An entry that a walk through a project came by, so many levels down.
#[derive(Clone, Debug, PartialEq, Eq)]
pub struct ProjectEntry {
    pub path: FilePath,
    pub depth: usize,
    pub is_dir: bool,
    pub metadata: Option<ArtifactMetadata>,
}

/// What is known of such an entry.
pub struct ProjectView {
    pub path: PathView,
    pub depth: nat,
    pub is_dir: bool,
    pub metadata: Option<ArtifactMetadata>,
}

impl View for ProjectEntry {
    type V = ProjectView;

    open spec fn view(&self) -> ProjectView {
        ProjectView { path: self.path@, depth: self.depth as nat, is_dir: self.is_dir, metadata: self.metadata }
    }
}

/// Whether the moments of an entry are such that a clock can show.
pub open spec fn dated(entry: ProjectView) -> bool {
    match entry.metadata {
        Some(metadata) => match metadata.modified {
            Some(modified) => on_the_clock(modified),
            None => true,
        },
        None => true,
    }
}

/// Whether a walk through a project looks at an entry, and below it: at all of
/// them but for what is named as the directories of version control are.
pub open spec fn visited(depth: nat, name: Seq<u8>) -> bool {
    depth == 0 || name != encode_utf8(".git"@)
}

/// Decides whether a walk through a project looks at an entry.
pub fn visit_project_entry(depth: usize, name: &Vec<u8>) -> (yes: bool)
    ensures
        yes == visited(depth as nat, name@),
{
    depth == 0 || !spells(name, ".git")
}

/// The names of directories that builds leave behind.
pub open spec fn artifact_name(name: Seq<u8>) -> bool {
    ||| name == encode_utf8("node_modules"@)
    ||| name == encode_utf8("target"@)
    ||| name == encode_utf8(".build"@)
    ||| name == encode_utf8("build"@)
    ||| name == encode_utf8("dist"@)
    ||| name == encode_utf8(".venv"@)
}

/// Whether a path ends in such a name.
pub open spec fn artifact_path(path: PathView) -> bool {
    match path.file_name() {
        Some(name) => artifact_name(name),
        None => false,
    }
}

/// Decides whether a path ends in the name of a directory that builds leave
/// behind.
pub fn is_artifact(path: &FilePath) -> (yes: bool)
    ensures
        yes == artifact_path(path@),
{
    match path.file_name() {
        Some(name) => spells(&name, "node_modules") || spells(&name, "target") || spells(&name, ".build") || spells(
            &name,
            "build",
        ) || spells(&name, "dist") || spells(&name, ".venv"),
        None => false,
    }
}

/// The seconds that an artifact must have been left alone to count as that many
/// days old.
pub fn minimum_age(older_than_days: u64) -> (seconds: u64)
    ensures
        seconds == saturating_product(older_than_days, SECONDS_PER_DAY),
        older_than_days * 86_400 <= u64::MAX ==> seconds == older_than_days * 86_400,
        older_than_days * 86_400 > u64::MAX ==> seconds == u64::MAX,
{
    saturating_mul(older_than_days, SECONDS_PER_DAY)
}

/// The moment of the last change; the Unix epoch where it is not known.
pub open spec fn modified_at(metadata: ArtifactMetadata) -> int {
    match metadata.modified {
        Some(nanos) => nanos as int,
        None => 0,
    }
}

/// The nanoseconds since the last change, none where it is yet to come.
pub open spec fn age_at(now: int, metadata: ArtifactMetadata) -> int {
    if now >= modified_at(metadata) {
        now - modified_at(metadata)
    } else {
        0
    }
}

/// An artifact that was found, before its size is known.
#[derive(Clone, Debug, PartialEq, Eq)]
pub struct DiscoveredArtifact {
    pub path: FilePath,
    pub kind: String,
    pub modified_unix: Option<u64>,
    pub age_days: u64,
}

/// What is known of an artifact.
#[verifier::ext_equal]
pub struct ArtifactView {
    pub path: PathView,
    pub kind: Seq<char>,
    pub modified_unix: Option<int>,
    pub age_days: int,
}

impl View for DiscoveredArtifact {
    type V = ArtifactView;

    open spec fn view(&self) -> ArtifactView {
        ArtifactView {
            path: self.path@,
            kind: self.kind@,
            modified_unix: match self.modified_unix {
                Some(seconds) => Some(seconds as int),
                None => None,
            },
            age_days: self.age_days as int,
        }
    }
}

/// The artifact that an entry is, if it is one, does not lie too deep, and has been
/// left alone for that many seconds.
pub open spec fn artifact_of(entry: ProjectView, now: int, minimum_age: int) -> Option<ArtifactView> {
    match entry.metadata {
        Some(metadata) => if entry.depth <= PROJECT_DEPTH && entry.is_dir && artifact_path(entry.path)
            && !metadata.is_symlink && age_at(now, metadata) >= minimum_age * NANOS_PER_SECOND {
            Some(
                ArtifactView {
                    path: entry.path,
                    kind: decode_utf8(entry.path.file_name()->0),
                    modified_unix: if modified_at(metadata) >= 0 {
                        Some(modified_at(metadata) / NANOS_PER_SECOND as int)
                    } else {
                        None
                    },
                    age_days: age_at(now, metadata) / NANOS_PER_SECOND as int / SECONDS_PER_DAY as int,
                },
            )
        } else {
            None
        },
        None => None,
    }
}

proof fn lemma_artifact_names_are_text(path: PathView)
    requires
        artifact_path(path),
    ensures
        valid_utf8(path.file_name()->0),
{
    broadcast use vstd::utf8::encode_utf8_valid_utf8;

}

fn artifact(entry: &ProjectEntry, now: i128, minimum_age: u64) -> (found: Option<DiscoveredArtifact>)
    requires
        on_the_clock(now),
        dated(entry@),
    ensures
        match found {
            Some(artifact) => artifact_of(entry@, now as int, minimum_age as int) == Some(artifact@),
            None => artifact_of(entry@, now as int, minimum_age as int) is None,
        },
{
    if entry.depth > PROJECT_DEPTH || !entry.is_dir || !is_artifact(&entry.path) {
        return None;
    }
    let metadata = match entry.metadata {
        Some(metadata) => metadata,
        None => return None,
    };
    if metadata.is_symlink {
        return None;
    }
    let modified: i128 = match metadata.modified {
        Some(nanos) => nanos,
        None => 0,
    };
    let age: i128 = if now >= modified {
        now - modified
    } else {
        0
    };
    assert(minimum_age * NANOS_PER_SECOND <= u64::MAX * NANOS_PER_SECOND) by (nonlinear_arith)
        requires
            minimum_age <= u64::MAX,
            NANOS_PER_SECOND == 1_000_000_000,
    ;
    let minimum: i128 = (minimum_age as i128) * NANOS_PER_SECOND;
    if age < minimum {
        return None;
    }
    let kind = match entry.path.file_name() {
        Some(name) => from_utf8_lossy(name.as_slice()),
        None => return None,
    };
    proof {
        lemma_artifact_names_are_text(entry.path@);
    }
    let modified_unix: Option<u64> = if modified >= 0 {
        let seconds: i128 = modified / NANOS_PER_SECOND;
        assert(0 <= seconds <= u64::MAX);
        Some(seconds as u64)
    } else {
        None
    };
    let age_seconds: i128 = age / NANOS_PER_SECOND;
    assert(0 <= age_seconds <= u64::MAX);
    let age_days = (age_seconds as u64) / SECONDS_PER_DAY;
    Some(DiscoveredArtifact { path: entry.path.clone(), kind, modified_unix, age_days })
}

/// The artifacts among entries, in their order.
pub open spec fn artifacts_of(entries: Seq<ProjectView>, now: int, minimum_age: int) -> Seq<ArtifactView>
    decreases entries.len(),
{
    if entries.len() == 0 {
        Seq::empty()
    } else {
        let front = artifacts_of(entries.drop_last(), now, minimum_age);
        match artifact_of(entries.last(), now, minimum_age) {
            Some(found) => front.push(found),
            None => front,
        }
    }
}

/// Finds the artifacts that have been left alone for that many seconds.
pub fn discover_artifacts(entries: &Vec<ProjectEntry>, now: i128, minimum_age: u64) -> (found: Vec<DiscoveredArtifact>)
    requires
        on_the_clock(now),
        forall|i: int| 0 <= i < entries@.len() ==> dated((#[trigger] entries@[i])@),
    ensures
        views(found@) == artifacts_of(views(entries@), now as int, minimum_age as int),
{
    let ghost all = views(entries@);
    let mut found: Vec<DiscoveredArtifact> = Vec::new();
    assert(views(found@) =~= artifacts_of(all.take(0), now as int, minimum_age as int));
    for i in 0..entries.len()
        invariant
            on_the_clock(now),
            forall|i: int| 0 <= i < entries@.len() ==> dated((#[trigger] entries@[i])@),
            all == views(entries@),
            views(found@) == artifacts_of(all.take(i as int), now as int, minimum_age as int),
    {
        let ghost before = views(found@);
        assert(all.take(i + 1).drop_last() =~= all.take(i as int));
        assert(all.take(i + 1).last() == entries@[i as int]@);
        if let Some(one) = artifact(&entries[i], now, minimum_age) {
            found.push(one);
            assert(views(found@) =~= before.push(one@));
        }
    }
    assert(all.take(all.len() as int) =~= all);
    found
}

/// An artifact that can be removed.
#[derive(Clone, Debug, PartialEq, Eq)]
pub struct PurgeCandidate {
    pub path: FilePath,
    pub kind: String,
    pub size: u64,
    pub modified_unix: Option<u64>,
    pub age_days: u64,
}

/// What is known of an artifact and its size.
#[verifier::ext_equal]
pub struct CandidateView {
    pub artifact: ArtifactView,
    pub size: u64,
}

impl View for PurgeCandidate {
    type V = CandidateView;

    open spec fn view(&self) -> CandidateView {
        CandidateView {
            artifact: ArtifactView {
                path: self.path@,
                kind: self.kind@,
                modified_unix: match self.modified_unix {
                    Some(seconds) => Some(seconds as int),
                    None => None,
                },
                age_days: self.age_days as int,
            },
            size: self.size,
        }
    }
}

impl Ranked for PurgeCandidate {
    /// The largest first, then by path.
    open spec fn in_order(a: CandidateView, b: CandidateView) -> bool {
        a.size > b.size || a.size == b.size && path_le(a.artifact.path, b.artifact.path)
    }

    proof fn order_is_total(a: CandidateView, b: CandidateView) {
        path_order_is_total(a.artifact.path, b.artifact.path);
    }

    proof fn order_is_transitive(a: CandidateView, b: CandidateView, c: CandidateView) {
        if a.size == b.size && b.size == c.size {
            path_order_is_transitive(a.artifact.path, b.artifact.path, c.artifact.path);
        }
    }

    fn may_precede(&self, other: &Self) -> (yes: bool) {
        if self.size != other.size {
            return self.size > other.size;
        }
        self.path.not_after(&other.path)
    }
}

/// The item that offers an artifact for removal.
pub open spec fn candidate_item(candidate: CandidateView) -> ItemView {
    let shown = candidate.artifact.path.display();
    ItemView {
        id: "purge:"@ + shown,
        group: CleanupGroup::Dev,
        label: shown + " ("@ + candidate.artifact.kind + ")"@,
        estimated_bytes: candidate.size,
        risk: Risk::Explicit,
        action: ActionView::RemovePath { path: candidate.artifact.path, contents_only: false },
    }
}

impl PurgeCandidate {
    /// Offers the artifact for removal.
    pub fn cleanup_item(&self) -> (item: CleanupItem)
        ensures
            item@ == candidate_item(self@),
    {
        let mut id = "purge:".to_owned();
        id.append(self.path.display().as_str());
        let mut label = self.path.display();
        label.append(" (");
        label.append(self.kind.as_str());
        label.append(")");
        CleanupItem {
            id,
            group: CleanupGroup::Dev,
            label,
            estimated_bytes: self.size,
            risk: Risk::Explicit,
            action: CleanupAction::RemovePath { path: self.path.clone(), contents_only: false },
        }
    }
}

/// The artifacts with their sizes.
pub open spec fn sized(found: Seq<ArtifactView>, sizes: Seq<u64>) -> Seq<CandidateView> {
    Seq::new(found.len(), |i: int| CandidateView { artifact: found[i], size: sizes[i] })
}

/// The artifacts with their sizes, the largest first.
pub fn rank_artifacts(found: Vec<DiscoveredArtifact>, sizes: &Vec<u64>) -> (candidates: Vec<PurgeCandidate>)
    requires
        found@.len() == sizes@.len(),
    ensures
        views(candidates@) == stable_sorted(sized(views(found@), sizes@), order_of::<PurgeCandidate>()),
{
    let mut candidates: Vec<PurgeCandidate> = Vec::new();
    for artifact in iter: found
        invariant
            iter.seq() == found@,
            found@.len() == sizes@.len(),
            candidates@.len() == iter.index(),
            forall|j: int|
                0 <= j < iter.index() ==> (#[trigger] candidates@[j])@ == (CandidateView {
                    artifact: found@[j]@,
                    size: sizes@[j],
                }),
    {
        let size = sizes[candidates.len()];
        candidates.push(
            PurgeCandidate {
                path: artifact.path,
                kind: artifact.kind,
                size,
                modified_unix: artifact.modified_unix,
                age_days: artifact.age_days,
            },
        );
    }
    assert(views(candidates@) =~= sized(views(found@), sizes@));
    sort(candidates)
}

/// What was found is among the entries.
pub proof fn artifacts_are_entries(entries: Seq<ProjectView>, now: int, minimum_age: int, i: int)
    requires
        0 <= i < artifacts_of(entries, now, minimum_age).len(),
    ensures
        exists|j: int|
            0 <= j < entries.len() && artifact_of(#[trigger] entries[j], now, minimum_age) == Some(
                artifacts_of(entries, now, minimum_age)[i],
            ),
    decreases entries.len(),
{
    let front = entries.drop_last();
    let before = artifacts_of(front, now, minimum_age);
    if i < before.len() {
        artifacts_are_entries(front, now, minimum_age, i);
        let j = choose|j: int|
            0 <= j < front.len() && artifact_of(#[trigger] front[j], now, minimum_age) == Some(before[i]);
        assert(entries[j] == front[j]);
    } else {
        assert(artifact_of(entries[entries.len() - 1], now, minimum_age) is Some);
    }
}

/// Every entry that is an artifact and old enough is found.
pub proof fn old_artifacts_are_found(entries: Seq<ProjectView>, now: int, minimum_age: int, j: int)
    requires
        0 <= j < entries.len(),
        artifact_of(entries[j], now, minimum_age) is Some,
    ensures
        artifacts_of(entries, now, minimum_age).contains(artifact_of(entries[j], now, minimum_age)->0),
    decreases entries.len(),
{
    let front = entries.drop_last();
    let before = artifacts_of(front, now, minimum_age);
    let all = artifacts_of(entries, now, minimum_age);
    let one = artifact_of(entries[j], now, minimum_age)->0;
    if j < front.len() {
        assert(front[j] == entries[j]);
        old_artifacts_are_found(front, now, minimum_age, j);
        let k = choose|k: int| 0 <= k < before.len() && before[k] == one;
        assert(all[k] == one);
    } else {
        assert(all[all.len() - 1] == one);
    }
}

/// What was found bears the name of an artifact, and is at least as many days old
/// as was asked, as long as their seconds can be counted.
pub proof fn artifacts_are_old_enough(entries: Seq<ProjectView>, now: int, older_than_days: u64, i: int)
    requires
        older_than_days * SECONDS_PER_DAY <= u64::MAX,
        0 <= i < artifacts_of(
            entries,
            now,
            saturating_product(older_than_days, SECONDS_PER_DAY) as int,
        ).len(),
    ensures
        ({
            let minimum = saturating_product(older_than_days, SECONDS_PER_DAY) as int;
            let found = artifacts_of(entries, now, minimum)[i];
            artifact_path(found.path) && found.age_days >= older_than_days
        }),
{
    let minimum = saturating_product(older_than_days, SECONDS_PER_DAY) as int;
    artifacts_are_entries(entries, now, minimum, i);
    let found = artifacts_of(entries, now, minimum)[i];
    let j = choose|j: int|
        0 <= j < entries.len() && artifact_of(#[trigger] entries[j], now, minimum) == Some(found);
    let age = age_at(now, entries[j].metadata->0);
    assert(minimum == older_than_days * 86_400);
    assert(age >= minimum * 1_000_000_000);
    assert(age / 1_000_000_000 >= minimum);
    assert(age / 1_000_000_000 / 86_400 >= older_than_days);
}

/// Whether a walk that starts at `root` comes by an entry: it lies as many levels
/// down as it has components more, and the walk looks at each directory on the way.
pub open spec fn reached(root: PathView, entry: ProjectView) -> bool {
    match entry.path.strip_prefix(root) {
        Some(relative) => {
            &&& entry.depth == relative.parts.len()
            &&& forall|i: int|
                0 <= i < relative.parts.len() ==> visited((i + 1) as nat, #[trigger] relative.parts[i])
        },
        None => false,
    }
}

/// Nothing is found too deep, nor in a directory of version control: on the way
/// from the root to an artifact there is none.
pub proof fn artifacts_lie_outside_version_control(
    root: PathView,
    entries: Seq<ProjectView>,
    now: int,
    minimum_age: int,
    i: int,
)
    requires
        forall|j: int| 0 <= j < entries.len() ==> reached(root, #[trigger] entries[j]),
        0 <= i < artifacts_of(entries, now, minimum_age).len(),
    ensures
        artifacts_of(entries, now, minimum_age)[i].path.starts_with(root),
        artifacts_of(entries, now, minimum_age)[i].path.route().parts.len() <= root.route().parts.len()
            + PROJECT_DEPTH,
        forall|k: int|
            root.route().parts.len() <= k < artifacts_of(entries, now, minimum_age)[i].path.route().parts.len()
                ==> #[trigger] artifacts_of(entries, now, minimum_age)[i].path.route().parts[k] != encode_utf8(".git"@),
{
    artifacts_are_entries(entries, now, minimum_age, i);
    let found = artifacts_of(entries, now, minimum_age)[i];
    let j = choose|j: int|
        0 <= j < entries.len() && artifact_of(#[trigger] entries[j], now, minimum_age) == Some(found);
    assert(reached(root, entries[j]));
    let relative = found.path.strip_prefix(root)->0;
    assert forall|k: int|
        root.route().parts.len() <= k < found.path.route().parts.len() implies #[trigger] found.path.route().parts[k]
        != encode_utf8(".git"@) by {
        let at = k - root.route().parts.len();
        assert(relative.parts[at] == found.path.route().parts[k]);
        assert(visited((at + 1) as nat, relative.parts[at]));
    }
}

/// The candidates stand with the largest first; what is of one size, by path.
pub proof fn candidates_stand_largest_first(found: Seq<ArtifactView>, sizes: Seq<u64>)
    ensures
        ({
            let ranked = stable_sorted(sized(found, sizes), order_of::<PurgeCandidate>());
            forall|i: int, j: int|
                0 <= i < j < ranked.len() ==> PurgeCandidate::in_order(#[trigger] ranked[i], #[trigger] ranked[j])
        }),
{
    let ranked = stable_sorted(sized(found, sizes), order_of::<PurgeCandidate>());
    ranked_is_total_preorder::<PurgeCandidate>();
    sorted_is_ordered(sized(found, sizes), order_of::<PurgeCandidate>());
    assert forall|i: int, j: int| 0 <= i < j < ranked.len() implies PurgeCandidate::in_order(
        #[trigger] ranked[i],
        #[trigger] ranked[j],
    ) by {
        assert(order_of::<PurgeCandidate>()(ranked[i], ranked[j]));
    }
}

} // verus!
