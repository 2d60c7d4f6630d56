//! What holds of every search for build artifacts.

use vstd::prelude::*;
use vstd::utf8::encode_utf8;

use crate::order::{order_of, ranked_is_total_preorder, sorted_is_ordered, sorting_keeps_elements, stable_sorted};
use crate::path::path_le;
use crate::path_laws::names_stand_behind_the_last_separator;
use crate::purge::{
    artifact_of, artifacts_are_entries, artifacts_of, candidate_item, old_artifacts_are_found, sized, visited,
    ArtifactView, CandidateView, ProjectView, PurgeCandidate,
};

verus! {

proof fn lemma_artifact_name(name: Seq<char>)
    requires
        name == "node_modules"@ || name == "target"@ || name == ".build"@ || name == "build"@ || name == "dist"@ || name
            == ".venv"@,
    ensures
        encode_utf8(name).len() > 2,
        !encode_utf8(name).contains(47u8),
{
    reveal_strlit("node_modules");
    reveal_strlit("target");
    reveal_strlit(".build");
    reveal_strlit("build");
    reveal_strlit("dist");
    reveal_strlit(".venv");
    assert(vstd::utf8::is_ascii_chars(name));
    vstd::utf8::is_ascii_chars_encode_utf8(name);
    if encode_utf8(name).contains(47u8) {
        let i = choose|i: int| 0 <= i < encode_utf8(name).len() && encode_utf8(name)[i] == 47u8;
        assert(name[i] == '/');
    }
}

/// Every old build artifact is found: a directory, and no symbolic link, of one of
/// the six names, at most seven levels down, which has not been changed for as long
/// as was asked. What has no known moment of change counts as changed at the epoch,
/// and what was changed in the future as changed now.
pub proof fn old_build_directories_are_found(
    entries: Seq<ProjectView>,
    now: int,
    minimum_age: int,
    j: int,
    dir: Seq<u8>,
    name: Seq<char>,
)
    requires
        0 <= j < entries.len(),
        name == "node_modules"@ || name == "target"@ || name == ".build"@ || name == "build"@ || name == "dist"@ || name
            == ".venv"@,
        entries[j].path.bytes == dir.push(47u8) + encode_utf8(name) || entries[j].path.bytes == encode_utf8(name)
            || entries[j].path.file_name() == Some(encode_utf8(name)),
        entries[j].is_dir,
        entries[j].depth <= 7,
        entries[j].metadata is Some,
        !entries[j].metadata->0.is_symlink,
        minimum_age <= 0 || now - (match entries[j].metadata->0.modified {
            Some(nanos) => nanos as int,
            None => 0,
        }) >= minimum_age * 1_000_000_000,
    ensures
        ({
            let modified = match entries[j].metadata->0.modified {
                Some(nanos) => nanos as int,
                None => 0,
            };
            artifacts_of(entries, now, minimum_age).contains(
                ArtifactView {
                    path: entries[j].path,
                    kind: name,
                    modified_unix: if modified >= 0 {
                        Some(modified / 1_000_000_000)
                    } else {
                        None
                    },
                    age_days: if now >= modified {
                        (now - modified) / 86_400_000_000_000
                    } else {
                        0
                    },
                },
            )
        }),
{
    lemma_artifact_name(name);
    names_stand_behind_the_last_separator(dir, encode_utf8(name));
    assert(entries[j].path.file_name() == Some(encode_utf8(name)));
    vstd::utf8::encode_utf8_decode_utf8(name);
    let modified = match entries[j].metadata->0.modified {
        Some(nanos) => nanos as int,
        None => 0,
    };
    let age = if now >= modified {
        now - modified
    } else {
        0
    };
    assert(age >= minimum_age * 1_000_000_000) by {
        if minimum_age <= 0 {
            assert(minimum_age * 1_000_000_000 <= 0);
        }
    }
    assert(age / 1_000_000_000 / 86_400 == age / 86_400_000_000_000);
    assert(artifact_of(entries[j], now, minimum_age) is Some);
    old_artifacts_are_found(entries, now, minimum_age, j);
}

/// Nothing else is found: what is, is one of the entries, with its path and the name
/// that the path ends in, and the entry is an old build artifact.
pub proof fn only_old_build_directories_are_found(entries: Seq<ProjectView>, now: int, minimum_age: int, i: int)
    requires
        0 <= i < artifacts_of(entries, now, minimum_age).len(),
    ensures
        exists|j: int|
            0 <= j < entries.len() && {
                let found = artifacts_of(entries, now, minimum_age)[i];
                let entry = #[trigger] entries[j];
                let modified = match entry.metadata->0.modified {
                    Some(nanos) => nanos as int,
                    None => 0,
                };
                &&& entry.is_dir
                &&& entry.depth <= 7
                &&& entry.metadata is Some
                &&& !entry.metadata->0.is_symlink
                &&& minimum_age <= 0 || now - modified >= minimum_age * 1_000_000_000
                &&& found.path == entry.path
                &&& entry.path.file_name() == Some(encode_utf8(found.kind))
                &&& found.kind == "node_modules"@ || found.kind == "target"@ || found.kind == ".build"@ || found.kind
                    == "build"@ || found.kind == "dist"@ || found.kind == ".venv"@
                &&& found.modified_unix == if modified >= 0 {
                    Some(modified / 1_000_000_000)
                } else {
                    None
                }
                &&& found.age_days == if now >= modified {
                    (now - modified) / 86_400_000_000_000
                } else {
                    0
                }
            },
{
    broadcast use vstd::utf8::encode_utf8_decode_utf8;

    artifacts_are_entries(entries, now, minimum_age, i);
    let found = artifacts_of(entries, now, minimum_age)[i];
    let j = choose|j: int|
        0 <= j < entries.len() && artifact_of(#[trigger] entries[j], now, minimum_age) == Some(found);
    let entry = entries[j];
    let modified = match entry.metadata->0.modified {
        Some(nanos) => nanos as int,
        None => 0,
    };
    let age = if now >= modified {
        now - modified
    } else {
        0
    };
    assert(age / 1_000_000_000 / 86_400 == age / 86_400_000_000_000);
    if minimum_age > 0 {
        assert(minimum_age * 1_000_000_000 > 0);
    }
}

/// A search goes entry by entry, in their order: what is found in two lists of
/// entries, one behind the other, is what is found in the first, and behind it what
/// is found in the second. Of one entry, at most one artifact is found.
pub proof fn searches_go_entry_by_entry(a: Seq<ProjectView>, b: Seq<ProjectView>, now: int, minimum_age: int)
    ensures
        artifacts_of(a + b, now, minimum_age) == artifacts_of(a, now, minimum_age) + artifacts_of(b, now, minimum_age),
        a.len() <= 1 ==> artifacts_of(a, now, minimum_age).len() <= a.len(),
    decreases b.len(),
{
    if b.len() == 0 {
        assert(a + b =~= a);
        assert(artifacts_of(a, now, minimum_age) + artifacts_of(b, now, minimum_age) =~= artifacts_of(
            a,
            now,
            minimum_age,
        ));
    } else {
        assert((a + b).drop_last() =~= a + b.drop_last());
        searches_go_entry_by_entry(a, b.drop_last(), now, minimum_age);
        assert(artifacts_of(a + b, now, minimum_age) =~= artifacts_of(a, now, minimum_age) + artifacts_of(
            b,
            now,
            minimum_age,
        ));
    }
    if a.len() == 1 {
        assert(artifacts_of(a.drop_last(), now, minimum_age) =~= Seq::empty());
    }
}

/// A walk through a project passes over what is named `.git`, but for the directory
/// at which it starts, and looks at everything else.
pub proof fn walks_pass_over_version_control_only(depth: nat, name: Seq<u8>)
    ensures
        visited(depth, name) <==> depth == 0 || name != seq![46u8, 103u8, 105u8, 116u8],
{
    reveal_strlit(".git");
    assert(vstd::utf8::is_ascii_chars(".git"@));
    vstd::utf8::is_ascii_chars_encode_utf8(".git"@);
    assert(encode_utf8(".git"@) =~= seq![46u8, 103u8, 105u8, 116u8]);
}

/// Every artifact that was found becomes a candidate, with the size that was measured
/// for it, as often as it was found; there are no others.
pub proof fn candidates_are_what_was_found(found: Seq<ArtifactView>, sizes: Seq<u64>)
    requires
        found.len() == sizes.len(),
    ensures
        stable_sorted(sized(found, sizes), order_of::<PurgeCandidate>()).to_multiset() == Seq::new(
            found.len(),
            |i: int| CandidateView { artifact: found[i], size: sizes[i] },
        ).to_multiset(),
{
    sorting_keeps_elements(sized(found, sizes), order_of::<PurgeCandidate>());
    assert(sized(found, sizes) =~= Seq::new(
        found.len(),
        |i: int| CandidateView { artifact: found[i], size: sizes[i] },
    ));
}

/// Of two candidates, the larger stands first; of two of one size, the one whose path
/// comes first.
pub proof fn larger_candidates_stand_first(found: Seq<ArtifactView>, sizes: Seq<u64>, i: int, j: int)
    requires
        0 <= i < j < stable_sorted(sized(found, sizes), order_of::<PurgeCandidate>()).len(),
    ensures
        ({
            let ranked = stable_sorted(sized(found, sizes), order_of::<PurgeCandidate>());
            &&& ranked[i].size >= ranked[j].size
            &&& ranked[i].size == ranked[j].size ==> path_le(ranked[i].artifact.path, ranked[j].artifact.path)
        }),
{
    let ranked = stable_sorted(sized(found, sizes), order_of::<PurgeCandidate>());
    ranked_is_total_preorder::<PurgeCandidate>();
    sorted_is_ordered(sized(found, sizes), order_of::<PurgeCandidate>());
    assert(order_of::<PurgeCandidate>()(ranked[i], ranked[j]));
}

/// A candidate offers to remove its own directory, with all that it holds, and only
/// on request; it is told by its path, and shown with the room that it takes up.
pub proof fn candidates_offer_their_own_directory(candidate: CandidateView)
    ensures
        ({
            let item = candidate_item(candidate);
            let shown = candidate.artifact.path.display();
            &&& item.action == crate::model::ActionView::RemovePath {
                path: candidate.artifact.path,
                contents_only: false,
            }
            &&& item.risk is Explicit
            &&& item.group is Dev
            &&& item.estimated_bytes == candidate.size
            &&& item.id == "purge:"@ + shown
            &&& item.label == shown + " ("@ + candidate.artifact.kind + ")"@
        }),
{
}

} // verus!
