//! What sizes and reports tell of a directory, in terms of the files that lie below it.

use vstd::prelude::*;
use vstd::utf8::encode_utf8;

use crate::analyze::{
    all_large, assembled, disk_entries, large_file_item, planned, plans_of, root_plans, root_skipped, rules_for,
    sizing_of, AnalysisView, ChildKind, ChildView, DiskEntry, DiskView, PathMetadata, PlanView, SizingView,
};
use crate::analyze_laws::{
    all_ended, child_entries, child_harvest, children_are_measured_exactly, lemma_planned, nothing_taken,
    progress_after, reports_tell_what_the_directory_holds, walks_of,
};
use crate::large_laws::{proper_listing, proper_tree};
use crate::model::ActionView;
use crate::order::{order_of, ranked_is_total_preorder, sorted_is_ordered, sorting_keeps_elements};
use crate::path::{entries_have_one_more_component, entry_name, path_le, path_of, PathView, Route};
use crate::path_laws::{
    dots_are_names_of_none, prefixes_are_told_by_components, separators_part_components,
    single_segments_are_components,
};
use crate::text::{lossy_text, text_le};
use crate::tree_laws::{
    below, lies_below, names_lead_to_their_components, sum_over, sums_of_the_same_are_the_same,
    walks_count_all_that_lies_below, walks_pick_out_every_large_file, what_lies_below_has_names, Reached,
};
use crate::walk::{
    excluded_tree, harvest_dir, hidden_part, large_file, skipped_name, DirView, EntryKind, FileMetadata, LargeFile,
    LargeFileRuleView, LargeFileView, Tree, WalkView,
};
use crate::walk_laws::{after, brought, ended, every_order_brings_the_same, walks_bring_their_directory, Step};

verus! {

/// Exactly two names are passed over: those of the directories of version control and
/// of node packages, byte by byte.
pub proof fn two_names_are_passed_over(name: Seq<u8>)
    ensures
        skipped_name(name) <==> {
            ||| name == seq![46u8, 103u8, 105u8, 116u8]
            ||| name == seq![110u8, 111u8, 100u8, 101u8, 95u8, 109u8, 111u8, 100u8, 117u8, 108u8, 101u8, 115u8]
        },
{
    reveal_strlit(".git");
    reveal_strlit("node_modules");
    assert(vstd::utf8::is_ascii_chars(".git"@));
    assert(vstd::utf8::is_ascii_chars("node_modules"@));
    vstd::utf8::is_ascii_chars_encode_utf8(".git"@);
    vstd::utf8::is_ascii_chars_encode_utf8("node_modules"@);
    assert(encode_utf8(".git"@) =~= seq![46u8, 103u8, 105u8, 116u8]);
    assert(encode_utf8("node_modules"@) =~= seq![
        110u8,
        111u8,
        100u8,
        101u8,
        95u8,
        109u8,
        111u8,
        100u8,
        117u8,
        108u8,
        101u8,
        115u8,
    ]);
}

/// What does not exist has no size; a regular file has its own, and so has a symbolic
/// link, whatever it points to.
pub proof fn files_and_links_have_their_own_size(path: PathView, metadata: Option<PathMetadata>)
    ensures
        metadata is None ==> sizing_of(path, metadata) == SizingView::Known(0),
        metadata is Some && (metadata->0.is_symlink || metadata->0.is_file) ==> sizing_of(path, metadata)
            == SizingView::Known(metadata->0.size),
{
}

/// The size of a directory is the sum of the sizes of all regular files below it, at
/// whatever depth, that can be reached without crossing a symbolic link. There is a
/// list of all that lies below the directory, each once, and the bytes that a walk has
/// gathered when it ends are those of the regular files in it. Only that the paths of
/// directories fit in memory is asked for.
pub proof fn directories_are_as_large_as_all_files_below(
    tree: Tree,
    path: PathView,
    metadata: PathMetadata,
    steps: Seq<Step>,
) -> (found: Seq<Reached>)
    requires
        !metadata.is_symlink,
        !metadata.is_file,
        proper_tree(tree),
        forall|dir: PathView| #[trigger] tree.contains_key(dir) ==> dir.bytes.len() < usize::MAX,
        sizing_of(path, Some(metadata)) is Walk ==> ended(
            after(tree, sizing_of(path, Some(metadata))->Walk_0, steps),
        ),
    ensures
        sizing_of(path, Some(metadata)) is Walk,
        found.no_duplicates(),
        forall|entry: Reached| #[trigger] found.contains(entry) <==> lies_below(tree, path, entry),
        after(tree, sizing_of(path, Some(metadata))->Walk_0, steps).walk.bytes == sum_over(
            found,
            |entry: Reached|
                match entry.kind {
                    EntryKind::File(file) => file.size as nat,
                    _ => 0,
                },
        ),
        after(tree, sizing_of(path, Some(metadata))->Walk_0, steps).walk.files == sum_over(
            found,
            |entry: Reached|
                if entry.kind is File {
                    1
                } else {
                    0
                },
        ),
{
    let start = sizing_of(path, Some(metadata))->Walk_0;
    let rules = start.rules;
    assert(start == WalkView::idle(rules).with_dir(DirView { path, depth: 1 }));
    assert(rules.max_depth == usize::MAX);
    walks_bring_their_directory(tree, rules, path);
    every_order_brings_the_same(tree, start, steps);
    assert(brought(after(tree, start, steps)) == harvest_dir(tree, rules, path, 1));
    assert forall|entry: Reached| lies_below(tree, path, entry) implies entry.names.len() <= usize::MAX
        && tree.contains_key(path) by {
        what_lies_below_has_names(tree, path, entry);
        let last = entry.names.len() - 1;
        let front = entry.names.take(last);
        assert forall|k: int| 0 <= k < front.len() implies entry_name(#[trigger] front[k]) by {
            assert(entry_name(entry.names[k]));
        }
        names_lead_to_their_components(path, front);
        let name = entry.names[last];
        assert(tree.contains_key(below(path, entry.names.take(last))));
        let first = entry.names[0];
        assert(entry.names.take(0) =~= Seq::empty());
        assert(tree.contains_key(below(path, entry.names.take(0))));
    }
    if tree.contains_key(path) {
        let found = walks_count_all_that_lies_below(tree, rules, path, 1);
        assert forall|entry: Reached| #[trigger] found.contains(entry) <==> lies_below(tree, path, entry) by {
            if lies_below(tree, path, entry) {
                assert(entry.names.len() <= usize::MAX);
            }
        }
        found
    } else {
        Seq::empty()
    }
}

proof fn lemma_ascii(text: Seq<char>)
    requires
        vstd::utf8::is_ascii_chars(text),
    ensures
        encode_utf8(text).len() == text.len(),
        forall|i: int| 0 <= i < text.len() ==> #[trigger] encode_utf8(text)[i] == text[i] as u8,
        !text.contains('/') ==> !encode_utf8(text).contains(47u8),
{
    vstd::utf8::is_ascii_chars_encode_utf8(text);
    if !text.contains('/') && encode_utf8(text).contains(47u8) {
        let i = choose|i: int| 0 <= i < encode_utf8(text).len() && encode_utf8(text)[i] == 47u8;
        assert(text[i] == '/');
    }
}

proof fn lemma_route_of_cache()
    ensures
        path_of(".cache"@).route() == (Route { absolute: false, parts: seq![encode_utf8(".cache"@)] }),
{
    reveal_strlit(".cache");
    lemma_ascii(".cache"@);
    single_segments_are_components(encode_utf8(".cache"@));
}

proof fn lemma_route_of_local_share_trash()
    ensures
        path_of(".local/share/Trash"@).route() == (Route {
            absolute: false,
            parts: seq![encode_utf8(".local"@), encode_utf8("share"@), encode_utf8("Trash"@)],
        }),
{
    reveal_strlit(".local/share/Trash");
    reveal_strlit(".local");
    reveal_strlit("share");
    reveal_strlit("Trash");
    lemma_ascii(".local/share/Trash"@);
    lemma_ascii(".local"@);
    lemma_ascii("share"@);
    lemma_ascii("Trash"@);
    single_segments_are_components(encode_utf8(".local"@));
    let front = encode_utf8(".local"@);
    separators_part_components(front, encode_utf8("share"@));
    assert(seq![front].push(encode_utf8("share"@)) =~= seq![front, encode_utf8("share"@)]);
    let middle = front.push(47u8) + encode_utf8("share"@);
    separators_part_components(middle, encode_utf8("Trash"@));
    assert(encode_utf8(".local/share/Trash"@) =~= middle.push(47u8) + encode_utf8("Trash"@));
    assert(seq![front, encode_utf8("share"@)].push(encode_utf8("Trash"@)) =~= seq![
        front,
        encode_utf8("share"@),
        encode_utf8("Trash"@),
    ]);
}

proof fn lemma_route_of_cargo()
    ensures
        path_of(".cargo"@).route() == (Route { absolute: false, parts: seq![encode_utf8(".cargo"@)] }),
{
    reveal_strlit(".cargo");
    lemma_ascii(".cargo"@);
    single_segments_are_components(encode_utf8(".cargo"@));
}

proof fn lemma_route_of_npm()
    ensures
        path_of(".npm"@).route() == (Route { absolute: false, parts: seq![encode_utf8(".npm"@)] }),
{
    reveal_strlit(".npm");
    lemma_ascii(".npm"@);
    single_segments_are_components(encode_utf8(".npm"@));
}

proof fn lemma_route_of_go_pkg()
    ensures
        path_of("go/pkg"@).route() == (Route { absolute: false, parts: seq![encode_utf8("go"@), encode_utf8("pkg"@)] }),
{
    reveal_strlit("go/pkg");
    reveal_strlit("go");
    reveal_strlit("pkg");
    lemma_ascii("go/pkg"@);
    lemma_ascii("go"@);
    lemma_ascii("pkg"@);
    single_segments_are_components(encode_utf8("go"@));
    let front = encode_utf8("go"@);
    separators_part_components(front, encode_utf8("pkg"@));
    assert(seq![front].push(encode_utf8("pkg"@)) =~= seq![front, encode_utf8("pkg"@)]);
    assert(encode_utf8("go/pkg"@) =~= front.push(47u8) + encode_utf8("pkg"@));
}

proof fn lemma_route_of_local_share_flatpak()
    ensures
        path_of(".local/share/flatpak"@).route() == (Route {
            absolute: false,
            parts: seq![encode_utf8(".local"@), encode_utf8("share"@), encode_utf8("flatpak"@)],
        }),
{
    reveal_strlit(".local/share/flatpak");
    reveal_strlit(".local");
    reveal_strlit("share");
    reveal_strlit("flatpak");
    lemma_ascii(".local/share/flatpak"@);
    lemma_ascii(".local"@);
    lemma_ascii("share"@);
    lemma_ascii("flatpak"@);
    single_segments_are_components(encode_utf8(".local"@));
    let front = encode_utf8(".local"@);
    separators_part_components(front, encode_utf8("share"@));
    assert(seq![front].push(encode_utf8("share"@)) =~= seq![front, encode_utf8("share"@)]);
    let middle = front.push(47u8) + encode_utf8("share"@);
    separators_part_components(middle, encode_utf8("flatpak"@));
    assert(encode_utf8(".local/share/flatpak"@) =~= middle.push(47u8) + encode_utf8("flatpak"@));
    assert(seq![front, encode_utf8("share"@)].push(encode_utf8("flatpak"@)) =~= seq![
        front,
        encode_utf8("share"@),
        encode_utf8("flatpak"@),
    ]);
}

proof fn lemma_route_of_local_share_docker()
    ensures
        path_of(".local/share/docker"@).route() == (Route {
            absolute: false,
            parts: seq![encode_utf8(".local"@), encode_utf8("share"@), encode_utf8("docker"@)],
        }),
{
    reveal_strlit(".local/share/docker");
    reveal_strlit(".local");
    reveal_strlit("share");
    reveal_strlit("docker");
    lemma_ascii(".local/share/docker"@);
    lemma_ascii(".local"@);
    lemma_ascii("share"@);
    lemma_ascii("docker"@);
    single_segments_are_components(encode_utf8(".local"@));
    let front = encode_utf8(".local"@);
    separators_part_components(front, encode_utf8("share"@));
    assert(seq![front].push(encode_utf8("share"@)) =~= seq![front, encode_utf8("share"@)]);
    let middle = front.push(47u8) + encode_utf8("share"@);
    separators_part_components(middle, encode_utf8("docker"@));
    assert(encode_utf8(".local/share/docker"@) =~= middle.push(47u8) + encode_utf8("docker"@));
    assert(seq![front, encode_utf8("share"@)].push(encode_utf8("docker"@)) =~= seq![
        front,
        encode_utf8("share"@),
        encode_utf8("docker"@),
    ]);
}

/// Large files are left out in seven trees, by the names that lead to them: caches, the
/// trash, and what package managers, Flatpak and docker keep.
pub proof fn seven_trees_are_left_out(names: Seq<Seq<u8>>)
    ensures
        excluded_tree(Route { absolute: false, parts: names }) <==> {
            ||| seq![encode_utf8(".cache"@)].is_prefix_of(names)
            ||| seq![encode_utf8(".local"@), encode_utf8("share"@), encode_utf8("Trash"@)].is_prefix_of(names)
            ||| seq![encode_utf8(".cargo"@)].is_prefix_of(names)
            ||| seq![encode_utf8(".npm"@)].is_prefix_of(names)
            ||| seq![encode_utf8("go"@), encode_utf8("pkg"@)].is_prefix_of(names)
            ||| seq![encode_utf8(".local"@), encode_utf8("share"@), encode_utf8("flatpak"@)].is_prefix_of(names)
            ||| seq![encode_utf8(".local"@), encode_utf8("share"@), encode_utf8("docker"@)].is_prefix_of(names)
        },
{
    lemma_route_of_cache();
    lemma_route_of_local_share_trash();
    lemma_route_of_cargo();
    lemma_route_of_npm();
    lemma_route_of_go_pkg();
    lemma_route_of_local_share_flatpak();
    lemma_route_of_local_share_docker();
}

/// The report on `root`, once the walks through its children have ended.
pub open spec fn reported(
    tree: Tree,
    root: PathView,
    minimum_size: u64,
    max_depth: nat,
    children: Seq<ChildView>,
    steps: Seq<Seq<Step>>,
) -> AnalysisView {
    let plans = root_plans(root, Some(children));
    let rules = rules_for(root, minimum_size, max_depth);
    assembled(root, plans, walks_of(progress_after(tree, rules, plans, steps)), root_skipped(Some(children)))
}

/// Whether the walks through the children of `root` have ended, and nothing was taken
/// from them before.
pub open spec fn walked(
    tree: Tree,
    root: PathView,
    minimum_size: u64,
    max_depth: nat,
    children: Seq<ChildView>,
    steps: Seq<Seq<Step>>,
) -> bool {
    let progress = progress_after(
        tree,
        rules_for(root, minimum_size, max_depth),
        root_plans(root, Some(children)),
        steps,
    );
    all_ended(progress) && nothing_taken(progress)
}

/// A report counts every regular file below the directory, as deep as was asked, that
/// is reached through no symbolic link and has no name on its way that is passed over;
/// and nothing else. There is a list of all that the analysis comes by, each once. The
/// total size and the number of files are those of the regular files in it, where the
/// size is no more than a machine number. What was skipped are the entries that cannot
/// be told, the files without metadata, and the directories that could not be listed.
pub proof fn reports_count_all_files_below(
    tree: Tree,
    root: PathView,
    minimum_size: u64,
    max_depth: nat,
    children: Seq<ChildView>,
    steps: Seq<Seq<Step>>,
) -> (found: Seq<Reached>)
    requires
        proper_tree(tree),
        tree.contains_key(root),
        tree[root] == child_entries(children),
        walked(tree, root, minimum_size, max_depth, children, steps),
    ensures
        found.no_duplicates(),
        forall|entry: Reached| #[trigger]
            found.contains(entry) <==> {
                &&& lies_below(tree, root, entry)
                &&& entry.names.len() <= max_depth + 1
                &&& forall|k: int|
                    0 <= k < entry.names.len() ==> #[trigger] entry.names[k] != encode_utf8(".git"@) && entry.names[k]
                        != encode_utf8("node_modules"@)
            },
        ({
            let report = reported(tree, root, minimum_size, max_depth, children, steps);
            let bytes = sum_over(
                found,
                |entry: Reached|
                    match entry.kind {
                        EntryKind::File(file) => file.size as nat,
                        _ => 0,
                    },
            );
            &&& report.root == root
            &&& report.total_size == if bytes <= u64::MAX {
                bytes
            } else {
                u64::MAX as nat
            }
            &&& report.total_files == sum_over(
                found,
                |entry: Reached|
                    if entry.kind is File {
                        1
                    } else {
                        0
                    },
            )
            &&& report.skipped_entries == sum_over(
                found,
                |entry: Reached|
                    if entry.kind is UnreadableFile || entry.kind is Unknown || entry.kind is Directory
                        && entry.names.len() <= max_depth && !tree.contains_key(below(root, entry.names)) {
                        1
                    } else {
                        0
                    },
            )
        }),
{
    let rules = rules_for(root, minimum_size, max_depth);
    reports_tell_what_the_directory_holds(tree, rules, root, children, steps);
    let found = walks_count_all_that_lies_below(tree, rules, root, 0);
    lemma_same_sum_of_skipped(tree, root, max_depth, found);
    found
}

proof fn lemma_same_sum_of_skipped(tree: Tree, root: PathView, max_depth: nat, found: Seq<Reached>)
    ensures
        sum_over(
            found,
            |entry: Reached|
                if entry.kind is UnreadableFile || entry.kind is Unknown || entry.kind is Directory
                    && entry.names.len() + 0nat <= max_depth && !tree.contains_key(below(root, entry.names)) {
                    1
                } else {
                    0
                },
        ) == sum_over(
            found,
            |entry: Reached|
                if entry.kind is UnreadableFile || entry.kind is Unknown || entry.kind is Directory
                    && entry.names.len() <= max_depth && !tree.contains_key(below(root, entry.names)) {
                    1
                } else {
                    0
                },
        ),
{
    sums_of_the_same_are_the_same(
        found,
        |entry: Reached|
            if entry.kind is UnreadableFile || entry.kind is Unknown || entry.kind is Directory && entry.names.len()
                + 0nat <= max_depth && !tree.contains_key(below(root, entry.names)) {
                1
            } else {
                0
            },
        |entry: Reached|
            if entry.kind is UnreadableFile || entry.kind is Unknown || entry.kind is Directory && entry.names.len()
                <= max_depth && !tree.contains_key(below(root, entry.names)) {
                1
            } else {
                0
            },
    );
}

/// A report lists as large every regular file that it counts and that has the size that
/// was asked, but for those in the trees that are left out; each once, with its path,
/// its size and its last change. It counts as data of an application where a name on
/// its way begins with a dot. Nothing else is listed.
pub proof fn reports_list_every_large_file(
    tree: Tree,
    root: PathView,
    minimum_size: u64,
    max_depth: nat,
    children: Seq<ChildView>,
    steps: Seq<Seq<Step>>,
    file: LargeFileView,
)
    requires
        proper_tree(tree),
        tree.contains_key(root),
        tree[root] == child_entries(children),
        walked(tree, root, minimum_size, max_depth, children, steps),
    ensures
        reported(tree, root, minimum_size, max_depth, children, steps).large_files.no_duplicates(),
        reported(tree, root, minimum_size, max_depth, children, steps).large_files.contains(file) <==> exists|
            names: Seq<Seq<u8>>,
        |
            {
                &&& #[trigger] lies_below(
                    tree,
                    root,
                    Reached {
                        names,
                        kind: EntryKind::File(FileMetadata { size: file.size, modified_unix: file.modified_unix }),
                    },
                )
                &&& names.len() <= max_depth + 1
                &&& forall|k: int|
                    0 <= k < names.len() ==> #[trigger] names[k] != encode_utf8(".git"@) && names[k] != encode_utf8(
                        "node_modules"@,
                    )
                &&& file.size >= minimum_size
                &&& file.path == below(root, names)
                &&& file.app_data <==> exists|k: int| 0 <= k < names.len() && (#[trigger] names[k])[0] == 46u8
                &&& !{
                    ||| seq![encode_utf8(".cache"@)].is_prefix_of(names)
                    ||| seq![encode_utf8(".local"@), encode_utf8("share"@), encode_utf8("Trash"@)].is_prefix_of(names)
                    ||| seq![encode_utf8(".cargo"@)].is_prefix_of(names)
                    ||| seq![encode_utf8(".npm"@)].is_prefix_of(names)
                    ||| seq![encode_utf8("go"@), encode_utf8("pkg"@)].is_prefix_of(names)
                    ||| seq![encode_utf8(".local"@), encode_utf8("share"@), encode_utf8("flatpak"@)].is_prefix_of(names)
                    ||| seq![encode_utf8(".local"@), encode_utf8("share"@), encode_utf8("docker"@)].is_prefix_of(names)
                }
            },
{
    broadcast use vstd::seq_lib::group_to_multiset_ensures;

    let rules = rules_for(root, minimum_size, max_depth);
    let rule = rules.large->0;
    let report = reported(tree, root, minimum_size, max_depth, children, steps);
    let held = harvest_dir(tree, rules, root, 0).large;
    reports_tell_what_the_directory_holds(tree, rules, root, children, steps);
    assert(report.large_files.to_multiset() == held);
    assert forall|i: int, j: int|
        0 <= i < report.large_files.len() && 0 <= j < report.large_files.len() && i != j implies report.large_files[i]
        != report.large_files[j] by {
        if report.large_files[i] == report.large_files[j] {
            walks_pick_out_every_large_file(tree, rules, root, 0, report.large_files[i]);
            if i < j {
                lemma_twice(report.large_files, i, j);
            } else {
                lemma_twice(report.large_files, j, i);
            }
        }
    }
    walks_pick_out_every_large_file(tree, rules, root, 0, file);
    assert(report.large_files.contains(file) <==> held.count(file) > 0);
    let metadata = FileMetadata { size: file.size, modified_unix: file.modified_unix };
    assert forall|names: Seq<Seq<u8>>, known: FileMetadata| #[trigger]
        lies_below(tree, root, Reached { names, kind: EntryKind::File(known) }) implies (large_file(
        rule,
        below(root, names),
        known,
    ) == Some(file) <==> {
        &&& known == metadata
        &&& file.size >= minimum_size
        &&& file.path == below(root, names)
        &&& file.app_data <==> exists|k: int| 0 <= k < names.len() && (#[trigger] names[k])[0] == 46u8
        &&& !excluded_tree(Route { absolute: false, parts: names })
    }) by {
        let entry = Reached { names, kind: EntryKind::File(known) };
        what_lies_below_has_names(tree, root, entry);
        lemma_seen_from_the_root(root, names);
        let relative = below(root, names).strip_prefix(root)->0;
        assert(relative.parts == names);
        assert((exists|k: int| 0 <= k < names.len() && hidden_part(#[trigger] relative.parts[k])) <==> exists|k: int|
            0 <= k < names.len() && (#[trigger] names[k])[0] == 46u8) by {
            assert forall|k: int| 0 <= k < names.len() implies (hidden_part(#[trigger] names[k]) <==> names[k][0]
                == 46u8) by {
                assert(entry_name(entry.names[k]));
            }
            if exists|k: int| 0 <= k < names.len() && hidden_part(#[trigger] relative.parts[k]) {
                let k = choose|k: int| 0 <= k < names.len() && hidden_part(#[trigger] relative.parts[k]);
                assert(names[k][0] == 46u8);
            }
            if exists|k: int| 0 <= k < names.len() && (#[trigger] names[k])[0] == 46u8 {
                let k = choose|k: int| 0 <= k < names.len() && (#[trigger] names[k])[0] == 46u8;
                assert(hidden_part(relative.parts[k]));
            }
        }
    }
    if held.count(file) > 0 {
        let entry = choose|entry: Reached| #[trigger]
            lies_below(tree, root, entry) && entry.names.len() + 0nat <= max_depth + 1 && (forall|k: int|
                0 <= k < entry.names.len() ==> #[trigger] entry.names[k] != encode_utf8(".git"@) && entry.names[k]
                    != encode_utf8("node_modules"@)) && entry.kind is File && large_file(
                rule,
                below(root, entry.names),
                entry.kind->File_0,
            ) == Some(file);
        assert(entry == Reached { names: entry.names, kind: EntryKind::File(entry.kind->File_0) });
        assert(lies_below(tree, root, Reached { names: entry.names, kind: EntryKind::File(entry.kind->File_0) }));
        assert(entry.kind->File_0 == metadata);
        assert(lies_below(tree, root, Reached { names: entry.names, kind: EntryKind::File(metadata) }));
        seven_trees_are_left_out(entry.names);
    }
    assert forall|names: Seq<Seq<u8>>| true implies (excluded_tree(Route { absolute: false, parts: names }) <==> {
        ||| seq![encode_utf8(".cache"@)].is_prefix_of(names)
        ||| seq![encode_utf8(".local"@), encode_utf8("share"@), encode_utf8("Trash"@)].is_prefix_of(names)
        ||| seq![encode_utf8(".cargo"@)].is_prefix_of(names)
        ||| seq![encode_utf8(".npm"@)].is_prefix_of(names)
        ||| seq![encode_utf8("go"@), encode_utf8("pkg"@)].is_prefix_of(names)
        ||| seq![encode_utf8(".local"@), encode_utf8("share"@), encode_utf8("flatpak"@)].is_prefix_of(names)
        ||| seq![encode_utf8(".local"@), encode_utf8("share"@), encode_utf8("docker"@)].is_prefix_of(names)
    }) by {
        seven_trees_are_left_out(names);
    }
}

proof fn lemma_twice(s: Seq<LargeFileView>, i: int, j: int)
    requires
        0 <= i < j < s.len(),
        s[i] == s[j],
    ensures
        s.to_multiset().count(s[i]) >= 2,
{
    broadcast use vstd::multiset::group_multiset_axioms;
    broadcast use vstd::seq_lib::group_to_multiset_ensures;

    let (a, b) = (s.take(j), s.skip(j));
    vstd::seq_lib::lemma_multiset_commutative(a, b);
    assert(a + b =~= s);
    assert(a[i] == s[i]);
    assert(b[0] == s[i]);
    assert(a.contains(s[i]));
    assert(b.contains(s[i]));
    assert(a.to_multiset().count(s[i]) >= 1);
    assert(b.to_multiset().count(s[i]) >= 1);
}

proof fn lemma_seen_from_the_root(root: PathView, names: Seq<Seq<u8>>)
    requires
        forall|k: int| 0 <= k < names.len() ==> entry_name(#[trigger] names[k]),
    ensures
        below(root, names).strip_prefix(root) == Some(Route { absolute: false, parts: names }),
{
    names_lead_to_their_components(root, names);
    prefixes_are_told_by_components(below(root, names), root, names);
}

/// Every child of the directory stands in the report, but for those whose names are
/// passed over: with its name as a text, its path, whether it or what it points to is a
/// directory, and its size. A regular file has its own size; a directory that of all
/// regular files below it, as deep as was asked, that no symbolic link and no name that
/// is passed over stands on the way to; anything else has none.
pub proof fn children_are_reported_with_what_lies_below(
    tree: Tree,
    root: PathView,
    minimum_size: u64,
    max_depth: nat,
    children: Seq<ChildView>,
    steps: Seq<Seq<Step>>,
    i: int,
) -> (found: Seq<Reached>)
    requires
        proper_tree(tree),
        proper_listing(child_entries(children)),
        walked(tree, root, minimum_size, max_depth, children, steps),
        0 <= i < children.len(),
        children[i].entry.name != encode_utf8(".git"@),
        children[i].entry.name != encode_utf8("node_modules"@),
    ensures
        found.no_duplicates(),
        forall|entry: Reached| #[trigger]
            found.contains(entry) <==> {
                &&& lies_below(tree, root.child(children[i].entry.name), entry)
                &&& entry.names.len() <= max_depth
                &&& forall|k: int|
                    0 <= k < entry.names.len() ==> #[trigger] entry.names[k] != encode_utf8(".git"@) && entry.names[k]
                        != encode_utf8("node_modules"@)
            },
        ({
            let bytes = match children[i].entry.kind {
                EntryKind::File(file) => file.size as nat,
                EntryKind::Directory => sum_over(
                    found,
                    |entry: Reached|
                        match entry.kind {
                            EntryKind::File(file) => file.size as nat,
                            _ => 0,
                        },
                ),
                _ => 0,
            };
            bytes <= u64::MAX ==> reported(
                tree,
                root,
                minimum_size,
                max_depth,
                children,
                steps,
            ).entries.contains(
                DiskView {
                    name: lossy_text(children[i].entry.name),
                    path: root.child(children[i].entry.name),
                    size: bytes as u64,
                    is_dir: children[i].resolves_to_dir,
                },
            )
        }),
{
    broadcast use vstd::seq_lib::group_to_multiset_ensures;

    let rules = rules_for(root, minimum_size, max_depth);
    let plans = plans_of(root, children);
    let progress = progress_after(tree, rules, plans, steps);
    let walks = walks_of(progress);
    let name = children[i].entry.name;
    let path = root.child(name);
    children_are_measured_exactly(tree, rules, plans, steps);
    let j = lemma_planned(root, children, i);
    assert(brought(progress[j]) == child_harvest(tree, rules, plans[j]));
    let listed = disk_entries(plans, walks);
    sorting_keeps_elements(listed, order_of::<DiskEntry>());
    let entry = listed[j];
    assert(listed.contains(entry));
    assert(listed.to_multiset().count(entry) > 0);
    assert(reported(tree, root, minimum_size, max_depth, children, steps).entries.contains(entry));
    assert(child_entries(children)[i].name == name);
    assert(entry_name(name));
    entries_have_one_more_component(root, name);
    assert(path.file_name() == Some(name));
    assert(walks[j].bytes == child_harvest(tree, rules, plans[j]).bytes);
    if max_depth > 0 && tree.contains_key(path) {
        walks_count_all_that_lies_below(tree, rules, path, 1)
    } else {
        assert forall|e: Reached| lies_below(tree, path, e) implies max_depth == 0 && e.names.len() > 0 by {
            let first = e.names[0];
            assert(e.names.take(0) =~= Seq::empty());
            assert(tree.contains_key(below(path, e.names.take(0))));
        }
        Seq::empty()
    }
}

/// There are as many entries in a report as the directory has children whose names are
/// not passed over.
pub proof fn reports_list_no_child_twice(
    root: PathView,
    children: Seq<ChildView>,
    walks: Seq<WalkView>,
    skipped: nat,
)
    ensures
        assembled(root, root_plans(root, Some(children)), walks, skipped).entries.len() == children.filter(
            |child: ChildView|
                child.entry.name != encode_utf8(".git"@) && child.entry.name != encode_utf8("node_modules"@),
        ).len(),
{
    broadcast use vstd::seq_lib::group_to_multiset_ensures;

    let listed = disk_entries(plans_of(root, children), walks);
    let entries = assembled(root, root_plans(root, Some(children)), walks, skipped).entries;
    sorting_keeps_elements(listed, order_of::<DiskEntry>());
    assert(entries.len() == entries.to_multiset().len());
    assert(listed.len() == listed.to_multiset().len());
    lemma_plan_count(root, children);
}

proof fn lemma_plan_count(root: PathView, children: Seq<ChildView>)
    ensures
        plans_of(root, children).len() == children.filter(
            |child: ChildView|
                child.entry.name != encode_utf8(".git"@) && child.entry.name != encode_utf8("node_modules"@),
        ).len(),
    decreases children.len(),
{
    reveal(Seq::filter);
    if children.len() > 0 {
        lemma_plan_count(root, children.drop_last());
    }
}

/// A report lists children and large files with the larger first; of one size, children
/// go by their names, and large files by their paths.
pub proof fn reports_list_the_larger_first(
    root: PathView,
    plans: Seq<PlanView>,
    walks: Seq<WalkView>,
    skipped: nat,
    i: int,
    j: int,
)
    ensures
        ({
            let entries = assembled(root, plans, walks, skipped).entries;
            0 <= i < j < entries.len() ==> entries[i].size >= entries[j].size && (entries[i].size == entries[j].size
                ==> text_le(entries[i].name, entries[j].name))
        }),
        ({
            let files = assembled(root, plans, walks, skipped).large_files;
            0 <= i < j < files.len() ==> files[i].size >= files[j].size && (files[i].size == files[j].size ==> path_le(
                files[i].path,
                files[j].path,
            ))
        }),
{
    let report = assembled(root, plans, walks, skipped);
    ranked_is_total_preorder::<DiskEntry>();
    ranked_is_total_preorder::<LargeFile>();
    sorted_is_ordered(disk_entries(plans, walks), order_of::<DiskEntry>());
    sorted_is_ordered(all_large(walks), order_of::<LargeFile>());
    if 0 <= i < j < report.entries.len() {
        assert(order_of::<DiskEntry>()(report.entries[i], report.entries[j]));
    }
    if 0 <= i < j < report.large_files.len() {
        assert(order_of::<LargeFile>()(report.large_files[i], report.large_files[j]));
    }
}

/// Of a directory that cannot be read there is a report all the same: it is empty, and
/// counts the directory as skipped.
pub proof fn unreadable_directories_are_reported_as_skipped(root: PathView)
    ensures
        ({
            let report = assembled(root, root_plans(root, None), Seq::empty(), root_skipped(None));
            &&& report.root == root
            &&& report.entries.len() == 0
            &&& report.large_files.len() == 0
            &&& report.total_size == 0
            &&& report.total_files == 0
            &&& report.skipped_entries == 1
        }),
{
}

/// A large file is offered for removal itself, and only on request; it is told by its
/// path, and shown with the room that it takes up.
pub proof fn large_files_offer_themselves(file: LargeFileView)
    ensures
        ({
            let item = large_file_item(file);
            &&& item.action == ActionView::RemovePersonalFile { path: file.path }
            &&& item.risk is Explicit
            &&& item.group is User
            &&& item.estimated_bytes == file.size
            &&& item.id == "large-file:"@ + file.path.display()
            &&& item.label == "Large personal file "@ + file.path.display()
        }),
{
}

/// A file is large where it has at least the size that was asked, its path begins with the
/// components of the root, and what follows leads into no tree that is left out.
pub proof fn large_files_are_told_by_size_and_place(
    rule: LargeFileRuleView,
    path: PathView,
    metadata: FileMetadata,
)
    ensures
        ({
            let large = metadata.size >= rule.minimum_size && path.starts_with(rule.root) && !excluded_tree(
                path.strip_prefix(rule.root)->0,
            );
            match large_file(rule, path, metadata) {
                Some(file) => {
                    &&& large
                    &&& file.path == path
                    &&& file.size == metadata.size
                    &&& file.modified_unix == metadata.modified_unix
                    &&& file.app_data <==> exists|k: int|
                        0 <= k < path.strip_prefix(rule.root)->0.parts.len() && hidden_part(
                            #[trigger] path.strip_prefix(rule.root)->0.parts[k],
                        )
                },
                None => !large,
            }
        }),
{
}

/// A component is hidden where it is a name that begins with a dot.
pub proof fn hidden_names_begin_with_a_dot(part: Seq<u8>)
    ensures
        hidden_part(part) <==> part.len() > 0 && part[0] == 46u8 && part != seq![46u8] && part != seq![46u8, 46u8],
{
    dots_are_names_of_none(part);
}

/// A path that starts at the root, as seen from no directory at all, leads into no tree
/// that is left out.
pub proof fn absolute_paths_are_not_left_out(names: Seq<Seq<u8>>)
    ensures
        !excluded_tree(Route { absolute: true, parts: names }),
{
    lemma_route_of_cache();
    lemma_route_of_local_share_trash();
    lemma_route_of_cargo();
    lemma_route_of_npm();
    lemma_route_of_go_pkg();
    lemma_route_of_local_share_flatpak();
    lemma_route_of_local_share_docker();
}

/// Children are planned one by one, in their order: a directory is walked through, a
/// regular file counted, and anything else passed over, as is a child whose name is. What
/// cannot be read counts as skipped.
pub proof fn children_are_planned_one_by_one(root: PathView, children: Seq<ChildView>, child: ChildView)
    ensures
        root_plans(root, Some(Seq::empty())).len() == 0,
        root_skipped(Some(Seq::empty())) == 0,
        ({
            let passed = child.entry.name == encode_utf8(".git"@) || child.entry.name == encode_utf8("node_modules"@);
            &&& root_plans(root, Some(children.push(child))) == root_plans(root, Some(children)) + if passed {
                Seq::empty()
            } else {
                seq![
                    PlanView {
                        path: root.child(child.entry.name),
                        is_dir: child.resolves_to_dir,
                        kind: match child.entry.kind {
                            EntryKind::Directory => ChildKind::Dir,
                            EntryKind::File(metadata) => ChildKind::File(metadata),
                            _ => ChildKind::Skip,
                        },
                    },
                ]
            }
            &&& root_skipped(Some(children.push(child))) == root_skipped(Some(children)) + if !passed && (
            child.entry.kind is UnreadableFile || child.entry.kind is Unknown) {
                1nat
            } else {
                0
            }
        }),
{
    assert(children.push(child).drop_last() =~= children);
    let before = plans_of(root, children);
    assert(before + Seq::<PlanView>::empty() =~= before);
    if let Some(plan) = planned(root, child) {
        assert(before.push(plan) =~= before + seq![plan]);
    }
}

} // verus!
