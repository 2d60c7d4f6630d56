//! What holds of the large files that walks pick out.

use vstd::multiset::Multiset;
use vstd::prelude::*;

use crate::path::{entries_have_one_more_component, entry_name, PathView, Route};
use crate::walk::{
    excluded_tree, file_harvest, harvest_dir, harvest_entries, EntryKind, EntryView, FileMetadata, Harvest,
    LargeFileRuleView, LargeFileView, Tree, WalkRulesView,
};

verus! {

/// Whether a file may be listed as large: it is as large as asked, has the
/// components of the root at its beginning, and those of none of the trees that are
/// left out behind them.
pub open spec fn qualifies(rule: LargeFileRuleView, file: LargeFileView) -> bool {
    &&& file.size >= rule.minimum_size
    &&& file.path.strip_prefix(rule.root) is Some
    &&& !excluded_tree(file.path.strip_prefix(rule.root)->0)
}

proof fn lemma_entries_qualify(
    tree: Tree,
    rules: WalkRulesView,
    dir: PathView,
    depth: nat,
    entries: Seq<EntryView>,
    file: LargeFileView,
)
    requires
        harvest_entries(tree, rules, dir, depth, entries).large.count(file) > 0,
    ensures
        rules.large is Some && qualifies(rules.large->0, file),
    decreases rules.max_depth + 1 - depth, 0int, entries.len(),
{
    broadcast use vstd::multiset::group_multiset_axioms;

    if entries.len() > 0 {
        let front = harvest_entries(tree, rules, dir, depth, entries.drop_last());
        let entry = entries.last();
        let path = dir.child(entry.name);
        if front.large.count(file) > 0 {
            lemma_entries_qualify(tree, rules, dir, depth, entries.drop_last(), file);
        } else if let EntryKind::File(metadata) = entry.kind {
            assert(file_harvest(rules, path, metadata).large.count(file) > 0);
        } else if entry.kind is Directory && depth < rules.max_depth {
            large_files_qualify(tree, rules, path, depth + 1, file);
        }
    }
}

/// A walk brings home only large files that may be listed as such.
pub proof fn large_files_qualify(tree: Tree, rules: WalkRulesView, dir: PathView, depth: nat, file: LargeFileView)
    requires
        harvest_dir(tree, rules, dir, depth).large.count(file) > 0,
    ensures
        rules.large is Some && qualifies(rules.large->0, file),
    decreases rules.max_depth + 1 - depth, 1int, 0nat,
{
    broadcast use vstd::multiset::group_multiset_axioms;

    if depth <= rules.max_depth && tree.contains_key(dir) {
        lemma_entries_qualify(tree, rules, dir, depth, tree[dir], file);
    }
}

/// Whether two walks go alike, but for the size from which on files are large; the
/// second asks for no less.
pub open spec fn raises_the_minimum(a: WalkRulesView, b: WalkRulesView) -> bool {
    &&& a.skip_known == b.skip_known
    &&& a.max_depth == b.max_depth
    &&& a.large is Some
    &&& b.large is Some
    &&& a.large->0.root == b.large->0.root
    &&& a.large->0.minimum_size <= b.large->0.minimum_size
}

/// A harvest with the large files of at least that size only.
pub open spec fn selected(harvest: Harvest, minimum_size: u64) -> Harvest {
    Harvest { large: harvest.large.filter(|file: LargeFileView| file.size >= minimum_size), ..harvest }
}

proof fn lemma_selected_plus(a: Harvest, b: Harvest, minimum_size: u64)
    ensures
        selected(a.plus(b), minimum_size) == selected(a, minimum_size).plus(selected(b, minimum_size)),
{
    broadcast use vstd::multiset::group_multiset_axioms;

    assert(selected(a.plus(b), minimum_size).large =~= selected(a, minimum_size).plus(
        selected(b, minimum_size),
    ).large);
}

proof fn lemma_selected_none(harvest: Harvest, minimum_size: u64)
    requires
        harvest.large == Multiset::<LargeFileView>::empty(),
    ensures
        selected(harvest, minimum_size) == harvest,
{
    broadcast use vstd::multiset::group_multiset_axioms;

    assert(selected(harvest, minimum_size).large =~= harvest.large);
}

/// The size from which on files are large changes nothing about a file but
/// whether it is picked out.
pub proof fn minimum_sizes_select_files(
    a: WalkRulesView,
    b: WalkRulesView,
    path: PathView,
    metadata: FileMetadata,
)
    requires
        raises_the_minimum(a, b),
    ensures
        file_harvest(b, path, metadata) == selected(file_harvest(a, path, metadata), b.large->0.minimum_size),
{
    broadcast use vstd::multiset::group_multiset_axioms;

    let picked = selected(file_harvest(a, path, metadata), b.large->0.minimum_size);
    assert(file_harvest(b, path, metadata).large =~= picked.large);
}

/// The size from which on files are large only selects large files, in some entries
/// of a directory: all else that they bring stays the same.
pub proof fn minimum_sizes_select_in_entries(
    tree: Tree,
    a: WalkRulesView,
    b: WalkRulesView,
    dir: PathView,
    depth: nat,
    entries: Seq<EntryView>,
)
    requires
        raises_the_minimum(a, b),
    ensures
        harvest_entries(tree, b, dir, depth, entries) == selected(
            harvest_entries(tree, a, dir, depth, entries),
            b.large->0.minimum_size,
        ),
    decreases a.max_depth + 1 - depth, 0int, entries.len(),
{
    let minimum = b.large->0.minimum_size;
    if entries.len() == 0 {
        lemma_selected_none(Harvest::nothing(), minimum);
    } else {
        let front = harvest_entries(tree, a, dir, depth, entries.drop_last());
        let entry = entries.last();
        let path = dir.child(entry.name);
        minimum_sizes_select_in_entries(tree, a, b, dir, depth, entries.drop_last());
        match entry.kind {
            EntryKind::Symlink | EntryKind::Other => {},
            EntryKind::UnreadableFile | EntryKind::Unknown => {
                lemma_selected_none(Harvest::one_skipped(), minimum);
                lemma_selected_plus(front, Harvest::one_skipped(), minimum);
            },
            EntryKind::File(metadata) => {
                minimum_sizes_select_files(a, b, path, metadata);
                lemma_selected_plus(front, file_harvest(a, path, metadata), minimum);
            },
            EntryKind::Directory => if depth < a.max_depth {
                minimum_sizes_select_large_files(tree, a, b, path, depth + 1);
                lemma_selected_plus(front, harvest_dir(tree, a, path, depth + 1), minimum);
            },
        }
    }
}

/// The size from which on files are large only selects large files: all else that a
/// directory brings stays the same.
pub proof fn minimum_sizes_select_large_files(
    tree: Tree,
    a: WalkRulesView,
    b: WalkRulesView,
    dir: PathView,
    depth: nat,
)
    requires
        raises_the_minimum(a, b),
    ensures
        harvest_dir(tree, b, dir, depth) == selected(harvest_dir(tree, a, dir, depth), b.large->0.minimum_size),
    decreases a.max_depth + 1 - depth, 1int, 0nat,
{
    let minimum = b.large->0.minimum_size;
    lemma_selected_none(Harvest::nothing(), minimum);
    lemma_selected_none(Harvest::one_skipped(), minimum);
    if depth <= a.max_depth && tree.contains_key(dir) {
        minimum_sizes_select_in_entries(tree, a, b, dir, depth, tree[dir]);
    }
}

/// What a directory can hold: entries with names, no two of the same.
pub open spec fn proper_listing(entries: Seq<EntryView>) -> bool {
    &&& forall|i: int| 0 <= i < entries.len() ==> entry_name((#[trigger] entries[i]).name)
    &&& forall|i: int, j: int|
        0 <= i < j < entries.len() ==> (#[trigger] entries[i]).name != (#[trigger] entries[j]).name
}

/// A tree as file systems have them.
pub open spec fn proper_tree(tree: Tree) -> bool {
    forall|dir: PathView| #[trigger] tree.contains_key(dir) ==> proper_listing(tree[dir])
}

/// Whether a path has these components at its beginning, and the name behind them.
spec fn leads_through(file: Route, dir: Route, name: Seq<u8>) -> bool {
    &&& file.absolute == dir.absolute
    &&& file.parts.len() > dir.parts.len()
    &&& dir.parts.is_prefix_of(file.parts)
    &&& file.parts[dir.parts.len() as int] == name
}

proof fn lemma_proper_front(entries: Seq<EntryView>)
    requires
        proper_listing(entries),
        entries.len() > 0,
    ensures
        proper_listing(entries.drop_last()),
        entry_name(entries.last().name),
        forall|i: int|
            0 <= i < entries.drop_last().len() ==> (#[trigger] entries.drop_last()[i]).name != entries.last().name,
{
    let front = entries.drop_last();
    let last = entries.len() - 1;
    assert(entry_name(entries[last].name));
    assert forall|i: int| 0 <= i < front.len() implies entry_name((#[trigger] front[i]).name) && front[i].name
        != entries.last().name by {
        assert(front[i] == entries[i]);
        assert(entries[i].name != entries[last].name);
    }
    assert forall|i: int, j: int| 0 <= i < j < front.len() implies (#[trigger] front[i]).name != (
    #[trigger] front[j]).name by {
        assert(front[i] == entries[i] && front[j] == entries[j]);
    }
}

proof fn lemma_last_leads(
    tree: Tree,
    rules: WalkRulesView,
    dir: PathView,
    depth: nat,
    entry: EntryView,
    file: LargeFileView,
)
    requires
        proper_tree(tree),
        entry_name(entry.name),
        match entry.kind {
            EntryKind::File(metadata) => file_harvest(rules, dir.child(entry.name), metadata).large.count(file) > 0,
            EntryKind::Directory => depth < rules.max_depth && harvest_dir(
                tree,
                rules,
                dir.child(entry.name),
                depth + 1,
            ).large.count(file) > 0,
            _ => false,
        },
    ensures
        leads_through(file.path.route(), dir.route(), entry.name),
    decreases rules.max_depth + 1 - depth, 0int, 0nat,
{
    broadcast use vstd::multiset::group_multiset_axioms;

    let path = dir.child(entry.name);
    let parts = dir.route().parts;
    entries_have_one_more_component(dir, entry.name);
    assert(path.route().parts[parts.len() as int] == entry.name);
    assert(parts.is_prefix_of(parts.push(entry.name)));
    if let EntryKind::File(metadata) = entry.kind {
        assert(file.path == path);
    } else {
        assert(tree.contains_key(path));
        let k = lemma_file_leads(tree, rules, path, depth + 1, tree[path], file);
        let below = file.path.route().parts;
        assert(below[parts.len() as int] == path.route().parts[parts.len() as int]) by {
            assert(below.subrange(0, path.route().parts.len() as int)[parts.len() as int]
                == path.route().parts[parts.len() as int]);
        }
        assert(parts =~= below.subrange(0, parts.len() as int)) by {
            assert forall|i: int| 0 <= i < parts.len() implies parts[i] == below[i] by {
                assert(below.subrange(0, path.route().parts.len() as int)[i] == path.route().parts[i]);
            }
        }
    }
}

proof fn lemma_file_leads(
    tree: Tree,
    rules: WalkRulesView,
    dir: PathView,
    depth: nat,
    entries: Seq<EntryView>,
    file: LargeFileView,
) -> (k: int)
    requires
        proper_tree(tree),
        proper_listing(entries),
        harvest_entries(tree, rules, dir, depth, entries).large.count(file) > 0,
    ensures
        0 <= k < entries.len(),
        leads_through(file.path.route(), dir.route(), entries[k].name),
    decreases rules.max_depth + 1 - depth, 1int, entries.len(),
{
    broadcast use vstd::multiset::group_multiset_axioms;

    lemma_proper_front(entries);
    let front = entries.drop_last();
    if harvest_entries(tree, rules, dir, depth, front).large.count(file) > 0 {
        let k = lemma_file_leads(tree, rules, dir, depth, front, file);
        assert(entries[k] == front[k]);
        k
    } else {
        lemma_last_leads(tree, rules, dir, depth, entries.last(), file);
        entries.len() - 1
    }
}

/// Large files among some entries of a directory stand apart: those with the same
/// components are the same file.
pub proof fn large_files_in_entries_stand_apart(
    tree: Tree,
    rules: WalkRulesView,
    dir: PathView,
    depth: nat,
    entries: Seq<EntryView>,
    f: LargeFileView,
    g: LargeFileView,
)
    requires
        proper_tree(tree),
        proper_listing(entries),
        harvest_entries(tree, rules, dir, depth, entries).large.count(f) > 0,
        harvest_entries(tree, rules, dir, depth, entries).large.count(g) > 0,
        f.path.route() == g.path.route(),
    ensures
        f == g,
    decreases rules.max_depth + 1 - depth, entries.len(),
{
    broadcast use vstd::multiset::group_multiset_axioms;

    lemma_proper_front(entries);
    let front = entries.drop_last();
    let entry = entries.last();
    let path = dir.child(entry.name);
    let before = harvest_entries(tree, rules, dir, depth, front);
    if before.large.count(f) > 0 && before.large.count(g) > 0 {
        large_files_in_entries_stand_apart(tree, rules, dir, depth, front, f, g);
    } else if before.large.count(f) > 0 {
        let k = lemma_file_leads(tree, rules, dir, depth, front, f);
        lemma_last_leads(tree, rules, dir, depth, entry, g);
        assert(front[k].name != entry.name);
    } else if before.large.count(g) > 0 {
        let k = lemma_file_leads(tree, rules, dir, depth, front, g);
        lemma_last_leads(tree, rules, dir, depth, entry, f);
        assert(front[k].name != entry.name);
    } else if entry.kind is Directory {
        let below = harvest_dir(tree, rules, path, depth + 1);
        assert(depth < rules.max_depth);
        assert(below.large.count(f) > 0 && below.large.count(g) > 0);
        assert(Harvest::one_skipped().large.count(f) == 0);
        assert(tree.contains_key(path));
        large_files_in_entries_stand_apart(tree, rules, path, depth + 1, tree[path], f, g);
    }
}

} // verus!
