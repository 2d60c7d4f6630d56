//! What holds of walks through directory trees, in whatever order the
//! directories are listed.

use vstd::multiset::Multiset;
use vstd::prelude::*;

use crate::path::PathView;
use crate::walk::{
    file_harvest, harvest_dir, harvest_entries, skipped_name, DirView, EntryKind, EntryView, FileMetadata, Harvest,
    LargeFileView, Tree, WalkRulesView, WalkView,
};

verus! {

/// What a walk has brought home so far.
pub open spec fn gathered(walk: WalkView) -> Harvest {
    Harvest {
        bytes: walk.bytes,
        files: walk.files,
        skipped: walk.skipped,
        large: walk.large.to_multiset(),
    }
}

/// What directories bring together.
pub open spec fn harvest_dirs(tree: Tree, rules: WalkRulesView, dirs: Seq<DirView>) -> Harvest
    decreases dirs.len(),
{
    if dirs.len() == 0 {
        Harvest::nothing()
    } else {
        harvest_dirs(tree, rules, dirs.drop_last()).plus(
            harvest_dir(tree, rules, dirs.last().path, dirs.last().depth),
        )
    }
}

/// What a walk will have brought home in the end: what it has gathered, and what
/// the directories that it is still to list bring.
pub open spec fn outcome(tree: Tree, walk: WalkView) -> Harvest {
    gathered(walk).plus(harvest_dirs(tree, walk.rules, walk.pending))
}

/// What the tree says of a directory.
pub open spec fn listed(tree: Tree, dir: PathView) -> Option<Seq<EntryView>> {
    if tree.contains_key(dir) {
        Some(tree[dir])
    } else {
        None
    }
}

/// None of the directories lies deeper than a walk goes.
pub open spec fn within_depth(rules: WalkRulesView, dirs: Seq<DirView>) -> bool {
    forall|i: int| 0 <= i < dirs.len() ==> (#[trigger] dirs[i]).depth <= rules.max_depth
}

/// Something that happens in a walk: a directory is handed out, what one of those
/// handed out holds is taken in, or the large files found so far are taken.
pub enum Step {
    HandOut,
    Absorb { place: int },
    TakeLarge,
}

/// A walk with the directories that it has handed out, and the large files that
/// were taken from it.
pub struct Progress {
    pub walk: WalkView,
    pub underway: Seq<DirView>,
    pub taken: Seq<LargeFileView>,
}

/// What a walk has brought home so far, with what was taken from it.
pub open spec fn brought(at: Progress) -> Harvest {
    Harvest {
        bytes: at.walk.bytes,
        files: at.walk.files,
        skipped: at.walk.skipped,
        large: (at.taken + at.walk.large).to_multiset(),
    }
}

/// Where a walk stands after one more step.
pub open spec fn stepped(tree: Tree, at: Progress, step: Step) -> Progress {
    match step {
        Step::HandOut => if at.walk.pending.len() == 0 {
            at
        } else {
            Progress { walk: at.walk.handed_out(), underway: at.underway.push(at.walk.pending.last()), ..at }
        },
        Step::Absorb { place } => if 0 <= place < at.underway.len() {
            let dir = at.underway[place];
            Progress {
                walk: at.walk.absorbed(dir, listed(tree, dir.path)),
                underway: at.underway.remove(place),
                ..at
            }
        } else {
            at
        },
        Step::TakeLarge => Progress { walk: at.walk.without_large(), taken: at.taken + at.walk.large, ..at },
    }
}

/// Where a walk stands after these steps.
pub open spec fn after(tree: Tree, start: WalkView, steps: Seq<Step>) -> Progress
    decreases steps.len(),
{
    if steps.len() == 0 {
        Progress { walk: start, underway: Seq::empty(), taken: Seq::empty() }
    } else {
        stepped(tree, after(tree, start, steps.drop_last()), steps.last())
    }
}

/// Whether nothing is left to list, and nothing being listed.
pub open spec fn ended(at: Progress) -> bool {
    at.walk.pending.len() == 0 && at.underway.len() == 0
}

/// Harvests add up in any order, and nothing adds nothing.
pub proof fn lemma_plus(a: Harvest, b: Harvest, c: Harvest)
    ensures
        a.plus(b) == b.plus(a),
        a.plus(b).plus(c) == a.plus(b.plus(c)),
        a.plus(Harvest::nothing()) == a,
{
    broadcast use vstd::multiset::group_multiset_axioms;

    assert(a.large.add(b.large) =~= b.large.add(a.large));
    assert(a.large.add(b.large).add(c.large) =~= a.large.add(b.large.add(c.large)));
    assert(a.large.add(Multiset::empty()) =~= a.large);
}

proof fn lemma_with_file(walk: WalkView, path: PathView, metadata: FileMetadata)
    ensures
        gathered(walk.with_file(path, metadata)) == gathered(walk).plus(file_harvest(walk.rules, path, metadata)),
        walk.with_file(path, metadata).rules == walk.rules,
        walk.with_file(path, metadata).pending == walk.pending,
{
    broadcast use vstd::multiset::group_multiset_axioms;
    broadcast use vstd::seq_lib::group_to_multiset_ensures;

    let next = walk.with_file(path, metadata);
    let file = file_harvest(walk.rules, path, metadata);
    assert(next.large.to_multiset() =~= walk.large.to_multiset().add(file.large));
}

proof fn lemma_with_dir(tree: Tree, walk: WalkView, dir: DirView)
    ensures
        outcome(tree, walk.with_dir(dir)) == outcome(tree, walk).plus(
            harvest_dir(tree, walk.rules, dir.path, dir.depth),
        ),
        walk.with_dir(dir).rules == walk.rules,
        within_depth(walk.rules, walk.pending) ==> within_depth(walk.rules, walk.with_dir(dir).pending),
{
    if dir.depth <= walk.rules.max_depth {
        assert(walk.pending.push(dir).drop_last() =~= walk.pending);
        lemma_plus(
            gathered(walk),
            harvest_dirs(tree, walk.rules, walk.pending),
            harvest_dir(tree, walk.rules, dir.path, dir.depth),
        );
    } else {
        lemma_plus(outcome(tree, walk), Harvest::nothing(), Harvest::nothing());
    }
}

proof fn lemma_swap(a: Harvest, b: Harvest, c: Harvest)
    ensures
        a.plus(b).plus(c) == a.plus(c).plus(b),
{
    lemma_plus(a, b, c);
    lemma_plus(b, c, a);
    lemma_plus(a, c, b);
}

proof fn lemma_with_skipped(walk: WalkView)
    ensures
        gathered(walk.with_skipped()) == gathered(walk).plus(Harvest::one_skipped()),
{
    broadcast use vstd::multiset::group_multiset_axioms;

    assert(walk.large.to_multiset().add(Multiset::empty()) =~= walk.large.to_multiset());
}

proof fn lemma_with_entries(tree: Tree, walk: WalkView, dir: DirView, entries: Seq<EntryView>)
    requires
        dir.depth <= walk.rules.max_depth,
        within_depth(walk.rules, walk.pending),
    ensures
        outcome(tree, walk.with_entries(dir, entries)) == outcome(tree, walk).plus(
            harvest_entries(tree, walk.rules, dir.path, dir.depth, entries),
        ),
        walk.with_entries(dir, entries).rules == walk.rules,
        within_depth(walk.rules, walk.with_entries(dir, entries).pending),
    decreases entries.len(),
{
    if entries.len() == 0 {
        lemma_plus(outcome(tree, walk), Harvest::nothing(), Harvest::nothing());
    } else {
        lemma_with_entries(tree, walk, dir, entries.drop_last());
        let mid = walk.with_entries(dir, entries.drop_last());
        let front = harvest_entries(tree, walk.rules, dir.path, dir.depth, entries.drop_last());
        let entry = entries.last();
        let path = dir.path.child(entry.name);
        let rest = harvest_dirs(tree, mid.rules, mid.pending);
        if !(walk.rules.skip_known && skipped_name(entry.name)) {
            match entry.kind {
                EntryKind::Symlink | EntryKind::Other => {},
                EntryKind::UnreadableFile | EntryKind::Unknown => {
                    lemma_with_skipped(mid);
                    lemma_swap(gathered(mid), rest, Harvest::one_skipped());
                    lemma_plus(outcome(tree, walk), front, Harvest::one_skipped());
                },
                EntryKind::File(metadata) => {
                    let file = file_harvest(walk.rules, path, metadata);
                    lemma_with_file(mid, path, metadata);
                    lemma_swap(gathered(mid), rest, file);
                    lemma_plus(outcome(tree, walk), front, file);
                },
                EntryKind::Directory => {
                    let child = DirView { path, depth: dir.depth + 1 };
                    let below = harvest_dir(tree, walk.rules, path, dir.depth + 1);
                    lemma_with_dir(tree, mid, child);
                    lemma_plus(outcome(tree, walk), front, below);
                    lemma_plus(outcome(tree, mid), below, below);
                },
            }
        }
    }
}

/// Taking in a directory adds to the outcome of a walk what the directory brings,
/// no more and no less.
pub proof fn absorbing_adds_the_directory(tree: Tree, walk: WalkView, dir: DirView)
    requires
        dir.depth <= walk.rules.max_depth,
        within_depth(walk.rules, walk.pending),
    ensures
        outcome(tree, walk.absorbed(dir, listed(tree, dir.path))) == outcome(tree, walk).plus(
            harvest_dir(tree, walk.rules, dir.path, dir.depth),
        ),
        walk.absorbed(dir, listed(tree, dir.path)).rules == walk.rules,
        within_depth(walk.rules, walk.absorbed(dir, listed(tree, dir.path)).pending),
{
    if tree.contains_key(dir.path) {
        lemma_with_entries(tree, walk, dir, tree[dir.path]);
    } else {
        lemma_with_skipped(walk);
        lemma_swap(gathered(walk), harvest_dirs(tree, walk.rules, walk.pending), Harvest::one_skipped());
    }
}

proof fn lemma_harvest_remove(tree: Tree, rules: WalkRulesView, dirs: Seq<DirView>, place: int)
    requires
        0 <= place < dirs.len(),
    ensures
        harvest_dirs(tree, rules, dirs) == harvest_dirs(tree, rules, dirs.remove(place)).plus(
            harvest_dir(tree, rules, dirs[place].path, dirs[place].depth),
        ),
    decreases dirs.len(),
{
    if place == dirs.len() - 1 {
        assert(dirs.remove(place) =~= dirs.drop_last());
    } else {
        lemma_harvest_remove(tree, rules, dirs.drop_last(), place);
        let less = dirs.remove(place);
        assert(less.drop_last() =~= dirs.drop_last().remove(place));
        assert(less.last() == dirs.last());
        lemma_swap(
            harvest_dirs(tree, rules, less.drop_last()),
            harvest_dir(tree, rules, dirs[place].path, dirs[place].depth),
            harvest_dir(tree, rules, dirs.last().path, dirs.last().depth),
        );
    }
}

spec fn only_large(files: Seq<LargeFileView>) -> Harvest {
    Harvest { bytes: 0, files: 0, skipped: 0, large: files.to_multiset() }
}

spec fn balance(tree: Tree, at: Progress) -> Harvest {
    outcome(tree, at.walk).plus(harvest_dirs(tree, at.walk.rules, at.underway)).plus(only_large(at.taken))
}

proof fn lemma_only_large(a: Seq<LargeFileView>, b: Seq<LargeFileView>)
    ensures
        only_large(a + b) == only_large(a).plus(only_large(b)),
        only_large(Seq::empty()) == Harvest::nothing(),
{
    broadcast use vstd::seq_lib::group_to_multiset_ensures;

    vstd::seq_lib::lemma_multiset_commutative(a, b);
    assert(Seq::<LargeFileView>::empty().to_multiset() =~= Multiset::empty());
}

proof fn lemma_taken(walk: WalkView)
    ensures
        gathered(walk) == gathered(walk.without_large()).plus(only_large(walk.large)),
{
    broadcast use vstd::multiset::group_multiset_axioms;
    broadcast use vstd::seq_lib::group_to_multiset_ensures;

    assert(Seq::<LargeFileView>::empty().to_multiset() =~= Multiset::empty());
    assert(Multiset::<LargeFileView>::empty().add(walk.large.to_multiset()) =~= walk.large.to_multiset());
}

/// Taking the large files of a walk loses none: those taken and those left are the
/// same as before, and nothing else changes.
pub proof fn taking_large_files_loses_none(tree: Tree, at: Progress)
    ensures
        brought(stepped(tree, at, Step::TakeLarge)) == brought(at),
        stepped(tree, at, Step::TakeLarge).taken == at.taken + at.walk.large,
        stepped(tree, at, Step::TakeLarge).walk.large.len() == 0,
        stepped(tree, at, Step::TakeLarge).walk.pending == at.walk.pending,
        stepped(tree, at, Step::TakeLarge).underway == at.underway,
{
    let next = stepped(tree, at, Step::TakeLarge);
    assert(next.taken + next.walk.large =~= at.taken + at.walk.large);
}

proof fn lemma_step(tree: Tree, at: Progress, step: Step)
    requires
        within_depth(at.walk.rules, at.walk.pending),
        within_depth(at.walk.rules, at.underway),
    ensures
        balance(tree, stepped(tree, at, step)) == balance(tree, at),
        stepped(tree, at, step).walk.rules == at.walk.rules,
        within_depth(at.walk.rules, stepped(tree, at, step).walk.pending),
        within_depth(at.walk.rules, stepped(tree, at, step).underway),
{
    let rules = at.walk.rules;
    match step {
        Step::HandOut => if at.walk.pending.len() > 0 {
            let dir = at.walk.pending.last();
            let one = harvest_dir(tree, rules, dir.path, dir.depth);
            let rest = harvest_dirs(tree, rules, at.walk.pending.drop_last());
            let underway = harvest_dirs(tree, rules, at.underway);
            assert(at.underway.push(dir).drop_last() =~= at.underway);
            lemma_plus(gathered(at.walk), rest, one);
            let front = gathered(at.walk).plus(rest);
            lemma_plus(front, one, underway);
            lemma_plus(one, underway, front);
        },
        Step::Absorb { place } => if 0 <= place < at.underway.len() {
            let dir = at.underway[place];
            absorbing_adds_the_directory(tree, at.walk, dir);
            lemma_harvest_remove(tree, rules, at.underway, place);
            let one = harvest_dir(tree, rules, dir.path, dir.depth);
            let less = harvest_dirs(tree, rules, at.underway.remove(place));
            lemma_plus(outcome(tree, at.walk), one, less);
            lemma_plus(one, less, less);
        },
        Step::TakeLarge => {
            let rest = harvest_dirs(tree, rules, at.walk.pending);
            let underway = harvest_dirs(tree, rules, at.underway);
            let found = only_large(at.walk.large);
            let (less, taken) = (gathered(at.walk.without_large()), only_large(at.taken));
            lemma_taken(at.walk);
            lemma_only_large(at.taken, at.walk.large);
            lemma_swap(less, found, rest);
            lemma_swap(less.plus(rest), found, underway);
            lemma_plus(less.plus(rest).plus(underway), found, taken);
            lemma_plus(found, taken, taken);
        },
    }
}

proof fn lemma_after(tree: Tree, start: WalkView, steps: Seq<Step>)
    requires
        within_depth(start.rules, start.pending),
    ensures
        balance(tree, after(tree, start, steps)) == outcome(tree, start),
        after(tree, start, steps).walk.rules == start.rules,
        within_depth(start.rules, after(tree, start, steps).walk.pending),
        within_depth(start.rules, after(tree, start, steps).underway),
    decreases steps.len(),
{
    if steps.len() == 0 {
        lemma_only_large(Seq::empty(), Seq::empty());
        lemma_plus(outcome(tree, start), Harvest::nothing(), Harvest::nothing());
    } else {
        lemma_after(tree, start, steps.drop_last());
        lemma_step(tree, after(tree, start, steps.drop_last()), steps.last());
    }
}

/// A walk that has ended has brought home what its outcome was at the start,
/// whichever directories were listed at once, in whatever order what they hold was
/// taken in, and whenever large files were taken from it.
pub proof fn every_order_brings_the_same(tree: Tree, start: WalkView, steps: Seq<Step>)
    requires
        within_depth(start.rules, start.pending),
        ended(after(tree, start, steps)),
    ensures
        brought(after(tree, start, steps)) == outcome(tree, start),
{
    lemma_after(tree, start, steps);
    let at = after(tree, start, steps);
    let end = gathered(at.walk);
    lemma_plus(end, Harvest::nothing(), Harvest::nothing());
    lemma_only_large(at.taken, at.walk.large);
    lemma_taken(at.walk);
    lemma_swap(gathered(at.walk.without_large()), only_large(at.walk.large), only_large(at.taken));
    lemma_plus(gathered(at.walk.without_large()), only_large(at.taken), only_large(at.walk.large));
    lemma_taken(WalkView { large: at.taken + at.walk.large, ..at.walk });
}

/// The large files that were taken from a walk through a directory, and those left
/// in it at the end, are together those that the directory holds.
pub proof fn large_files_taken_and_left_are_all(tree: Tree, rules: WalkRulesView, dir: PathView, steps: Seq<Step>)
    requires
        ended(after(tree, WalkView::idle(rules).with_dir(DirView { path: dir, depth: 1 }), steps)),
    ensures
        ({
            let at = after(tree, WalkView::idle(rules).with_dir(DirView { path: dir, depth: 1 }), steps);
            (at.taken + at.walk.large).to_multiset() == harvest_dir(tree, rules, dir, 1).large
        }),
{
    walks_bring_their_directory(tree, rules, dir);
    every_order_brings_the_same(tree, WalkView::idle(rules).with_dir(DirView { path: dir, depth: 1 }), steps);
}

/// A walk through one directory brings home what the directory holds, down to the
/// depth that the walk goes to.
pub proof fn walks_bring_their_directory(tree: Tree, rules: WalkRulesView, dir: PathView)
    ensures
        outcome(tree, WalkView::idle(rules).with_dir(DirView { path: dir, depth: 1 })) == harvest_dir(
            tree,
            rules,
            dir,
            1,
        ),
        within_depth(rules, WalkView::idle(rules).with_dir(DirView { path: dir, depth: 1 }).pending),
{
    broadcast use vstd::seq_lib::group_to_multiset_ensures;

    let idle = WalkView::idle(rules);
    lemma_with_dir(tree, idle, DirView { path: dir, depth: 1 });
    assert(idle.large.to_multiset() =~= Multiset::empty());
    assert(gathered(idle) =~= Harvest::nothing());
    lemma_plus(Harvest::nothing(), Harvest::nothing(), Harvest::nothing());
    lemma_plus(Harvest::nothing(), harvest_dir(tree, rules, dir, 1), Harvest::nothing());
}

/// Whether a walk passes an entry over: a symbolic link, something that is
/// neither file nor directory, or a directory that its name tells to skip.
pub open spec fn passed_over(rules: WalkRulesView, entry: EntryView) -> bool {
    ||| rules.skip_known && skipped_name(entry.name)
    ||| entry.kind is Symlink
    ||| entry.kind is Other
}

/// The entries that are not passed over.
pub open spec fn kept(rules: WalkRulesView, entries: Seq<EntryView>) -> Seq<EntryView>
    decreases entries.len(),
{
    if entries.len() == 0 {
        entries
    } else if passed_over(rules, entries.last()) {
        kept(rules, entries.drop_last())
    } else {
        kept(rules, entries.drop_last()).push(entries.last())
    }
}

proof fn lemma_kept(tree: Tree, rules: WalkRulesView, dir: PathView, depth: nat, entries: Seq<EntryView>)
    ensures
        harvest_entries(tree, rules, dir, depth, kept(rules, entries)) == harvest_entries(
            tree,
            rules,
            dir,
            depth,
            entries,
        ),
    decreases entries.len(),
{
    if entries.len() > 0 {
        lemma_kept(tree, rules, dir, depth, entries.drop_last());
        if !passed_over(rules, entries.last()) {
            let front = kept(rules, entries.drop_last());
            assert(front.push(entries.last()).drop_last() =~= front);
        }
    }
}

/// Two trees that look alike from `dir`: they tell the same of it, but for entries
/// that are passed over, and look alike from the directories in it that are not.
pub open spec fn alike(rules: WalkRulesView, a: Tree, b: Tree, dir: PathView, depth: nat) -> bool
    decreases rules.max_depth + 1 - depth,
{
    depth <= rules.max_depth ==> {
        &&& a.contains_key(dir) == b.contains_key(dir)
        &&& a.contains_key(dir) ==> {
            let entries = kept(rules, a[dir]);
            &&& entries == kept(rules, b[dir])
            &&& depth < rules.max_depth ==> forall|i: int|
                0 <= i < entries.len() && (#[trigger] entries[i]).kind is Directory ==> alike(
                    rules,
                    a,
                    b,
                    dir.child(entries[i].name),
                    depth + 1,
                )
        }
    }
}

proof fn lemma_alike_entries(rules: WalkRulesView, a: Tree, b: Tree, dir: PathView, depth: nat, entries: Seq<EntryView>)
    requires
        depth < rules.max_depth ==> forall|i: int|
            0 <= i < entries.len() && (#[trigger] entries[i]).kind is Directory ==> alike(
                rules,
                a,
                b,
                dir.child(entries[i].name),
                depth + 1,
            ),
    ensures
        harvest_entries(a, rules, dir, depth, entries) == harvest_entries(b, rules, dir, depth, entries),
    decreases rules.max_depth + 1 - depth, 0int, entries.len(),
{
    if entries.len() > 0 {
        let front = entries.drop_last();
        assert forall|i: int|
            depth < rules.max_depth && 0 <= i < front.len() && (#[trigger] front[i]).kind is Directory implies alike(
            rules,
            a,
            b,
            dir.child(front[i].name),
            depth + 1,
        ) by {
            assert(front[i] == entries[i]);
        }
        lemma_alike_entries(rules, a, b, dir, depth, front);
        if depth < rules.max_depth && entries.last().kind is Directory {
            assert(entries[entries.len() - 1].kind is Directory);
            passed_over_entries_bring_nothing(rules, a, b, dir.child(entries.last().name), depth + 1);
        }
    }
}

/// Entries that are passed over bring nothing, nor does anything that lies behind
/// them alone: a walk brings home the same from two trees that look alike. So it
/// follows no symbolic link, and enters no directory that is to be skipped.
pub proof fn passed_over_entries_bring_nothing(rules: WalkRulesView, a: Tree, b: Tree, dir: PathView, depth: nat)
    requires
        alike(rules, a, b, dir, depth),
    ensures
        harvest_dir(a, rules, dir, depth) == harvest_dir(b, rules, dir, depth),
    decreases rules.max_depth + 1 - depth, 1int, 0nat,
{
    if depth <= rules.max_depth && a.contains_key(dir) {
        lemma_kept(a, rules, dir, depth, a[dir]);
        lemma_kept(b, rules, dir, depth, b[dir]);
        lemma_alike_entries(rules, a, b, dir, depth, kept(rules, a[dir]));
    }
}

/// How many directories a walk lists to bring home what `dir` holds.
spec fn visits(tree: Tree, rules: WalkRulesView, dir: PathView, depth: nat) -> nat
    decreases rules.max_depth + 1 - depth, 1int, 0nat,
{
    if depth > rules.max_depth {
        0
    } else if !tree.contains_key(dir) {
        1
    } else {
        1 + entry_visits(tree, rules, dir, depth, tree[dir])
    }
}

spec fn entry_visits(tree: Tree, rules: WalkRulesView, dir: PathView, depth: nat, entries: Seq<EntryView>) -> nat
    decreases rules.max_depth + 1 - depth, 0int, entries.len(),
{
    if entries.len() == 0 {
        0
    } else {
        let entry = entries.last();
        entry_visits(tree, rules, dir, depth, entries.drop_last()) + if !passed_over(rules, entry)
            && entry.kind is Directory && depth < rules.max_depth {
            visits(tree, rules, dir.child(entry.name), depth + 1)
        } else {
            0
        }
    }
}

spec fn all_visits(tree: Tree, rules: WalkRulesView, dirs: Seq<DirView>) -> nat
    decreases dirs.len(),
{
    if dirs.len() == 0 {
        0
    } else {
        all_visits(tree, rules, dirs.drop_last()) + visits(tree, rules, dirs.last().path, dirs.last().depth)
    }
}

proof fn lemma_entry_visits(tree: Tree, walk: WalkView, dir: DirView, entries: Seq<EntryView>)
    ensures
        all_visits(tree, walk.rules, walk.with_entries(dir, entries).pending) == all_visits(
            tree,
            walk.rules,
            walk.pending,
        ) + entry_visits(tree, walk.rules, dir.path, dir.depth, entries),
        walk.with_entries(dir, entries).rules == walk.rules,
    decreases entries.len(),
{
    if entries.len() > 0 {
        lemma_entry_visits(tree, walk, dir, entries.drop_last());
        let mid = walk.with_entries(dir, entries.drop_last());
        let entry = entries.last();
        let child = DirView { path: dir.path.child(entry.name), depth: dir.depth + 1 };
        assert(mid.pending.push(child).drop_last() =~= mid.pending);
    }
}

proof fn lemma_ends(tree: Tree, start: WalkView, steps: Seq<Step>)
    requires
        within_depth(start.rules, start.pending),
        after(tree, start, steps).underway.len() == 0,
        after(tree, start, steps).taken.len() == 0,
    ensures
        exists|more: Seq<Step>|
            ended(#[trigger] after(tree, start, more)) && after(tree, start, more).taken.len() == 0,
    decreases all_visits(tree, start.rules, after(tree, start, steps).walk.pending),
{
    let at = after(tree, start, steps);
    lemma_after(tree, start, steps);
    if at.walk.pending.len() == 0 {
        assert(ended(after(tree, start, steps)));
    } else {
        let one = steps.push(Step::HandOut);
        let two = one.push(Step::Absorb { place: 0 });
        assert(one.drop_last() =~= steps);
        assert(two.drop_last() =~= one);
        let dir = at.walk.pending.last();
        assert(dir.depth <= start.rules.max_depth);
        let mid = at.walk.handed_out();
        assert(after(tree, start, one).walk == mid);
        assert(after(tree, start, one).underway =~= seq![dir]);
        assert(after(tree, start, two).walk == mid.absorbed(dir, listed(tree, dir.path)));
        if tree.contains_key(dir.path) {
            lemma_entry_visits(tree, mid, dir, tree[dir.path]);
        }
        lemma_ends(tree, start, two);
    }
}

/// Every walk can be brought to its end, without taking anything from it.
pub proof fn walks_end(tree: Tree, start: WalkView)
    requires
        within_depth(start.rules, start.pending),
    ensures
        exists|steps: Seq<Step>|
            ended(#[trigger] after(tree, start, steps)) && after(tree, start, steps).taken.len() == 0,
{
    lemma_ends(tree, start, Seq::empty());
}

} // verus!
