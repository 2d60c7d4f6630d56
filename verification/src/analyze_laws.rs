//! What holds of whole analyses, put together from the walks through the children
//! of a directory.

use vstd::multiset::Multiset;
use vstd::prelude::*;

use crate::analyze::{
    all_large, assembled, disk_entries, disk_entry, planned, plans_of, started, total_bytes, total_files,
    total_skipped, unreadables, AnalysisView, ChildKind, ChildView, DiskEntry, DiskView, PlanView,
};
use crate::large_laws::{
    large_files_in_entries_stand_apart, minimum_sizes_select_files, minimum_sizes_select_large_files, proper_listing,
    proper_tree, raises_the_minimum, selected,
};
use crate::order::{
    filtering_keeps_order, order_of, ordered, orderings_are_unique, ranked_is_total_preorder, sorted_is_ordered,
    sorting_keeps_elements, stable_sorted, Ranked,
};
use crate::path::{path_order_is_antisymmetric, PathView};
use crate::walk::{
    file_harvest, harvest_dir, harvest_entries, skipped_name, EntryView, Harvest, LargeFile, LargeFileView, Tree,
    WalkRulesView, WalkView,
};
use crate::walk_laws::{
    after, brought, ended, every_order_brings_the_same, gathered, outcome, walks_bring_their_directory, within_depth,
    Progress, Step,
};

verus! {

/// What a child brings.
pub open spec fn child_harvest(tree: Tree, rules: WalkRulesView, plan: PlanView) -> Harvest {
    match plan.kind {
        ChildKind::Skip => Harvest::nothing(),
        ChildKind::File(metadata) => file_harvest(rules, plan.path, metadata),
        ChildKind::Dir => harvest_dir(tree, rules, plan.path, 1),
    }
}

/// What children bring together.
pub open spec fn children_harvest(tree: Tree, rules: WalkRulesView, plans: Seq<PlanView>) -> Harvest
    decreases plans.len(),
{
    if plans.len() == 0 {
        Harvest::nothing()
    } else {
        children_harvest(tree, rules, plans.drop_last()).plus(child_harvest(tree, rules, plans.last()))
    }
}

/// The walks through the children, each after the steps given for it.
pub open spec fn progress_after(
    tree: Tree,
    rules: WalkRulesView,
    plans: Seq<PlanView>,
    steps: Seq<Seq<Step>>,
) -> Seq<Progress> {
    Seq::new(plans.len(), |i: int| after(tree, started(rules, plans[i]), steps[i]))
}

/// Where walks stand, without what was handed out and taken.
pub open spec fn walks_of(progress: Seq<Progress>) -> Seq<WalkView> {
    Seq::new(progress.len(), |i: int| progress[i].walk)
}

/// The large files that were taken from walks.
pub open spec fn all_taken(progress: Seq<Progress>) -> Multiset<LargeFileView>
    decreases progress.len(),
{
    if progress.len() == 0 {
        Multiset::empty()
    } else {
        all_taken(progress.drop_last()).add(progress.last().taken.to_multiset())
    }
}

/// Whether each walk has ended.
pub open spec fn all_ended(progress: Seq<Progress>) -> bool {
    forall|i: int| 0 <= i < progress.len() ==> ended(#[trigger] progress[i])
}

/// Whether nothing was taken from the walks, as is so in an analysis that reports
/// at its end.
pub open spec fn nothing_taken(progress: Seq<Progress>) -> bool {
    forall|i: int| 0 <= i < progress.len() ==> (#[trigger] progress[i]).taken.len() == 0
}

/// Whether walks have brought what the tree holds of the children.
pub open spec fn all_brought(tree: Tree, rules: WalkRulesView, plans: Seq<PlanView>, progress: Seq<Progress>) -> bool {
    &&& progress.len() == plans.len()
    &&& forall|i: int|
        0 <= i < plans.len() ==> brought(#[trigger] progress[i]) == child_harvest(tree, rules, plans[i])
}

proof fn lemma_idle(rules: WalkRulesView)
    ensures
        gathered(WalkView::idle(rules)) == Harvest::nothing(),
{
    broadcast use vstd::seq_lib::group_to_multiset_ensures;

    assert(WalkView::idle(rules).large.to_multiset() =~= Multiset::empty());
}

proof fn lemma_started(tree: Tree, rules: WalkRulesView, plan: PlanView)
    ensures
        outcome(tree, started(rules, plan)) == child_harvest(tree, rules, plan),
        within_depth(rules, started(rules, plan).pending),
        started(rules, plan).rules == rules,
{
    broadcast use vstd::multiset::group_multiset_axioms;
    broadcast use vstd::seq_lib::group_to_multiset_ensures;

    lemma_idle(rules);
    match plan.kind {
        ChildKind::Skip => {
            assert(outcome(tree, started(rules, plan)).large =~= Multiset::empty());
        },
        ChildKind::File(metadata) => {
            let walk = started(rules, plan);
            assert(outcome(tree, walk).large =~= file_harvest(rules, plan.path, metadata).large);
        },
        ChildKind::Dir => {
            walks_bring_their_directory(tree, rules, plan.path);
        },
    }
}

/// Each child is found to bring what the tree holds of it, whatever the order in
/// which its directories were listed, and whenever large files were taken.
pub proof fn children_are_measured_exactly(
    tree: Tree,
    rules: WalkRulesView,
    plans: Seq<PlanView>,
    steps: Seq<Seq<Step>>,
)
    requires
        all_ended(progress_after(tree, rules, plans, steps)),
    ensures
        all_brought(tree, rules, plans, progress_after(tree, rules, plans, steps)),
{
    let progress = progress_after(tree, rules, plans, steps);
    assert forall|i: int| 0 <= i < plans.len() implies brought(#[trigger] progress[i]) == child_harvest(
        tree,
        rules,
        plans[i],
    ) by {
        lemma_started(tree, rules, plans[i]);
        assert(ended(progress[i]));
        every_order_brings_the_same(tree, started(rules, plans[i]), steps[i]);
    }
}

/// Walks that have brought what the tree holds add up to what the children bring.
pub proof fn walks_add_up(tree: Tree, rules: WalkRulesView, plans: Seq<PlanView>, progress: Seq<Progress>)
    requires
        all_brought(tree, rules, plans, progress),
    ensures
        total_bytes(walks_of(progress)) == children_harvest(tree, rules, plans).bytes,
        total_files(walks_of(progress)) == children_harvest(tree, rules, plans).files,
        total_skipped(walks_of(progress)) == children_harvest(tree, rules, plans).skipped,
        all_taken(progress).add(all_large(walks_of(progress)).to_multiset()) == children_harvest(
            tree,
            rules,
            plans,
        ).large,
    decreases plans.len(),
{
    broadcast use vstd::seq_lib::group_to_multiset_ensures;
    broadcast use vstd::multiset::group_multiset_axioms;

    let walks = walks_of(progress);
    if plans.len() == 0 {
        assert(all_taken(progress).add(all_large(walks).to_multiset()) =~= Multiset::empty());
    } else {
        let (front, less) = (progress.drop_last(), plans.drop_last());
        assert(all_brought(tree, rules, less, front)) by {
            assert forall|i: int| 0 <= i < less.len() implies brought(#[trigger] front[i]) == child_harvest(
                tree,
                rules,
                less[i],
            ) by {
                assert(front[i] == progress[i]);
                assert(less[i] == plans[i]);
            }
        }
        walks_add_up(tree, rules, less, front);
        assert(walks_of(front) =~= walks.drop_last());
        let last = progress[plans.len() - 1];
        assert(brought(last) == child_harvest(tree, rules, plans[plans.len() - 1]));
        assert(walks.last() == last.walk);
        vstd::seq_lib::lemma_multiset_commutative(all_large(walks_of(front)), last.walk.large);
        vstd::seq_lib::lemma_multiset_commutative(last.taken, last.walk.large);
        assert(all_taken(progress).add(all_large(walks).to_multiset()) =~= children_harvest(
            tree,
            rules,
            plans,
        ).large);
    }
}

/// Where nothing was taken from any walk, nothing was taken.
pub proof fn nothing_is_taken_where_no_walk_lost_any(progress: Seq<Progress>)
    requires
        nothing_taken(progress),
    ensures
        all_taken(progress) == Multiset::<LargeFileView>::empty(),
    decreases progress.len(),
{
    broadcast use vstd::seq_lib::group_to_multiset_ensures;
    broadcast use vstd::multiset::group_multiset_axioms;

    if progress.len() > 0 {
        let front = progress.drop_last();
        assert(nothing_taken(front)) by {
            assert forall|i: int| 0 <= i < front.len() implies (#[trigger] front[i]).taken.len() == 0 by {
                assert(front[i] == progress[i]);
            }
        }
        nothing_is_taken_where_no_walk_lost_any(front);
        let last = progress[progress.len() - 1];
        assert(last.taken.len() == 0);
        assert(last.taken.to_multiset() =~= Multiset::empty());
        assert(all_taken(progress) =~= Multiset::empty());
    }
}

/// A report adds up what the tree holds: the totals are those of the children
/// together, each child stands in it with its size, and its large files are those
/// that the children hold.
pub proof fn reports_are_exact(
    tree: Tree,
    rules: WalkRulesView,
    root: PathView,
    plans: Seq<PlanView>,
    steps: Seq<Seq<Step>>,
    skipped: nat,
)
    requires
        all_ended(progress_after(tree, rules, plans, steps)),
        nothing_taken(progress_after(tree, rules, plans, steps)),
    ensures
        ({
            let report = assembled(root, plans, walks_of(progress_after(tree, rules, plans, steps)), skipped);
            let all = children_harvest(tree, rules, plans);
            let sized = Seq::new(
                plans.len(),
                |i: int| disk_entry(plans[i], child_harvest(tree, rules, plans[i]).bytes),
            );
            &&& report.total_size == if all.bytes <= u64::MAX {
                all.bytes
            } else {
                u64::MAX as nat
            }
            &&& report.total_files == all.files
            &&& report.skipped_entries == skipped + all.skipped
            &&& report.large_files.to_multiset() == all.large
            &&& report.entries == stable_sorted(sized, order_of::<DiskEntry>())
        }),
{
    broadcast use vstd::multiset::group_multiset_axioms;

    let progress = progress_after(tree, rules, plans, steps);
    let walks = walks_of(progress);
    let sized = Seq::new(plans.len(), |i: int| disk_entry(plans[i], child_harvest(tree, rules, plans[i]).bytes));
    children_are_measured_exactly(tree, rules, plans, steps);
    walks_add_up(tree, rules, plans, progress);
    nothing_is_taken_where_no_walk_lost_any(progress);
    assert(Multiset::<LargeFileView>::empty().add(all_large(walks).to_multiset()) =~= all_large(
        walks,
    ).to_multiset());
    sorting_keeps_elements(all_large(walks), order_of::<LargeFile>());
    assert forall|i: int| 0 <= i < plans.len() implies disk_entries(plans, walks)[i] == sized[i] by {
        assert(brought(progress[i]) == child_harvest(tree, rules, plans[i]));
    }
    assert(disk_entries(plans, walks) =~= sized);
}

/// What is known of the children as entries of their directory.
pub open spec fn child_entries(children: Seq<ChildView>) -> Seq<EntryView> {
    Seq::new(children.len(), |i: int| children[i].entry)
}

/// A number of entries that cannot be read.
pub open spec fn skipped_harvest(count: nat) -> Harvest {
    Harvest { bytes: 0, files: 0, skipped: count, large: Multiset::empty() }
}

/// The children of a directory bring what its entries bring, and count those that
/// cannot be read.
pub proof fn children_bring_what_the_directory_holds(
    tree: Tree,
    rules: WalkRulesView,
    root: PathView,
    children: Seq<ChildView>,
)
    requires
        rules.skip_known,
    ensures
        harvest_entries(tree, rules, root, 0, child_entries(children)) == children_harvest(
            tree,
            rules,
            plans_of(root, children),
        ).plus(skipped_harvest(unreadables(children))),
    decreases children.len(),
{
    broadcast use vstd::multiset::group_multiset_axioms;

    let entries = child_entries(children);
    let whole = harvest_entries(tree, rules, root, 0, entries);
    let plans = plans_of(root, children);
    let counted = children_harvest(tree, rules, plans).plus(skipped_harvest(unreadables(children)));
    if children.len() > 0 {
        let front = children.drop_last();
        let child = children.last();
        children_bring_what_the_directory_holds(tree, rules, root, front);
        assert(entries.drop_last() =~= child_entries(front));
        if let Some(plan) = planned(root, child) {
            let before = plans_of(root, front);
            assert(before.push(plan).drop_last() =~= before);
        }
        assert(whole.bytes == counted.bytes);
        assert(whole.files == counted.files);
        assert(whole.skipped == counted.skipped);
        assert(whole.large =~= counted.large);
    } else {
        assert(whole.large =~= counted.large);
    }
}

/// The report on a directory tells what it holds, down to the depth that was asked
/// for: the size, the files, the entries that cannot be read, and the large files.
pub proof fn reports_tell_what_the_directory_holds(
    tree: Tree,
    rules: WalkRulesView,
    root: PathView,
    children: Seq<ChildView>,
    steps: Seq<Seq<Step>>,
)
    requires
        rules.skip_known,
        all_ended(progress_after(tree, rules, plans_of(root, children), steps)),
        nothing_taken(progress_after(tree, rules, plans_of(root, children), steps)),
    ensures
        ({
            let plans = plans_of(root, children);
            let walks = walks_of(progress_after(tree, rules, plans, steps));
            let report = assembled(root, plans, walks, unreadables(children));
            let held = harvest_entries(tree, rules, root, 0, child_entries(children));
            &&& report.total_size == if held.bytes <= u64::MAX {
                held.bytes
            } else {
                u64::MAX as nat
            }
            &&& report.total_files == held.files
            &&& report.skipped_entries == held.skipped
            &&& report.large_files.to_multiset() == held.large
        }),
{
    broadcast use vstd::multiset::group_multiset_axioms;

    let plans = plans_of(root, children);
    reports_are_exact(tree, rules, root, plans, steps, unreadables(children));
    children_bring_what_the_directory_holds(tree, rules, root, children);
    let all = children_harvest(tree, rules, plans);
    assert(all.large.add(Multiset::empty()) =~= all.large);
}

proof fn lemma_children_selected(tree: Tree, a: WalkRulesView, b: WalkRulesView, plans: Seq<PlanView>)
    requires
        raises_the_minimum(a, b),
    ensures
        forall|i: int|
            0 <= i < plans.len() ==> child_harvest(tree, b, #[trigger] plans[i]) == selected(
                child_harvest(tree, a, plans[i]),
                b.large->0.minimum_size,
            ),
        children_harvest(tree, b, plans) == selected(children_harvest(tree, a, plans), b.large->0.minimum_size),
    decreases plans.len(),
{
    broadcast use vstd::multiset::group_multiset_axioms;

    let minimum = b.large->0.minimum_size;
    assert forall|i: int| 0 <= i < plans.len() implies child_harvest(tree, b, #[trigger] plans[i]) == selected(
        child_harvest(tree, a, plans[i]),
        minimum,
    ) by {
        match plans[i].kind {
            ChildKind::Skip => {
                assert(selected(Harvest::nothing(), minimum).large =~= Multiset::empty());
            },
            ChildKind::File(metadata) => {
                minimum_sizes_select_files(a, b, plans[i].path, metadata);
            },
            ChildKind::Dir => {
                minimum_sizes_select_large_files(tree, a, b, plans[i].path, 1);
            },
        }
    }
    if plans.len() == 0 {
        assert(selected(Harvest::nothing(), minimum).large =~= Multiset::empty());
    } else {
        lemma_children_selected(tree, a, b, plans.drop_last());
        assert(child_harvest(tree, b, plans[plans.len() - 1]) == selected(
            child_harvest(tree, a, plans[plans.len() - 1]),
            minimum,
        ));
        assert(children_harvest(tree, b, plans).large =~= selected(children_harvest(tree, a, plans), minimum).large);
    }
}

/// The size from which on files are large only selects large files. Of two reports
/// on the same tree, the one that asks for larger files lists those of the other
/// that are as large as it asks, in the same order; all else is the same.
pub proof fn minimum_sizes_only_select(
    tree: Tree,
    a: WalkRulesView,
    b: WalkRulesView,
    root: PathView,
    children: Seq<ChildView>,
    steps_a: Seq<Seq<Step>>,
    steps_b: Seq<Seq<Step>>,
    skipped: nat,
)
    requires
        raises_the_minimum(a, b),
        a.skip_known,
        proper_tree(tree),
        proper_listing(child_entries(children)),
        all_ended(progress_after(tree, a, plans_of(root, children), steps_a)),
        nothing_taken(progress_after(tree, a, plans_of(root, children), steps_a)),
        all_ended(progress_after(tree, b, plans_of(root, children), steps_b)),
        nothing_taken(progress_after(tree, b, plans_of(root, children), steps_b)),
    ensures
        ({
            let plans = plans_of(root, children);
            let first = assembled(root, plans, walks_of(progress_after(tree, a, plans, steps_a)), skipped);
            let second = assembled(root, plans, walks_of(progress_after(tree, b, plans, steps_b)), skipped);
            second == AnalysisView {
                large_files: first.large_files.filter(
                    |file: LargeFileView| file.size >= b.large->0.minimum_size,
                ),
                ..first
            }
        }),
{
    broadcast use vstd::multiset::group_multiset_axioms;
    broadcast use vstd::seq_lib::group_to_multiset_ensures;

    let plans = plans_of(root, children);
    let minimum = b.large->0.minimum_size;
    let keep = |file: LargeFileView| file.size >= minimum;
    let first = assembled(root, plans, walks_of(progress_after(tree, a, plans, steps_a)), skipped);
    let second = assembled(root, plans, walks_of(progress_after(tree, b, plans, steps_b)), skipped);
    reports_are_exact(tree, a, root, plans, steps_a, skipped);
    reports_are_exact(tree, b, root, plans, steps_b, skipped);
    lemma_children_selected(tree, a, b, plans);
    let sized_a = Seq::new(plans.len(), |i: int| disk_entry(plans[i], child_harvest(tree, a, plans[i]).bytes));
    let sized_b = Seq::new(plans.len(), |i: int| disk_entry(plans[i], child_harvest(tree, b, plans[i]).bytes));
    assert forall|i: int| 0 <= i < plans.len() implies sized_a[i] == sized_b[i] by {
        assert(child_harvest(tree, b, plans[i]) == selected(child_harvest(tree, a, plans[i]), minimum));
    }
    assert(sized_a =~= sized_b);
    let leq = order_of::<LargeFile>();
    reports_list_the_largest_first(root, plans, walks_of(progress_after(tree, a, plans, steps_a)), skipped);
    reports_list_the_largest_first(root, plans, walks_of(progress_after(tree, b, plans, steps_b)), skipped);
    assert(ordered(first.large_files, leq));
    assert(ordered(second.large_files, leq));
    filtering_keeps_order(first.large_files, keep, leq);
    let picked = first.large_files.filter(keep);
    assert(picked.to_multiset() == second.large_files.to_multiset());
    children_bring_what_the_directory_holds(tree, a, root, children);
    let held = harvest_entries(tree, a, root, 0, child_entries(children));
    assert forall|x: LargeFileView, y: LargeFileView|
        picked.contains(x) && picked.contains(y) && #[trigger] leq(x, y) && #[trigger] leq(y, x) implies x == y by {
        assert(first.large_files.contains(x));
        assert(first.large_files.contains(y));
        assert(first.large_files.to_multiset().count(x) > 0);
        assert(first.large_files.to_multiset().count(y) > 0);
        assert(held.large.count(x) > 0);
        assert(held.large.count(y) > 0);
        path_order_is_antisymmetric(x.path, y.path);
        large_files_in_entries_stand_apart(tree, a, root, 0, child_entries(children), x, y);
    }
    orderings_are_unique(picked, second.large_files, leq);
    assert(second =~= AnalysisView { large_files: picked, ..first });
}

/// A report lists the children and the large files with the largest first; what is
/// of one size, by name, and by path.
pub proof fn reports_list_the_largest_first(root: PathView, plans: Seq<PlanView>, walks: Seq<WalkView>, skipped: nat)
    ensures
        ({
            let report = assembled(root, plans, walks, skipped);
            &&& forall|i: int, j: int|
                0 <= i < j < report.entries.len() ==> DiskEntry::in_order(
                    #[trigger] report.entries[i],
                    #[trigger] report.entries[j],
                )
            &&& forall|i: int, j: int|
                0 <= i < j < report.large_files.len() ==> LargeFile::in_order(
                    #[trigger] report.large_files[i],
                    #[trigger] report.large_files[j],
                )
        }),
{
    let report = assembled(root, plans, walks, skipped);
    ranked_is_total_preorder::<DiskEntry>();
    ranked_is_total_preorder::<LargeFile>();
    sorted_is_ordered(disk_entries(plans, walks), order_of::<DiskEntry>());
    sorted_is_ordered(all_large(walks), order_of::<LargeFile>());
    assert forall|i: int, j: int| 0 <= i < j < report.entries.len() implies DiskEntry::in_order(
        #[trigger] report.entries[i],
        #[trigger] report.entries[j],
    ) by {
        assert(order_of::<DiskEntry>()(report.entries[i], report.entries[j]));
    }
    assert forall|i: int, j: int| 0 <= i < j < report.large_files.len() implies LargeFile::in_order(
        #[trigger] report.large_files[i],
        #[trigger] report.large_files[j],
    ) by {
        assert(order_of::<LargeFile>()(report.large_files[i], report.large_files[j]));
    }
}

/// A child whose name does not tell to skip it has its plan among those for all.
pub proof fn lemma_planned(root: PathView, children: Seq<ChildView>, i: int) -> (j: int)
    requires
        0 <= i < children.len(),
        planned(root, children[i]) is Some,
    ensures
        0 <= j < plans_of(root, children).len(),
        planned(root, children[i]) == Some(plans_of(root, children)[j]),
    decreases children.len(),
{
    let front = plans_of(root, children.drop_last());
    if i < children.len() - 1 {
        let j = lemma_planned(root, children.drop_last(), i);
        assert(plans_of(root, children)[j] == front[j]);
        j
    } else {
        front.len() as int
    }
}

/// Every child stands in the report, but for those that their name tells to skip.
pub proof fn children_stand_in_the_report(
    root: PathView,
    children: Seq<ChildView>,
    walks: Seq<WalkView>,
    skipped: nat,
    i: int,
)
    requires
        0 <= i < children.len(),
        !skipped_name(children[i].entry.name),
        walks.len() == plans_of(root, children).len(),
    ensures
        exists|entry: DiskView|
            {
                &&& #[trigger] assembled(root, plans_of(root, children), walks, skipped).entries.contains(entry)
                &&& entry.path == root.child(children[i].entry.name)
                &&& entry.is_dir == children[i].resolves_to_dir
            },
{
    broadcast use vstd::seq_lib::group_to_multiset_ensures;

    let plans = plans_of(root, children);
    let listed = disk_entries(plans, walks);
    let entries = assembled(root, plans, walks, skipped).entries;
    let j = lemma_planned(root, children, i);
    sorting_keeps_elements(listed, order_of::<DiskEntry>());
    let entry = listed[j];
    assert(listed.contains(entry));
    assert(listed.to_multiset().count(entry) > 0);
    assert(entries.contains(entry));
}

} // verus!
