//! What holds of whole streams: that they tell what the report on the same tree
//! tells.

use vstd::multiset::Multiset;
use vstd::prelude::*;

use crate::analyze::{
    all_large, assembled, disk_entries, disk_entry, plans_of, started, total_bytes, total_files, total_skipped,
    ChildView, DiskEntry, DiskView, PlanView,
};
use crate::analyze_laws::{
    all_ended, all_taken, child_entries, child_harvest, children_are_measured_exactly, children_harvest,
    nothing_is_taken_where_no_walk_lost_any, nothing_taken, progress_after, reports_are_exact, walks_add_up, walks_of,
};
use crate::large_laws::proper_listing;
use crate::order::{order_of, sorting_keeps_elements};
use crate::path::{entries_have_one_more_component, entry_name, PathView};
use crate::stream::{
    all_found, bucket, bucket_bytes, bucket_files, buckets_of, closing_updates, done_update, ended_skipped,
    ends_stream, flushed, large_sent, large_updates, progress_of, stream, streams_end_once,
    streams_tell_of_every_large_file, BucketView, Standing, UpdateView,
};
use crate::walk::{Tree, WalkRulesView, WalkView};
use crate::walk_laws::{brought, stepped, Progress, Step};

verus! {

/// Something that happens in a stream: the walk through a child hands out a
/// directory or takes one in, or a round of updates is sent, for which the large
/// files found so far are taken from all walks.
pub enum Event {
    HandOut { child: int },
    Absorb { child: int, place: int },
    Flush { ended: Seq<bool> },
}

/// What events do to the walk through child `i`.
pub open spec fn steps_of(events: Seq<Event>, i: int) -> Seq<Step>
    decreases events.len(),
{
    if events.len() == 0 {
        Seq::empty()
    } else {
        let front = steps_of(events.drop_last(), i);
        match events.last() {
            Event::HandOut { child } => if child == i {
                front.push(Step::HandOut)
            } else {
                front
            },
            Event::Absorb { child, place } => if child == i {
                front.push(Step::Absorb { place })
            } else {
                front
            },
            Event::Flush { .. } => front.push(Step::TakeLarge),
        }
    }
}

/// What events do to the walks through all children.
pub open spec fn all_steps(events: Seq<Event>, count: nat) -> Seq<Seq<Step>> {
    Seq::new(count, |i: int| steps_of(events, i))
}

/// Where the walks stand after these events.
pub open spec fn progress_at(tree: Tree, rules: WalkRulesView, plans: Seq<PlanView>, events: Seq<Event>) -> Seq<
    Progress,
> {
    progress_after(tree, rules, plans, all_steps(events, plans.len()))
}

/// How an analysis stands: how far its walks are, what they found, and how many
/// entries could not be read, on the first level and by the walks that have ended.
pub open spec fn standing(plans: Seq<PlanView>, walks: Seq<WalkView>, first: nat, ended: Seq<bool>) -> Standing {
    Standing {
        buckets: buckets_of(plans, walks),
        found: all_large(walks),
        skipped: (first + ended_skipped(walks, ended)) as u64,
    }
}

/// How the analysis stood at each round of updates.
pub open spec fn rounds_of(
    tree: Tree,
    rules: WalkRulesView,
    plans: Seq<PlanView>,
    first: nat,
    events: Seq<Event>,
) -> Seq<Standing>
    decreases events.len(),
{
    if events.len() == 0 {
        Seq::empty()
    } else {
        let before = events.drop_last();
        let rounds = rounds_of(tree, rules, plans, first, before);
        match events.last() {
            Event::Flush { ended } => rounds.push(
                standing(plans, walks_of(progress_at(tree, rules, plans, before)), first, ended),
            ),
            _ => rounds,
        }
    }
}

/// That each of so many walks has ended.
pub open spec fn each_ended(count: nat) -> Seq<bool> {
    Seq::new(count, |i: int| true)
}

/// How the analysis stands after these events, when each walk has ended.
pub open spec fn end_of(
    tree: Tree,
    rules: WalkRulesView,
    plans: Seq<PlanView>,
    first: nat,
    events: Seq<Event>,
) -> Standing {
    standing(plans, walks_of(progress_at(tree, rules, plans, events)), first, each_ended(plans.len()))
}

/// All that a stream sends.
pub open spec fn streamed(
    tree: Tree,
    rules: WalkRulesView,
    plans: Seq<PlanView>,
    first: nat,
    events: Seq<Event>,
) -> Seq<UpdateView> {
    stream(rounds_of(tree, rules, plans, first, events), end_of(tree, rules, plans, first, events))
}

/// Counting the walks that have ended counts all, once each has.
pub proof fn ended_walks_are_all_counted(walks: Seq<WalkView>, ended: Seq<bool>)
    requires
        forall|i: int| 0 <= i < walks.len() ==> #[trigger] ended[i],
    ensures
        ended_skipped(walks, ended) == total_skipped(walks),
    decreases walks.len(),
{
    if walks.len() > 0 {
        assert(ended[walks.len() - 1]);
        ended_walks_are_all_counted(walks.drop_last(), ended);
    }
}

proof fn lemma_bucket_sums(plans: Seq<PlanView>, walks: Seq<WalkView>)
    requires
        plans.len() == walks.len(),
        total_bytes(walks) <= u64::MAX,
        total_files(walks) <= u64::MAX,
    ensures
        bucket_bytes(buckets_of(plans, walks)) == total_bytes(walks),
        bucket_files(buckets_of(plans, walks)) == total_files(walks),
        forall|i: int| 0 <= i < walks.len() ==> (#[trigger] walks[i]).bytes <= u64::MAX,
    decreases walks.len(),
{
    if walks.len() > 0 {
        let all = buckets_of(plans, walks);
        let front = walks.drop_last();
        assert(all.drop_last() =~= buckets_of(plans.drop_last(), front));
        lemma_bucket_sums(plans.drop_last(), front);
        assert forall|i: int| 0 <= i < walks.len() implies (#[trigger] walks[i]).bytes <= u64::MAX by {
            if i < front.len() {
                assert(front[i] == walks[i]);
            }
        }
    }
}

/// A stream ends with the totals of the report on the same walks, as long as they
/// are machine numbers.
pub proof fn streams_end_with_the_totals_of_the_report(
    root: PathView,
    plans: Seq<PlanView>,
    walks: Seq<WalkView>,
    first: nat,
    ended: Seq<bool>,
)
    requires
        plans.len() == walks.len(),
        forall|i: int| 0 <= i < walks.len() ==> #[trigger] ended[i],
        total_bytes(walks) <= u64::MAX,
        total_files(walks) <= u64::MAX,
        first + total_skipped(walks) <= u64::MAX,
    ensures
        done_update(standing(plans, walks, first, ended)) == (UpdateView::Done {
            total_size: assembled(root, plans, walks, first).total_size,
            total_files: assembled(root, plans, walks, first).total_files,
            skipped: assembled(root, plans, walks, first).skipped_entries,
        }),
{
    lemma_bucket_sums(plans, walks);
    ended_walks_are_all_counted(walks, ended);
}

proof fn lemma_event(
    tree: Tree,
    rules: WalkRulesView,
    plans: Seq<PlanView>,
    events: Seq<Event>,
    i: int,
)
    requires
        0 <= i < plans.len(),
        events.len() > 0,
    ensures
        ({
            let before = progress_at(tree, rules, plans, events.drop_last())[i];
            let now = progress_at(tree, rules, plans, events)[i];
            match events.last() {
                Event::Flush { .. } => now == stepped(tree, before, Step::TakeLarge),
                _ => now.taken == before.taken,
            }
        }),
{
    let front = steps_of(events.drop_last(), i);
    let start = started(rules, plans[i]);
    match events.last() {
        Event::HandOut { child } => {
            if child == i {
                assert(front.push(Step::HandOut).drop_last() =~= front);
            }
        },
        Event::Absorb { child, place } => {
            if child == i {
                assert(front.push(Step::Absorb { place }).drop_last() =~= front);
            }
        },
        Event::Flush { .. } => {
            assert(front.push(Step::TakeLarge).drop_last() =~= front);
        },
    }
}

proof fn lemma_same_taken(a: Seq<Progress>, b: Seq<Progress>)
    requires
        a.len() == b.len(),
        forall|i: int| 0 <= i < a.len() ==> (#[trigger] a[i]).taken == b[i].taken,
    ensures
        all_taken(a) == all_taken(b),
    decreases a.len(),
{
    if a.len() > 0 {
        let (x, y) = (a.drop_last(), b.drop_last());
        assert forall|i: int| 0 <= i < x.len() implies (#[trigger] x[i]).taken == y[i].taken by {
            assert(a[i].taken == b[i].taken);
        }
        lemma_same_taken(x, y);
        assert(a[a.len() - 1].taken == b[a.len() - 1].taken);
    }
}

proof fn lemma_more_taken(before: Seq<Progress>, now: Seq<Progress>)
    requires
        before.len() == now.len(),
        forall|i: int|
            0 <= i < now.len() ==> (#[trigger] now[i]).taken == before[i].taken + before[i].walk.large,
    ensures
        all_taken(now) == all_taken(before).add(all_large(walks_of(before)).to_multiset()),
    decreases now.len(),
{
    broadcast use vstd::multiset::group_multiset_axioms;
    broadcast use vstd::seq_lib::group_to_multiset_ensures;

    let walks = walks_of(before);
    if now.len() == 0 {
        assert(all_taken(now) =~= all_taken(before).add(all_large(walks).to_multiset()));
    } else {
        let (x, y) = (before.drop_last(), now.drop_last());
        assert forall|i: int| 0 <= i < y.len() implies (#[trigger] y[i]).taken == x[i].taken + x[i].walk.large by {
            assert(now[i].taken == before[i].taken + before[i].walk.large);
        }
        lemma_more_taken(x, y);
        let last = before[now.len() - 1];
        assert(now[now.len() - 1].taken == last.taken + last.walk.large);
        assert(walks.drop_last() =~= walks_of(x));
        assert(walks.last() == last.walk);
        vstd::seq_lib::lemma_multiset_commutative(last.taken, last.walk.large);
        vstd::seq_lib::lemma_multiset_commutative(all_large(walks_of(x)), last.walk.large);
        assert(all_taken(now) =~= all_taken(before).add(all_large(walks).to_multiset()));
    }
}

/// What rounds of updates tell of is what was taken from the walks.
pub proof fn rounds_tell_of_what_was_taken(
    tree: Tree,
    rules: WalkRulesView,
    plans: Seq<PlanView>,
    first: nat,
    events: Seq<Event>,
)
    ensures
        all_found(rounds_of(tree, rules, plans, first, events)).to_multiset() == all_taken(
            progress_at(tree, rules, plans, events),
        ),
    decreases events.len(),
{
    broadcast use vstd::multiset::group_multiset_axioms;
    broadcast use vstd::seq_lib::group_to_multiset_ensures;

    let now = progress_at(tree, rules, plans, events);
    let rounds = rounds_of(tree, rules, plans, first, events);
    if events.len() == 0 {
        nothing_is_taken_where_no_walk_lost_any(now);
        assert(all_found(rounds).to_multiset() =~= Multiset::empty());
    } else {
        let earlier = events.drop_last();
        let before = progress_at(tree, rules, plans, earlier);
        rounds_tell_of_what_was_taken(tree, rules, plans, first, earlier);
        assert forall|i: int| 0 <= i < plans.len() implies match events.last() {
            Event::Flush { .. } => (#[trigger] now[i]).taken == before[i].taken + before[i].walk.large,
            _ => now[i].taken == before[i].taken,
        } by {
            lemma_event(tree, rules, plans, events, i);
        }
        match events.last() {
            Event::Flush { ended } => {
                lemma_more_taken(before, now);
                let less = rounds_of(tree, rules, plans, first, earlier);
                assert(rounds.drop_last() =~= less);
                vstd::seq_lib::lemma_multiset_commutative(all_found(less), rounds.last().found);
            },
            _ => {
                assert forall|i: int| 0 <= i < now.len() implies (#[trigger] now[i]).taken == before[i].taken by {}
                lemma_same_taken(now, before);
            },
        }
    }
}

/// The last that updates tell of a child.
pub open spec fn last_progress(updates: Seq<UpdateView>, top: PathView) -> Option<UpdateView>
    decreases updates.len(),
{
    if updates.len() == 0 {
        None
    } else {
        let update = updates.last();
        match update {
            UpdateView::Progress { top: told, .. } => if told == top {
                Some(update)
            } else {
                last_progress(updates.drop_last(), top)
            },
            _ => last_progress(updates.drop_last(), top),
        }
    }
}

proof fn lemma_last_progress_add(a: Seq<UpdateView>, b: Seq<UpdateView>, top: PathView)
    requires
        last_progress(b, top) is Some,
    ensures
        last_progress(a + b, top) == last_progress(b, top),
    decreases b.len(),
{
    assert((a + b).drop_last() =~= a + b.drop_last());
    if last_progress(b.drop_last(), top) is Some {
        lemma_last_progress_add(a, b.drop_last(), top);
    }
}

proof fn lemma_no_progress_behind(a: Seq<UpdateView>, b: Seq<UpdateView>, top: PathView)
    requires
        forall|i: int| 0 <= i < b.len() ==> !((#[trigger] b[i]) is Progress),
    ensures
        last_progress(a + b, top) == last_progress(a, top),
    decreases b.len(),
{
    if b.len() == 0 {
        assert(a + b =~= a);
    } else {
        assert((a + b).drop_last() =~= a + b.drop_last());
        assert(!(b[b.len() - 1] is Progress));
        assert forall|i: int| 0 <= i < b.drop_last().len() implies !((#[trigger] b.drop_last()[i]) is Progress) by {
            assert(b.drop_last()[i] == b[i]);
        }
        lemma_no_progress_behind(a, b.drop_last(), top);
    }
}

/// Whether no two children stand at the same path.
pub open spec fn children_stand_apart(plans: Seq<PlanView>) -> bool {
    forall|i: int, j: int| 0 <= i < j < plans.len() ==> (#[trigger] plans[i]).path != (#[trigger] plans[j]).path
}

proof fn lemma_plan_of_child(root: PathView, children: Seq<ChildView>, i: int) -> (k: int)
    requires
        0 <= i < plans_of(root, children).len(),
    ensures
        0 <= k < children.len(),
        plans_of(root, children)[i].path == root.child(children[k].entry.name),
    decreases children.len(),
{
    let front = children.drop_last();
    let before = plans_of(root, front);
    if i < before.len() {
        let k = lemma_plan_of_child(root, front, i);
        assert(plans_of(root, children)[i] == before[i]);
        assert(front[k] == children[k]);
        k
    } else {
        children.len() - 1
    }
}

/// The children of a directory stand apart, as its entries have different names.
pub proof fn children_of_a_directory_stand_apart(root: PathView, children: Seq<ChildView>)
    requires
        proper_listing(child_entries(children)),
    ensures
        children_stand_apart(plans_of(root, children)),
    decreases children.len(),
{
    if children.len() > 0 {
        let front = children.drop_last();
        let entries = child_entries(children);
        let last = children.len() - 1;
        let plans = plans_of(root, children);
        let before = plans_of(root, front);
        assert(proper_listing(child_entries(front))) by {
            let less = child_entries(front);
            assert forall|i: int| 0 <= i < less.len() implies entry_name((#[trigger] less[i]).name) by {
                assert(entry_name(entries[i].name));
            }
            assert forall|i: int, j: int| 0 <= i < j < less.len() implies (#[trigger] less[i]).name != (
            #[trigger] less[j]).name by {
                assert(entries[i].name != entries[j].name);
            }
        }
        children_of_a_directory_stand_apart(root, front);
        assert forall|i: int, j: int| 0 <= i < j < plans.len() implies (#[trigger] plans[i]).path != (
        #[trigger] plans[j]).path by {
            assert(plans[i] == before[i]);
            if j < before.len() {
                assert(plans[j] == before[j]);
            } else {
                let k = lemma_plan_of_child(root, front, i);
                assert(entries[k].name != entries[last].name);
                assert(entry_name(entries[k].name) && entry_name(entries[last].name));
                entries_have_one_more_component(root, entries[k].name);
                entries_have_one_more_component(root, entries[last].name);
                assert(root.child(entries[k].name).route().parts.last() == entries[k].name);
                assert(root.child(entries[last].name).route().parts.last() == entries[last].name);
            }
        }
    }
}

proof fn lemma_bucket_progress(plans: Seq<PlanView>, buckets: Seq<BucketView>, n: int, i: int)
    requires
        children_stand_apart(plans),
        plans.len() == buckets.len(),
        forall|k: int| 0 <= k < plans.len() ==> (#[trigger] buckets[k]).path == plans[k].path,
        0 <= i < n <= plans.len(),
    ensures
        last_progress(Seq::new(n as nat, |k: int| progress_of(buckets[k])), plans[i].path) == Some(
            progress_of(buckets[i]),
        ),
    decreases n,
{
    let all = Seq::new(n as nat, |k: int| progress_of(buckets[k]));
    assert(buckets[n - 1].path == plans[n - 1].path);
    assert(buckets[i].path == plans[i].path);
    if i < n - 1 {
        assert(plans[i].path != plans[n - 1].path);
        assert(all.drop_last() =~= Seq::new((n - 1) as nat, |k: int| progress_of(buckets[k])));
        lemma_bucket_progress(plans, buckets, n - 1, i);
    }
}

/// The last that a stream tells of a child is how far it is at the end.
pub proof fn streams_tell_the_end_of_each_child(
    plans: Seq<PlanView>,
    walks: Seq<WalkView>,
    rounds: Seq<Standing>,
    end: Standing,
    i: int,
)
    requires
        children_stand_apart(plans),
        end.buckets == buckets_of(plans, walks),
        0 <= i < plans.len(),
    ensures
        last_progress(stream(rounds, end), plans[i].path) == Some(progress_of(bucket(plans[i], walks[i]))),
{
    let progress = Seq::new(end.buckets.len(), |k: int| progress_of(end.buckets[k]));
    let rest = large_updates(end.found).push(done_update(end));
    lemma_bucket_progress(plans, end.buckets, plans.len() as int, i);
    assert(closing_updates(end) =~= progress + rest);
    lemma_no_progress_behind(progress, rest, plans[i].path);
    lemma_last_progress_add(flushed(end.buckets.len(), rounds), closing_updates(end), plans[i].path);
}

/// A stream tells what the report on the same tree tells, whatever the order in
/// which directories were listed, and whenever updates were sent. It ends with the
/// totals of the report, and nothing before ends it. It tells of the large files of
/// the report, of each once. The last that it tells of a child is the size that the
/// child has in the report, and these sizes are together the size at the end.
pub proof fn streams_tell_what_reports_tell(
    tree: Tree,
    rules: WalkRulesView,
    root: PathView,
    plans: Seq<PlanView>,
    steps: Seq<Seq<Step>>,
    events: Seq<Event>,
    first: nat,
)
    requires
        children_stand_apart(plans),
        all_ended(progress_after(tree, rules, plans, steps)),
        nothing_taken(progress_after(tree, rules, plans, steps)),
        all_ended(progress_at(tree, rules, plans, events)),
        children_harvest(tree, rules, plans).bytes <= u64::MAX,
        children_harvest(tree, rules, plans).files <= u64::MAX,
        first + children_harvest(tree, rules, plans).skipped <= u64::MAX,
    ensures
        ({
            let report = assembled(root, plans, walks_of(progress_after(tree, rules, plans, steps)), first);
            let updates = streamed(tree, rules, plans, first, events);
            let buckets = end_of(tree, rules, plans, first, events).buckets;
            &&& updates.len() > 0
            &&& updates.last() == UpdateView::Done {
                total_size: report.total_size,
                total_files: report.total_files,
                skipped: report.skipped_entries,
            }
            &&& forall|i: int| 0 <= i < updates.len() - 1 ==> !ends_stream(#[trigger] updates[i])
            &&& large_sent(updates).to_multiset() == report.large_files.to_multiset()
            &&& forall|entry: DiskView| #[trigger]
                report.entries.contains(entry) ==> {
                    match last_progress(updates, entry.path) {
                        Some(UpdateView::Progress { top, size, files, is_dir }) => {
                            top == entry.path && size == entry.size && is_dir == entry.is_dir
                        },
                        _ => false,
                    }
                }
            &&& forall|i: int|
                0 <= i < plans.len() ==> last_progress(updates, (#[trigger] plans[i]).path) == Some(
                    progress_of(buckets[i]),
                )
            &&& bucket_bytes(buckets) == report.total_size
        }),
{
    broadcast use vstd::seq_lib::group_to_multiset_ensures;

    let whole = progress_after(tree, rules, plans, steps);
    let walks = walks_of(whole);
    let report = assembled(root, plans, walks, first);
    let progress = progress_at(tree, rules, plans, events);
    let streaming = walks_of(progress);
    let rounds = rounds_of(tree, rules, plans, first, events);
    let end = end_of(tree, rules, plans, first, events);
    let updates = streamed(tree, rules, plans, first, events);
    reports_are_exact(tree, rules, root, plans, steps, first);
    children_are_measured_exactly(tree, rules, plans, steps);
    children_are_measured_exactly(tree, rules, plans, all_steps(events, plans.len()));
    walks_add_up(tree, rules, plans, progress);
    walks_add_up(tree, rules, plans, whole);
    streams_end_with_the_totals_of_the_report(root, plans, streaming, first, each_ended(plans.len()));
    streams_end_once(rounds, end);
    lemma_bucket_sums(plans, streaming);
    lemma_bucket_sums(plans, walks);
    streams_tell_of_every_large_file(rounds, end);
    rounds_tell_of_what_was_taken(tree, rules, plans, first, events);
    vstd::seq_lib::lemma_multiset_commutative(all_found(rounds), end.found);
    assert forall|i: int| 0 <= i < plans.len() implies last_progress(updates, (#[trigger] plans[i]).path) == Some(
        progress_of(end.buckets[i]),
    ) by {
        streams_tell_the_end_of_each_child(plans, streaming, rounds, end, i);
    }
    let listed = disk_entries(plans, walks);
    sorting_keeps_elements(listed, order_of::<DiskEntry>());
    assert forall|entry: DiskView| #[trigger] report.entries.contains(entry) implies {
        match last_progress(updates, entry.path) {
            Some(UpdateView::Progress { top, size, files, is_dir }) => {
                top == entry.path && size == entry.size && is_dir == entry.is_dir
            },
            _ => false,
        }
    } by {
        assert(report.entries.to_multiset().count(entry) > 0);
        assert(listed.contains(entry));
        let i = choose|i: int| 0 <= i < listed.len() && listed[i] == entry;
        assert(entry == disk_entry(plans[i], walks[i].bytes));
        assert(brought(whole[i]) == child_harvest(tree, rules, plans[i]));
        assert(brought(progress[i]) == child_harvest(tree, rules, plans[i]));
        assert(streaming[i].bytes == walks[i].bytes);
        assert(last_progress(updates, plans[i].path) == Some(progress_of(end.buckets[i])));
    }
}

} // verus!
