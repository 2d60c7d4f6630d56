//! What rounds of updates tell, and which sums can be told.

use vstd::prelude::*;

use crate::analyze::{
    error_text, root_plans, root_skipped, total_files, total_skipped, totals_fit, ChildView, ErrorView, PlanView,
};
use crate::model::ActionView;
use crate::path::PathView;
use crate::purge::on_the_clock;
use crate::scanner::{complete_facts, FactsView};
use crate::stream::{
    bucket, bucket_bytes, bucket_files, changed, closing_updates, ended_skipped, flush_updates, nothing_sent,
    sent_after, stream_begun, sums_fit, BucketView, SentView, Standing, UpdateView,
};
use crate::walk::{LargeFileView, WalkView};

verus! {

/// A round of updates tells of each child whose size is not the one that was told last,
/// how far it is, in the order of the children.
pub proof fn rounds_tell_of_each_child_that_changed(sizes: Seq<u64>, buckets: Seq<BucketView>, one: BucketView)
    ensures
        changed(sizes, Seq::empty()).len() == 0,
        changed(sizes, buckets.push(one)) == changed(sizes, buckets) + if one.bytes != sizes[buckets.len() as int] {
            seq![UpdateView::Progress { top: one.path, size: one.bytes, files: one.files, is_dir: one.is_dir }]
        } else {
            Seq::empty()
        },
{
    assert(buckets.push(one).drop_last() =~= buckets);
    let before = changed(sizes, buckets);
    assert(before + Seq::<UpdateView>::empty() =~= before);
    assert(changed(sizes, buckets.push(one)) =~= before + if one.bytes != sizes[buckets.len() as int] {
        seq![UpdateView::Progress { top: one.path, size: one.bytes, files: one.files, is_dir: one.is_dir }]
    } else {
        Seq::empty()
    });
}

/// A round of updates tells of the children that changed, then of each large file that
/// was found, and then how many entries could not be read, where that is not what was
/// told last.
pub proof fn rounds_tell_what_is_new(sent: SentView, now: Standing)
    ensures
        flush_updates(sent, now) == changed(sent.sizes, now.buckets) + Seq::new(
            now.found.len(),
            |i: int| UpdateView::Large(now.found[i]),
        ) + if now.skipped != sent.skipped {
            seq![UpdateView::Skipped(now.skipped)]
        } else {
            Seq::empty()
        },
{
    assert(flush_updates(sent, now) =~= changed(sent.sizes, now.buckets) + Seq::new(
        now.found.len(),
        |i: int| UpdateView::Large(now.found[i]),
    ) + if now.skipped != sent.skipped {
        seq![UpdateView::Skipped(now.skipped)]
    } else {
        Seq::empty()
    });
}

/// Nothing is told twice: when nothing has changed since a round of updates, the next
/// one is empty. Before the first, no child is taken to have any size.
pub proof fn nothing_is_told_twice(now: Standing, found: Seq<LargeFileView>, count: nat)
    ensures
        found.len() == 0 ==> flush_updates(sent_after(now), Standing { found, ..now }).len() == 0,
        sent_after(now).sizes.len() == now.buckets.len(),
        sent_after(now).skipped == now.skipped,
        nothing_sent(count).sizes.len() == count,
        forall|i: int| 0 <= i < count ==> #[trigger] nothing_sent(count).sizes[i] == 0,
        nothing_sent(count).skipped == 0,
{
    lemma_same_sizes(sent_after(now).sizes, now.buckets);
}

proof fn lemma_same_sizes(sizes: Seq<u64>, buckets: Seq<BucketView>)
    requires
        sizes.len() >= buckets.len(),
        forall|i: int| 0 <= i < buckets.len() ==> (#[trigger] buckets[i]).bytes == sizes[i],
    ensures
        changed(sizes, buckets).len() == 0,
    decreases buckets.len(),
{
    if buckets.len() > 0 {
        assert(buckets[buckets.len() - 1].bytes == sizes[buckets.len() - 1]);
        lemma_same_sizes(sizes, buckets.drop_last());
    }
}

/// The last updates tell of every child, of each large file that has not been told of,
/// and at the very end the sums.
pub proof fn streams_close_with_every_child(end: Standing)
    ensures
        closing_updates(end) == Seq::new(
            end.buckets.len(),
            |i: int|
                UpdateView::Progress {
                    top: end.buckets[i].path,
                    size: end.buckets[i].bytes,
                    files: end.buckets[i].files,
                    is_dir: end.buckets[i].is_dir,
                },
        ) + Seq::new(end.found.len(), |i: int| UpdateView::Large(end.found[i])) + seq![
            UpdateView::Done {
                total_size: bucket_bytes(end.buckets),
                total_files: bucket_files(end.buckets),
                skipped: end.skipped as nat,
            },
        ],
{
    assert(closing_updates(end) =~= Seq::new(
        end.buckets.len(),
        |i: int|
            UpdateView::Progress {
                top: end.buckets[i].path,
                size: end.buckets[i].bytes,
                files: end.buckets[i].files,
                is_dir: end.buckets[i].is_dir,
            },
    ) + Seq::new(end.found.len(), |i: int| UpdateView::Large(end.found[i])) + seq![
        UpdateView::Done {
            total_size: bucket_bytes(end.buckets),
            total_files: bucket_files(end.buckets),
            skipped: end.skipped as nat,
        },
    ]);
}

/// The sums at the end are those of the children, each counted once.
pub proof fn each_child_adds_to_the_sums(buckets: Seq<BucketView>, one: BucketView)
    ensures
        bucket_bytes(Seq::empty()) == 0,
        bucket_files(Seq::empty()) == 0,
        bucket_bytes(buckets.push(one)) == bucket_bytes(buckets) + one.bytes,
        bucket_files(buckets.push(one)) == bucket_files(buckets) + one.files,
{
    assert(buckets.push(one).drop_last() =~= buckets);
}

/// What is told of a child is its path, whether it is a directory, and what its walk has
/// gathered so far.
pub proof fn children_are_told_as_they_stand(plan: PlanView, walk: WalkView)
    requires
        walk.bytes <= u64::MAX,
        walk.files <= u64::MAX,
    ensures
        bucket(plan, walk).path == plan.path,
        bucket(plan, walk).is_dir == plan.is_dir,
        bucket(plan, walk).bytes == walk.bytes,
        bucket(plan, walk).files == walk.files,
{
}

/// What could not be read is counted once the walk that came by it has ended.
pub proof fn ended_walks_add_what_they_skipped(walks: Seq<WalkView>, ended: Seq<bool>, one: WalkView)
    ensures
        ended_skipped(Seq::empty(), ended) == 0,
        ended_skipped(walks.push(one), ended) == ended_skipped(walks, ended) + if ended[walks.len() as int] {
            one.skipped
        } else {
            0
        },
{
    assert(walks.push(one).drop_last() =~= walks);
}

/// A stream that cannot begin says why: that the path could not be resolved, or else that
/// the directory could not be read. One that can begins as an analysis does.
pub proof fn streams_that_cannot_begin_say_why(
    requested: PathView,
    resolved: Result<PathView, Seq<char>>,
    listed: Result<Seq<ChildView>, Seq<char>>,
)
    ensures
        match (resolved, listed) {
            (Err(reason), _) => stream_begun(requested, resolved, listed) is Err && stream_begun(
                requested,
                resolved,
                listed,
            )->Err_0 == UpdateView::Error("failed to resolve "@ + requested.display() + ": "@ + reason),
            (Ok(root), Err(reason)) => stream_begun(requested, resolved, listed) is Err && stream_begun(
                requested,
                resolved,
                listed,
            )->Err_0 == UpdateView::Error("failed to read "@ + root.display() + ": "@ + reason),
            (Ok(root), Ok(children)) => stream_begun(requested, resolved, listed) is Ok && stream_begun(
                requested,
                resolved,
                listed,
            )->Ok_0 == (root, root_plans(root, Some(children)), root_skipped(Some(children))),
        },
{
}

/// What an analysis that gives no report says.
pub proof fn failed_analyses_say_why(path: PathView)
    ensures
        error_text(ErrorView::Missing { path }) == "analysis path does not exist: "@ + path.display(),
        error_text(ErrorView::Unresolved { path }) == "failed to resolve "@ + path.display(),
        error_text(ErrorView::Cancelled) == "analysis cancelled"@,
{
}

/// Sums are refused only where 64 bits do not hold them.
pub proof fn sums_are_refused_only_where_they_overflow(
    walk: WalkView,
    walks: Seq<WalkView>,
    skipped: nat,
    buckets: Seq<BucketView>,
)
    ensures
        walk.fits() <==> walk.bytes <= 0xffff_ffff_ffff_ffff && walk.files <= 0xffff_ffff_ffff_ffff && walk.skipped
            <= 0xffff_ffff_ffff_ffff,
        totals_fit(walks, skipped) <==> total_files(walks) <= 0xffff_ffff_ffff_ffff && skipped
            + total_skipped(walks) <= 0xffff_ffff_ffff_ffff,
        sums_fit(buckets) <==> bucket_bytes(buckets) <= 0xffff_ffff_ffff_ffff && bucket_files(buckets)
            <= 0xffff_ffff_ffff_ffff,
{
}

/// A walk that is cancelled has nothing left to list, and keeps what it has gathered.
pub proof fn cancelled_walks_keep_what_they_have(walk: WalkView)
    ensures
        walk.cancelled().pending.len() == 0,
        walk.cancelled().bytes == walk.bytes,
        walk.cancelled().files == walk.files,
        walk.cancelled().skipped == walk.skipped,
        walk.cancelled().large == walk.large,
        walk.cancelled().rules == walk.rules,
{
}

/// A clock shows the moments of signed 64-bit seconds, each with its nanoseconds.
pub proof fn clocks_show_signed_seconds(nanos: i128)
    ensures
        on_the_clock(nanos) <==> -0x8000_0000_0000_0000 * 1_000_000_000 <= nanos < 0x8000_0000_0000_0000
            * 1_000_000_000,
{
}

/// A scan asks for no more than that each known cache was measured, and that what cleans
/// packages runs a program.
pub proof fn scans_ask_for_little(facts: FactsView)
    ensures
        complete_facts(facts) <==> {
            &&& facts.user_bytes.len() == 9
            &&& facts.dev_bytes.len() == 10
            &&& match facts.packages.item {
                Some(item) => match item.action {
                    ActionView::Command { .. } => true,
                    ActionView::CommandSequence { commands } => commands.len() > 0,
                    _ => false,
                },
                None => true,
            }
        },
{
}

} // verus!
