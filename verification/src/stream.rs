//! Live updates while a directory is analyzed in the background.

use vstd::prelude::*;
use vstd::string::StringExecFns;

use crate::analyze::{all_large, plan_children, plans_of, unreadables, ChildEntry, ChildPlan, ChildView, PlanView};
use crate::order::views;
use crate::path::{FilePath, PathView};
use crate::walk::{LargeFile, LargeFileView, TreeWalk, WalkView};

verus! {

/// Live progress of an analysis.
///
/// A stream of updates ends with exactly one of `Done` or `Error`.
#[derive(Clone, Debug, PartialEq, Eq)]
pub enum ScanUpdate {
    Progress { top: FilePath, size: u64, files: u64, is_dir: bool },
    Large(LargeFile),
    Skipped(u64),
    Done { total_size: u64, total_files: u64, skipped: u64 },
    Error(String),
}

/// What an update says.
#[verifier::ext_equal]
pub enum UpdateView {
    Progress { top: PathView, size: u64, files: u64, is_dir: bool },
    Large(LargeFileView),
    Skipped(u64),
    Done { total_size: nat, total_files: nat, skipped: nat },
    Error(Seq<char>),
}

impl View for ScanUpdate {
    type V = UpdateView;

    open spec fn view(&self) -> UpdateView {
        match *self {
            ScanUpdate::Progress { top, size, files, is_dir } => UpdateView::Progress { top: top@, size, files, is_dir },
            ScanUpdate::Large(file) => UpdateView::Large(file@),
            ScanUpdate::Skipped(count) => UpdateView::Skipped(count),
            ScanUpdate::Done { total_size, total_files, skipped } => UpdateView::Done {
                total_size: total_size as nat,
                total_files: total_files as nat,
                skipped: skipped as nat,
            },
            ScanUpdate::Error(text) => UpdateView::Error(text@),
        }
    }
}

/// A child of the directory, with what has been gathered of it so far.
#[derive(Clone, Debug, PartialEq, Eq)]
pub struct StreamBucket {
    pub path: FilePath,
    pub is_dir: bool,
    pub bytes: u64,
    pub files: u64,
}

/// What is known of a child so far.
pub struct BucketView {
    pub path: PathView,
    pub is_dir: bool,
    pub bytes: u64,
    pub files: u64,
}

impl View for StreamBucket {
    type V = BucketView;

    open spec fn view(&self) -> BucketView {
        BucketView { path: self.path@, is_dir: self.is_dir, bytes: self.bytes, files: self.files }
    }
}

/// How far the walk that a plan asks for is.
pub open spec fn bucket(plan: PlanView, walk: WalkView) -> BucketView {
    BucketView { path: plan.path, is_dir: plan.is_dir, bytes: walk.bytes as u64, files: walk.files as u64 }
}

/// Tells how far the walk that a plan asks for is.
pub fn bucket_of(plan: &ChildPlan, walk: &TreeWalk) -> (so_far: StreamBucket)
    ensures
        so_far@ == bucket(plan@, walk@),
{
    StreamBucket { path: plan.path.clone(), is_dir: plan.is_dir, bytes: walk.bytes(), files: walk.files() }
}

/// How far the walks that plans ask for are.
pub open spec fn buckets_of(plans: Seq<PlanView>, walks: Seq<WalkView>) -> Seq<BucketView> {
    Seq::new(plans.len(), |i: int| bucket(plans[i], walks[i]))
}

/// Tells how far the walks that plans ask for are.
pub fn stream_buckets(plans: &Vec<ChildPlan>, walks: &Vec<TreeWalk>) -> (buckets: Vec<StreamBucket>)
    requires
        plans@.len() == walks@.len(),
    ensures
        views(buckets@) == buckets_of(views(plans@), views(walks@)),
{
    let mut buckets: Vec<StreamBucket> = Vec::new();
    for i in 0..plans.len()
        invariant
            plans@.len() == walks@.len(),
            buckets@.len() == i,
            forall|j: int| 0 <= j < i ==> (#[trigger] buckets@[j])@ == bucket(plans@[j]@, walks@[j]@),
    {
        buckets.push(bucket_of(&plans[i], &walks[i]));
    }
    assert(views(buckets@) =~= buckets_of(views(plans@), views(walks@)));
    buckets
}

/// The walks without their large files, which have been taken.
pub open spec fn without_large(walks: Seq<WalkView>) -> Seq<WalkView> {
    Seq::new(walks.len(), |i: int| walks[i].without_large())
}

/// Takes the large files that walks have found since they were last taken, one walk
/// after the other.
pub fn take_large_files(walks: &mut Vec<TreeWalk>) -> (found: Vec<LargeFile>)
    ensures
        views(found@) == all_large(views(old(walks)@)),
        views(final(walks)@) == without_large(views(old(walks)@)),
{
    let ghost before = views(walks@);
    let mut found: Vec<LargeFile> = Vec::new();
    assert(views(found@) =~= all_large(before.take(0)));
    let mut i: usize = 0;
    while i < walks.len()
        invariant
            i <= walks@.len(),
            walks@.len() == before.len(),
            views(found@) == all_large(before.take(i as int)),
            forall|j: int| 0 <= j < i ==> (#[trigger] walks@[j])@ == before[j].without_large(),
            forall|j: int| i <= j < before.len() ==> (#[trigger] walks@[j])@ == before[j],
        decreases before.len() - i,
    {
        assert(before.take(i + 1).drop_last() =~= before.take(i as int));
        assert(before.take(i + 1).last() == walks@[i as int]@);
        let ghost so_far = views(found@);
        let mut more = walks[i].take_large_files();
        let ghost added = more@;
        found.append(&mut more);
        assert(views(found@) =~= so_far + views(added));
        i = i + 1;
    }
    assert(before.take(before.len() as int) =~= before);
    assert(views(walks@) =~= without_large(before));
    found
}

/// The entries that the walks that have ended could not read.
pub open spec fn ended_skipped(walks: Seq<WalkView>, ended: Seq<bool>) -> nat
    decreases walks.len(),
{
    if walks.len() == 0 {
        0
    } else {
        ended_skipped(walks.drop_last(), ended) + if ended[walks.len() - 1] {
            walks.last().skipped
        } else {
            0
        }
    }
}

proof fn lemma_ended_skipped_grows(walks: Seq<WalkView>, ended: Seq<bool>, k: int)
    requires
        0 <= k <= walks.len(),
    ensures
        ended_skipped(walks.take(k), ended) <= ended_skipped(walks, ended),
    decreases walks.len() - k,
{
    if k < walks.len() {
        lemma_ended_skipped_grows(walks, ended, k + 1);
        assert(walks.take(k + 1).drop_last() =~= walks.take(k));
    } else {
        assert(walks.take(k) =~= walks);
    }
}

/// How many entries could not be read: those of the first level, and those of the
/// walks that have ended. There is none where that is no machine number.
pub fn skipped_so_far(first: u64, walks: &Vec<TreeWalk>, ended: &Vec<bool>) -> (skipped: Option<u64>)
    requires
        walks@.len() == ended@.len(),
    ensures
        match skipped {
            Some(count) => count as nat == first + ended_skipped(views(walks@), ended@),
            None => first + ended_skipped(views(walks@), ended@) > u64::MAX,
        },
{
    let ghost all = views(walks@);
    let mut count: u64 = first;
    for i in 0..walks.len()
        invariant
            all == views(walks@),
            walks@.len() == ended@.len(),
            count as nat == first + ended_skipped(all.take(i as int), ended@),
    {
        proof {
            assert(all.take(i + 1).drop_last() =~= all.take(i as int));
            assert(all.take(i + 1).last() == walks@[i as int]@);
            lemma_ended_skipped_grows(all, ended@, i + 1);
        }
        if ended[i] {
            let more = walks[i].skipped();
            if count > u64::MAX - more {
                return None;
            }
            count = count + more;
        }
    }
    assert(all.take(all.len() as int) =~= all);
    Some(count)
}

/// The update that says how far a child is.
pub open spec fn progress_of(bucket: BucketView) -> UpdateView {
    UpdateView::Progress { top: bucket.path, size: bucket.bytes, files: bucket.files, is_dir: bucket.is_dir }
}

impl StreamBucket {
    fn progress(&self) -> (update: ScanUpdate)
        ensures
            update@ == progress_of(self@),
    {
        ScanUpdate::Progress { top: self.path.clone(), size: self.bytes, files: self.files, is_dir: self.is_dir }
    }
}

/// What was sent last: the size of each child, and the number of entries that
/// could not be read.
#[verifier::ext_equal]
pub struct SentView {
    pub sizes: Seq<u64>,
    pub skipped: u64,
}

/// How an analysis stands when updates are sent: its children, the large files
/// found since the last time, and the number of entries that could not be read.
pub struct Standing {
    pub buckets: Seq<BucketView>,
    pub found: Seq<LargeFileView>,
    pub skipped: u64,
}

/// The progress of the children whose size is not the one that was sent last.
pub open spec fn changed(sizes: Seq<u64>, buckets: Seq<BucketView>) -> Seq<UpdateView>
    decreases buckets.len(),
{
    if buckets.len() == 0 {
        Seq::empty()
    } else {
        let front = changed(sizes, buckets.drop_last());
        if buckets.last().bytes != sizes[buckets.len() - 1] {
            front.push(progress_of(buckets.last()))
        } else {
            front
        }
    }
}

/// One update for each large file.
pub open spec fn large_updates(files: Seq<LargeFileView>) -> Seq<UpdateView> {
    Seq::new(files.len(), |i: int| UpdateView::Large(files[i]))
}

/// The updates to send: what changed, what was found, and what could not be read
/// where that changed.
pub open spec fn flush_updates(sent: SentView, now: Standing) -> Seq<UpdateView> {
    let updates = changed(sent.sizes, now.buckets) + large_updates(now.found);
    if now.skipped != sent.skipped {
        updates.push(UpdateView::Skipped(now.skipped))
    } else {
        updates
    }
}

/// What has been sent last once those updates are sent.
pub open spec fn sent_after(now: Standing) -> SentView {
    SentView { sizes: Seq::new(now.buckets.len(), |i: int| now.buckets[i].bytes), skipped: now.skipped }
}

/// What has been sent before the first update.
pub open spec fn nothing_sent(count: nat) -> SentView {
    SentView { sizes: Seq::new(count, |i: int| 0u64), skipped: 0 }
}

fn push_large(updates: &mut Vec<ScanUpdate>, found: Vec<LargeFile>)
    ensures
        views(final(updates)@) == views(old(updates)@) + large_updates(views(found@)),
{
    let ghost start = views(updates@);
    let ghost all = views(found@);
    assert(views(updates@) =~= start + large_updates(all.take(0)));
    for file in iter: found
        invariant
            iter.seq() == found@,
            all == views(found@),
            views(updates@) == start + large_updates(all.take(iter.index() as int)),
    {
        let ghost i = iter.index() as int;
        let ghost before = views(updates@);
        assert(file@ == all[i]);
        updates.push(ScanUpdate::Large(file));
        assert(views(updates@) =~= before.push(UpdateView::Large(all[i])));
        assert(large_updates(all.take(i + 1)) =~= large_updates(all.take(i)).push(UpdateView::Large(all[i])));
        assert(views(updates@) =~= start + large_updates(all.take(i + 1)));
    }
    assert(all.take(all.len() as int) =~= all);
}

/// What is remembered between two rounds of updates.
pub struct Flusher {
    sizes: Vec<u64>,
    skipped: u64,
}

impl View for Flusher {
    type V = SentView;

    closed spec fn view(&self) -> SentView {
        SentView { sizes: self.sizes@, skipped: self.skipped }
    }
}

impl Flusher {
    /// Remembers nothing yet of that many children.
    pub fn new(count: usize) -> (flusher: Flusher)
        ensures
            flusher@ == nothing_sent(count as nat),
    {
        let mut sizes: Vec<u64> = Vec::new();
        for i in 0..count
            invariant
                sizes@ == Seq::new(i as nat, |j: int| 0u64),
        {
            sizes.push(0);
            assert(sizes@ =~= Seq::new((i + 1) as nat, |j: int| 0u64));
        }
        Flusher { sizes, skipped: 0 }
    }

    /// The updates to send now.
    pub fn flush(&mut self, buckets: &Vec<StreamBucket>, found: Vec<LargeFile>, skipped: u64) -> (updates: Vec<
        ScanUpdate,
    >)
        requires
            buckets@.len() == old(self)@.sizes.len(),
        ensures
            views(updates@) == flush_updates(
                old(self)@,
                (Standing { buckets: views(buckets@), found: views(found@), skipped }),
            ),
            final(self)@ == sent_after((Standing { buckets: views(buckets@), found: views(found@), skipped })),
    {
        let ghost sent = self@;
        let ghost all = views(buckets@);
        let ghost now = Standing { buckets: views(buckets@), found: views(found@), skipped };
        let mut updates: Vec<ScanUpdate> = Vec::new();
        assert(views(updates@) =~= changed(sent.sizes, all.take(0)));
        for i in 0..buckets.len()
            invariant
                all == views(buckets@),
                buckets@.len() == sent.sizes.len(),
                sent.skipped == self.skipped,
                self.sizes@.len() == sent.sizes.len(),
                forall|j: int| 0 <= j < i ==> self.sizes@[j] == (#[trigger] all[j]).bytes,
                forall|j: int| i <= j < sent.sizes.len() ==> self.sizes@[j] == #[trigger] sent.sizes[j],
                views(updates@) == changed(sent.sizes, all.take(i as int)),
        {
            let bucket = &buckets[i];
            let ghost before = views(updates@);
            assert(all.take(i + 1).drop_last() =~= all.take(i as int));
            assert(all.take(i + 1).last() == bucket@);
            assert(self.sizes@[i as int] == sent.sizes[i as int]);
            if bucket.bytes != self.sizes[i] {
                let update = bucket.progress();
                updates.push(update);
                assert(views(updates@) =~= before.push(progress_of(bucket@)));
                self.sizes.set(i, bucket.bytes);
            }
        }
        assert(all.take(all.len() as int) =~= all);
        push_large(&mut updates, found);
        let ghost before = views(updates@);
        if skipped != self.skipped {
            self.skipped = skipped;
            updates.push(ScanUpdate::Skipped(skipped));
            assert(views(updates@) =~= before.push(UpdateView::Skipped(skipped)));
        }
        assert(self@ =~= sent_after(now));
        updates
    }
}

/// The bytes of all children.
pub open spec fn bucket_bytes(buckets: Seq<BucketView>) -> nat
    decreases buckets.len(),
{
    if buckets.len() == 0 {
        0
    } else {
        bucket_bytes(buckets.drop_last()) + buckets.last().bytes as nat
    }
}

/// The number of files of all children.
pub open spec fn bucket_files(buckets: Seq<BucketView>) -> nat
    decreases buckets.len(),
{
    if buckets.len() == 0 {
        0
    } else {
        bucket_files(buckets.drop_last()) + buckets.last().files as nat
    }
}

/// The update that ends a stream.
pub open spec fn done_update(end: Standing) -> UpdateView {
    UpdateView::Done {
        total_size: bucket_bytes(end.buckets),
        total_files: bucket_files(end.buckets),
        skipped: end.skipped as nat,
    }
}

/// The last updates of a stream: how far each child is, the large files that are
/// still to be sent, and the sums.
pub open spec fn closing_updates(end: Standing) -> Seq<UpdateView> {
    (Seq::new(end.buckets.len(), |i: int| progress_of(end.buckets[i])) + large_updates(end.found)).push(
        done_update(end),
    )
}

/// Whether the sums of all children are machine numbers.
pub open spec fn sums_fit(buckets: Seq<BucketView>) -> bool {
    bucket_bytes(buckets) <= u64::MAX && bucket_files(buckets) <= u64::MAX
}

proof fn lemma_sums_grow(buckets: Seq<BucketView>, k: int)
    requires
        0 <= k <= buckets.len(),
    ensures
        bucket_bytes(buckets.take(k)) <= bucket_bytes(buckets),
        bucket_files(buckets.take(k)) <= bucket_files(buckets),
    decreases buckets.len() - k,
{
    if k < buckets.len() {
        lemma_sums_grow(buckets, k + 1);
        assert(buckets.take(k + 1).drop_last() =~= buckets.take(k));
    } else {
        assert(buckets.take(k) =~= buckets);
    }
}

/// Tests whether the sums of all children are machine numbers.
pub fn can_close(buckets: &Vec<StreamBucket>) -> (yes: bool)
    ensures
        yes == sums_fit(views(buckets@)),
{
    let ghost all = views(buckets@);
    let mut bytes: u64 = 0;
    let mut files: u64 = 0;
    for i in 0..buckets.len()
        invariant
            all == views(buckets@),
            bytes as nat == bucket_bytes(all.take(i as int)),
            files as nat == bucket_files(all.take(i as int)),
    {
        proof {
            assert(all.take(i + 1).drop_last() =~= all.take(i as int));
            assert(all.take(i + 1).last() == buckets@[i as int]@);
            lemma_sums_grow(all, i + 1);
        }
        if bytes > u64::MAX - buckets[i].bytes || files > u64::MAX - buckets[i].files {
            return false;
        }
        bytes = bytes + buckets[i].bytes;
        files = files + buckets[i].files;
    }
    assert(all.take(all.len() as int) =~= all);
    true
}

impl Flusher {
    /// The last updates of the stream, of which nothing can be sent after them.
    pub fn close(self, buckets: &Vec<StreamBucket>, found: Vec<LargeFile>, skipped: u64) -> (updates: Vec<
        ScanUpdate,
    >)
        requires
            buckets@.len() == self@.sizes.len(),
            sums_fit(views(buckets@)),
        ensures
            views(updates@) == closing_updates(
                (Standing { buckets: views(buckets@), found: views(found@), skipped }),
            ),
    {
        let ghost all = views(buckets@);
        let mut updates: Vec<ScanUpdate> = Vec::new();
        let mut bytes: u64 = 0;
        let mut files: u64 = 0;
        for i in 0..buckets.len()
            invariant
                all == views(buckets@),
                sums_fit(all),
                bytes as nat == bucket_bytes(all.take(i as int)),
                files as nat == bucket_files(all.take(i as int)),
                views(updates@) == Seq::new(i as nat, |j: int| progress_of(all[j])),
        {
            proof {
                assert(all.take(i + 1).drop_last() =~= all.take(i as int));
                assert(all.take(i + 1).last() == buckets@[i as int]@);
                lemma_sums_grow(all, i + 1);
            }
            let ghost before = views(updates@);
            let update = buckets[i].progress();
            updates.push(update);
            bytes = bytes + buckets[i].bytes;
            files = files + buckets[i].files;
            assert(views(updates@) =~= before.push(progress_of(all[i as int])));
            assert(views(updates@) =~= Seq::new((i + 1) as nat, |j: int| progress_of(all[j])));
        }
        assert(all.take(all.len() as int) =~= all);
        push_large(&mut updates, found);
        let ghost before = views(updates@);
        let done = ScanUpdate::Done { total_size: bytes, total_files: files, skipped };
        updates.push(done);
        assert(views(updates@) =~= before.push(done@));
        updates
    }
}

/// The update that ends a stream where the directory cannot be resolved.
pub fn resolve_failure(root: &FilePath, reason: &str) -> (update: ScanUpdate)
    ensures
        update@ == UpdateView::Error("failed to resolve "@ + root@.display() + ": "@ + reason@),
{
    let mut text = "failed to resolve ".to_owned();
    text.append(root.display().as_str());
    text.append(": ");
    text.append(reason);
    ScanUpdate::Error(text)
}

/// The update that ends a stream where the directory cannot be read.
pub fn read_failure(root: &FilePath, reason: &str) -> (update: ScanUpdate)
    ensures
        update@ == UpdateView::Error("failed to read "@ + root@.display() + ": "@ + reason@),
{
    let mut text = "failed to read ".to_owned();
    text.append(root.display().as_str());
    text.append(": ");
    text.append(reason);
    ScanUpdate::Error(text)
}

/// What a stream begins with: the directory, the plans for its children, and how
/// many of them cannot be read. Where the directory cannot be resolved, or not be
/// read, the stream is the one update that says so.
pub open spec fn stream_begun(
    requested: PathView,
    resolved: Result<PathView, Seq<char>>,
    listed: Result<Seq<ChildView>, Seq<char>>,
) -> Result<(PathView, Seq<PlanView>, nat), UpdateView> {
    match resolved {
        Err(reason) => Err(
            UpdateView::Error("failed to resolve "@ + requested.display() + ": "@ + reason),
        ),
        Ok(root) => match listed {
            Err(reason) => Err(UpdateView::Error("failed to read "@ + root.display() + ": "@ + reason)),
            Ok(children) => Ok((root, plans_of(root, children), unreadables(children))),
        },
    }
}

/// What came of resolving a path.
pub open spec fn resolved_view(resolved: Result<FilePath, String>) -> Result<PathView, Seq<char>> {
    match resolved {
        Ok(root) => Ok(root@),
        Err(reason) => Err(reason@),
    }
}

/// What came of listing a directory.
pub open spec fn listed_view(listed: Result<Vec<ChildEntry>, String>) -> Result<Seq<ChildView>, Seq<char>> {
    match listed {
        Ok(children) => Ok(views(children@)),
        Err(reason) => Err(reason@),
    }
}

/// Begins a stream, or ends it with an error: exactly where the directory could not
/// be resolved, or else could not be read.
pub fn begin_stream(
    requested: &FilePath,
    resolved: Result<FilePath, String>,
    listed: Result<Vec<ChildEntry>, String>,
) -> (begun: Result<(FilePath, Vec<ChildPlan>, u64), ScanUpdate>)
    ensures
        match begun {
            Ok((root, plans, skipped)) => stream_begun(requested@, resolved_view(resolved), listed_view(listed))
                == Ok::<_, UpdateView>((root@, views(plans@), skipped as nat)),
            Err(update) => stream_begun(requested@, resolved_view(resolved), listed_view(listed)) == Err::<
                (PathView, Seq<PlanView>, nat),
                _,
            >(update@),
        },
        begun is Ok <==> resolved is Ok && listed is Ok,
{
    match resolved {
        Err(reason) => Err(resolve_failure(requested, reason.as_str())),
        Ok(root) => match listed {
            Err(reason) => Err(read_failure(&root, reason.as_str())),
            Ok(children) => {
                let (plans, skipped) = plan_children(&root, &Some(children));
                Ok((root, plans, skipped))
            },
        },
    }
}

/// The updates that a stream sends before its last ones.
pub open spec fn flushed(count: nat, rounds: Seq<Standing>) -> Seq<UpdateView>
    decreases rounds.len(),
{
    if rounds.len() == 0 {
        Seq::empty()
    } else {
        let front = rounds.drop_last();
        let sent = if front.len() == 0 {
            nothing_sent(count)
        } else {
            sent_after(front.last())
        };
        flushed(count, front) + flush_updates(sent, rounds.last())
    }
}

/// A whole stream: some rounds of updates, and the last ones.
pub open spec fn stream(rounds: Seq<Standing>, end: Standing) -> Seq<UpdateView> {
    flushed(end.buckets.len(), rounds) + closing_updates(end)
}

/// Whether an update ends a stream.
pub open spec fn ends_stream(update: UpdateView) -> bool {
    update is Done || update is Error
}

proof fn lemma_changed_goes_on(sizes: Seq<u64>, buckets: Seq<BucketView>)
    ensures
        forall|i: int|
            0 <= i < changed(sizes, buckets).len() ==> !ends_stream(#[trigger] changed(sizes, buckets)[i]),
    decreases buckets.len(),
{
    if buckets.len() > 0 {
        lemma_changed_goes_on(sizes, buckets.drop_last());
        let front = changed(sizes, buckets.drop_last());
        let all = changed(sizes, buckets);
        assert forall|i: int| 0 <= i < all.len() implies !ends_stream(#[trigger] all[i]) by {
            if i < front.len() {
                assert(all[i] == front[i]);
            }
        }
    }
}

proof fn lemma_flushed_goes_on(count: nat, rounds: Seq<Standing>)
    ensures
        forall|i: int| 0 <= i < flushed(count, rounds).len() ==> !ends_stream(#[trigger] flushed(count, rounds)[i]),
    decreases rounds.len(),
{
    if rounds.len() > 0 {
        let front = rounds.drop_last();
        let sent = if front.len() == 0 {
            nothing_sent(count)
        } else {
            sent_after(front.last())
        };
        lemma_flushed_goes_on(count, front);
        lemma_changed_goes_on(sent.sizes, rounds.last().buckets);
        let before = flushed(count, front);
        let progress = changed(sent.sizes, rounds.last().buckets);
        let round = flush_updates(sent, rounds.last());
        assert forall|i: int| 0 <= i < round.len() implies !ends_stream(#[trigger] round[i]) by {
            if i < progress.len() {
                assert(round[i] == progress[i]);
            }
        }
        let all = flushed(count, rounds);
        assert forall|i: int| 0 <= i < all.len() implies !ends_stream(#[trigger] all[i]) by {
            if i < before.len() {
                assert(all[i] == before[i]);
            } else {
                assert(all[i] == round[i - before.len()]);
            }
        }
    }
}

/// A stream ends with its sums, and no update before the last one ends it.
pub proof fn streams_end_once(rounds: Seq<Standing>, end: Standing)
    ensures
        stream(rounds, end).len() > 0,
        stream(rounds, end).last() == done_update(end),
        forall|i: int|
            0 <= i < stream(rounds, end).len() - 1 ==> !ends_stream(#[trigger] stream(rounds, end)[i]),
{
    lemma_flushed_goes_on(end.buckets.len(), rounds);
}

/// The large files that updates tell of.
pub open spec fn large_sent(updates: Seq<UpdateView>) -> Seq<LargeFileView>
    decreases updates.len(),
{
    if updates.len() == 0 {
        Seq::empty()
    } else {
        let front = large_sent(updates.drop_last());
        match updates.last() {
            UpdateView::Large(file) => front.push(file),
            _ => front,
        }
    }
}

/// The large files that were found in some rounds.
pub open spec fn all_found(rounds: Seq<Standing>) -> Seq<LargeFileView>
    decreases rounds.len(),
{
    if rounds.len() == 0 {
        Seq::empty()
    } else {
        all_found(rounds.drop_last()) + rounds.last().found
    }
}

proof fn lemma_large_sent_add(a: Seq<UpdateView>, b: Seq<UpdateView>)
    ensures
        large_sent(a + b) == large_sent(a) + large_sent(b),
    decreases b.len(),
{
    if b.len() == 0 {
        assert(a + b =~= a);
    } else {
        assert((a + b).drop_last() =~= a + b.drop_last());
        lemma_large_sent_add(a, b.drop_last());
    }
}

proof fn lemma_large_updates(files: Seq<LargeFileView>)
    ensures
        large_sent(large_updates(files)) == files,
    decreases files.len(),
{
    if files.len() == 0 {
        assert(large_updates(files) =~= Seq::empty());
    } else {
        lemma_large_updates(files.drop_last());
        assert(large_updates(files).drop_last() =~= large_updates(files.drop_last()));
        assert(files.drop_last().push(files.last()) =~= files);
    }
}

proof fn lemma_no_large(updates: Seq<UpdateView>)
    requires
        forall|i: int| 0 <= i < updates.len() ==> !((#[trigger] updates[i]) is Large),
    ensures
        large_sent(updates) == Seq::<LargeFileView>::empty(),
    decreases updates.len(),
{
    if updates.len() > 0 {
        assert(!(updates[updates.len() - 1] is Large));
        lemma_no_large(updates.drop_last());
    }
}

proof fn lemma_changed_is_progress(sizes: Seq<u64>, buckets: Seq<BucketView>)
    ensures
        forall|i: int| 0 <= i < changed(sizes, buckets).len() ==> (#[trigger] changed(sizes, buckets)[i]) is Progress,
    decreases buckets.len(),
{
    if buckets.len() > 0 {
        lemma_changed_is_progress(sizes, buckets.drop_last());
        let front = changed(sizes, buckets.drop_last());
        let all = changed(sizes, buckets);
        assert forall|i: int| 0 <= i < all.len() implies (#[trigger] all[i]) is Progress by {
            if i < front.len() {
                assert(all[i] == front[i]);
            }
        }
    }
}

proof fn lemma_round_sends(sent: SentView, now: Standing)
    ensures
        large_sent(flush_updates(sent, now)) == now.found,
{
    let progress = changed(sent.sizes, now.buckets);
    let large = large_updates(now.found);
    lemma_changed_is_progress(sent.sizes, now.buckets);
    lemma_no_large(progress);
    lemma_large_updates(now.found);
    lemma_large_sent_add(progress, large);
    assert(Seq::<LargeFileView>::empty() + now.found =~= now.found);
    if now.skipped != sent.skipped {
        assert((progress + large).push(UpdateView::Skipped(now.skipped)).drop_last() =~= progress + large);
    }
}

proof fn lemma_flushed_sends(count: nat, rounds: Seq<Standing>)
    ensures
        large_sent(flushed(count, rounds)) == all_found(rounds),
    decreases rounds.len(),
{
    if rounds.len() > 0 {
        let front = rounds.drop_last();
        let sent = if front.len() == 0 {
            nothing_sent(count)
        } else {
            sent_after(front.last())
        };
        lemma_flushed_sends(count, front);
        lemma_round_sends(sent, rounds.last());
        lemma_large_sent_add(flushed(count, front), flush_updates(sent, rounds.last()));
    }
}

/// A stream tells of each large file that was found, once for each time it was
/// found, in that order.
pub proof fn streams_tell_of_every_large_file(rounds: Seq<Standing>, end: Standing)
    ensures
        large_sent(stream(rounds, end)) == all_found(rounds) + end.found,
{
    let progress = Seq::new(end.buckets.len(), |i: int| progress_of(end.buckets[i]));
    let large = large_updates(end.found);
    lemma_no_large(progress);
    lemma_large_updates(end.found);
    lemma_large_sent_add(progress, large);
    assert(Seq::<LargeFileView>::empty() + end.found =~= end.found);
    assert(closing_updates(end).drop_last() =~= progress + large);
    lemma_flushed_sends(end.buckets.len(), rounds);
    lemma_large_sent_add(flushed(end.buckets.len(), rounds), closing_updates(end));
}

} // verus!
