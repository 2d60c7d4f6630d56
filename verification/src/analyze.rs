//! What takes up the room below a directory: a walk through each of its
//! children, and the report that the walks add up to.

use vstd::prelude::*;
use vstd::string::StringExecFns;

use crate::model::{ActionView, CleanupAction, CleanupGroup, CleanupItem, ItemView, Risk};
use crate::order::{order_of, sort, stable_sorted, views, Ranked};
use crate::path::{path_le, path_order_is_total, path_order_is_transitive, FilePath, PathView};
use crate::text::{
    chars_of, from_utf8_lossy, lossy_text, not_after, text_le, text_order_is_total, text_order_is_transitive,
};
use crate::walk::{
    should_skip_name, skipped_name, DirView, DirectoryEntry, EntryKind, EntryView, FileMetadata, LargeFile,
    LargeFileRule, LargeFileRuleView, LargeFileView, TreeWalk, WalkRules, WalkRulesView, WalkView,
};

verus! {

/// A child of the directory that is analyzed.
#[derive(Clone, Debug, PartialEq, Eq)]
pub struct ChildEntry {
    pub entry: DirectoryEntry,
    /// Whether the child, or what it points to, is a directory.
    pub resolves_to_dir: bool,
}

/// What is known of a child.
pub struct ChildView {
    pub entry: EntryView,
    pub resolves_to_dir: bool,
}

impl View for ChildEntry {
    type V = ChildView;

    open spec fn view(&self) -> ChildView {
        ChildView { entry: self.entry@, resolves_to_dir: self.resolves_to_dir }
    }
}

/// What is to be done about a child: count the file, walk through the directory,
/// or nothing.
#[derive(Clone, Copy, Debug, PartialEq, Eq)]
pub enum ChildKind {
    File(FileMetadata),
    Dir,
    Skip,
}

/// A child with what is to be done about it.
#[derive(Clone, Debug, PartialEq, Eq)]
pub struct ChildPlan {
    pub path: FilePath,
    pub is_dir: bool,
    pub kind: ChildKind,
}

/// What a plan says.
pub struct PlanView {
    pub path: PathView,
    pub is_dir: bool,
    pub kind: ChildKind,
}

impl View for ChildPlan {
    type V = PlanView;

    open spec fn view(&self) -> PlanView {
        PlanView { path: self.path@, is_dir: self.is_dir, kind: self.kind }
    }
}

/// What is to be done about an entry of some kind.
pub open spec fn kind_planned(kind: EntryKind) -> ChildKind {
    match kind {
        EntryKind::Directory => ChildKind::Dir,
        EntryKind::File(metadata) => ChildKind::File(metadata),
        _ => ChildKind::Skip,
    }
}

/// The plan for a child; none for one that its name tells to skip.
pub open spec fn planned(root: PathView, child: ChildView) -> Option<PlanView> {
    if skipped_name(child.entry.name) {
        None
    } else {
        Some(
            PlanView {
                path: root.child(child.entry.name),
                is_dir: child.resolves_to_dir,
                kind: kind_planned(child.entry.kind),
            },
        )
    }
}

/// Whether a child cannot be read, one that counts.
pub open spec fn unreadable(child: ChildView) -> nat {
    if !skipped_name(child.entry.name) && (child.entry.kind is UnreadableFile || child.entry.kind is Unknown) {
        1
    } else {
        0
    }
}

/// Plans what is to be done about a child, and counts it where it cannot be read.
pub fn plan_child(root: &FilePath, child: &ChildEntry, skipped_entries: &mut u64) -> (plan: Option<ChildPlan>)
    requires
        *old(skipped_entries) + unreadable(child@) <= u64::MAX,
    ensures
        match plan {
            Some(p) => planned(root@, child@) == Some(p@),
            None => planned(root@, child@) is None,
        },
        *final(skipped_entries) == *old(skipped_entries) + unreadable(child@),
{
    if should_skip_name(&child.entry.name) {
        return None;
    }
    let path = root.child(&child.entry.name);
    let kind = match child.entry.kind {
        EntryKind::Directory => ChildKind::Dir,
        EntryKind::File(metadata) => ChildKind::File(metadata),
        EntryKind::Symlink | EntryKind::Other => ChildKind::Skip,
        EntryKind::UnreadableFile | EntryKind::Unknown => {
            *skipped_entries = *skipped_entries + 1;
            ChildKind::Skip
        },
    };
    Some(ChildPlan { path, is_dir: child.resolves_to_dir, kind })
}

/// The plans for children, in their order.
pub open spec fn plans_of(root: PathView, children: Seq<ChildView>) -> Seq<PlanView>
    decreases children.len(),
{
    if children.len() == 0 {
        Seq::empty()
    } else {
        let front = plans_of(root, children.drop_last());
        match planned(root, children.last()) {
            Some(plan) => front.push(plan),
            None => front,
        }
    }
}

/// How many children cannot be read.
pub open spec fn unreadables(children: Seq<ChildView>) -> nat
    decreases children.len(),
{
    if children.len() == 0 {
        0
    } else {
        unreadables(children.drop_last()) + unreadable(children.last())
    }
}

proof fn lemma_unreadables(children: Seq<ChildView>, k: int)
    requires
        0 <= k <= children.len(),
    ensures
        unreadables(children.take(k)) <= k,
    decreases k,
{
    if k > 0 {
        lemma_unreadables(children, k - 1);
        assert(children.take(k).drop_last() =~= children.take(k - 1));
    }
}

/// What children are known, where the directory could be read.
pub open spec fn children_view(children: Option<Vec<ChildEntry>>) -> Option<Seq<ChildView>> {
    match children {
        Some(list) => Some(views(list@)),
        None => None,
    }
}

/// The plans for the children of `root`, none where it could not be read.
pub open spec fn root_plans(root: PathView, children: Option<Seq<ChildView>>) -> Seq<PlanView> {
    match children {
        Some(list) => plans_of(root, list),
        None => Seq::empty(),
    }
}

/// How many entries could not be read on the first level; the directory itself,
/// where it is the one.
pub open spec fn root_skipped(children: Option<Seq<ChildView>>) -> nat {
    match children {
        Some(list) => unreadables(list),
        None => 1,
    }
}

/// Plans what is to be done about the children of `root`, and counts what could
/// not be read.
pub fn plan_children(root: &FilePath, children: &Option<Vec<ChildEntry>>) -> (planned: (Vec<ChildPlan>, u64))
    ensures
        views(planned.0@) == root_plans(root@, children_view(*children)),
        planned.1 as nat == root_skipped(children_view(*children)),
{
    let mut plans: Vec<ChildPlan> = Vec::new();
    let mut skipped_entries: u64 = 0;
    match children {
        None => {
            skipped_entries = 1;
            assert(views(plans@) =~= Seq::empty());
        },
        Some(list) => {
            let ghost all = views(list@);
            assert(views(plans@) =~= plans_of(root@, all.take(0)));
            for i in 0..list.len()
                invariant
                    all == views(list@),
                    views(plans@) == plans_of(root@, all.take(i as int)),
                    skipped_entries as nat == unreadables(all.take(i as int)),
            {
                let ghost before = views(plans@);
                proof {
                    assert(all.take(i + 1).drop_last() =~= all.take(i as int));
                    assert(all.take(i + 1).last() == list@[i as int]@);
                    lemma_unreadables(all, i + 1);
                }
                if let Some(plan) = plan_child(root, &list[i], &mut skipped_entries) {
                    plans.push(plan);
                    assert(views(plans@) =~= before.push(plan@));
                }
            }
            assert(all.take(all.len() as int) =~= all);
        },
    }
    (plans, skipped_entries)
}

/// How the children of `root` are walked through.
pub open spec fn rules_for(root: PathView, minimum_size: u64, max_depth: nat) -> WalkRulesView {
    WalkRulesView { skip_known: true, max_depth, large: Some(LargeFileRuleView { root, minimum_size }) }
}

/// The rules of an analysis of `root`.
pub fn analysis_rules(root: &FilePath, minimum_size: u64, max_depth: usize) -> (rules: WalkRules)
    ensures
        rules@ == rules_for(root@, minimum_size, max_depth as nat),
{
    WalkRules { skip_known: true, max_depth, large: Some(LargeFileRule { root: root.clone(), minimum_size }) }
}

/// The walk that a plan asks for, before its first step.
pub open spec fn started(rules: WalkRulesView, plan: PlanView) -> WalkView {
    match plan.kind {
        ChildKind::Skip => WalkView::idle(rules),
        ChildKind::File(metadata) => WalkView::idle(rules).with_file(plan.path, metadata),
        ChildKind::Dir => WalkView::idle(rules).with_dir(DirView { path: plan.path, depth: 1 }),
    }
}

/// Starts the walk that a plan asks for.
pub fn start_child(plan: &ChildPlan, rules: WalkRules) -> (walk: TreeWalk)
    ensures
        walk@ == started(rules@, plan@),
{
    match plan.kind {
        ChildKind::Skip => TreeWalk::idle(rules),
        ChildKind::File(metadata) => TreeWalk::of_file(&plan.path, &metadata, rules),
        ChildKind::Dir => TreeWalk::through(plan.path.clone(), rules),
    }
}

/// A child with the room that it takes up.
#[derive(Clone, Debug, PartialEq, Eq)]
pub struct DiskEntry {
    pub name: String,
    pub path: FilePath,
    pub size: u64,
    pub is_dir: bool,
}

/// What is known of a child and its size.
#[verifier::ext_equal]
pub struct DiskView {
    pub name: Seq<char>,
    pub path: PathView,
    pub size: u64,
    pub is_dir: bool,
}

impl View for DiskEntry {
    type V = DiskView;

    open spec fn view(&self) -> DiskView {
        DiskView { name: self.name@, path: self.path@, size: self.size, is_dir: self.is_dir }
    }
}

impl Ranked for DiskEntry {
    /// The largest first, then by name.
    open spec fn in_order(a: DiskView, b: DiskView) -> bool {
        a.size > b.size || a.size == b.size && text_le(a.name, b.name)
    }

    proof fn order_is_total(a: DiskView, b: DiskView) {
        text_order_is_total(a.name, b.name);
    }

    proof fn order_is_transitive(a: DiskView, b: DiskView, c: DiskView) {
        if a.size == b.size && b.size == c.size {
            text_order_is_transitive(a.name, b.name, c.name);
        }
    }

    fn may_precede(&self, other: &Self) -> (yes: bool) {
        if self.size != other.size {
            return self.size > other.size;
        }
        let a = chars_of(self.name.as_str());
        let b = chars_of(other.name.as_str());
        not_after(a.as_slice(), b.as_slice())
    }
}

impl Ranked for LargeFile {
    /// The largest first, then by path.
    open spec fn in_order(a: LargeFileView, b: LargeFileView) -> bool {
        a.size > b.size || a.size == b.size && path_le(a.path, b.path)
    }

    proof fn order_is_total(a: LargeFileView, b: LargeFileView) {
        path_order_is_total(a.path, b.path);
    }

    proof fn order_is_transitive(a: LargeFileView, b: LargeFileView, c: LargeFileView) {
        if a.size == b.size && b.size == c.size {
            path_order_is_transitive(a.path, b.path, c.path);
        }
    }

    fn may_precede(&self, other: &Self) -> (yes: bool) {
        if self.size != other.size {
            return self.size > other.size;
        }
        self.path.not_after(&other.path)
    }
}

/// The item that offers a large file for removal.
pub open spec fn large_file_item(file: LargeFileView) -> ItemView {
    ItemView {
        id: "large-file:"@ + file.path.display(),
        group: CleanupGroup::User,
        label: "Large personal file "@ + file.path.display(),
        estimated_bytes: file.size,
        risk: Risk::Explicit,
        action: ActionView::RemovePersonalFile { path: file.path },
    }
}

impl LargeFile {
    /// Offers the file for removal, which only its owner can judge.
    pub fn cleanup_item(&self) -> (item: CleanupItem)
        ensures
            item@ == large_file_item(self@),
    {
        let shown = self.path.display();
        let mut id = "large-file:".to_owned();
        id.append(shown.as_str());
        let mut label = "Large personal file ".to_owned();
        label.append(shown.as_str());
        CleanupItem {
            id,
            group: CleanupGroup::User,
            label,
            estimated_bytes: self.size,
            risk: Risk::Explicit,
            action: CleanupAction::RemovePersonalFile { path: self.path.clone() },
        }
    }
}

/// What takes up the room below a directory.
#[derive(Clone, Debug, PartialEq, Eq)]
pub struct AnalysisReport {
    pub root: FilePath,
    pub entries: Vec<DiskEntry>,
    pub large_files: Vec<LargeFile>,
    pub total_size: u64,
    pub total_files: u64,
    pub skipped_entries: u64,
}

/// What a report says.
#[verifier::ext_equal]
pub struct AnalysisView {
    pub root: PathView,
    pub entries: Seq<DiskView>,
    pub large_files: Seq<LargeFileView>,
    pub total_size: nat,
    pub total_files: nat,
    pub skipped_entries: nat,
}

impl View for AnalysisReport {
    type V = AnalysisView;

    open spec fn view(&self) -> AnalysisView {
        AnalysisView {
            root: self.root@,
            entries: views(self.entries@),
            large_files: views(self.large_files@),
            total_size: self.total_size as nat,
            total_files: self.total_files as nat,
            skipped_entries: self.skipped_entries as nat,
        }
    }
}

/// Why there is no report.
#[derive(Clone, Debug, PartialEq, Eq)]
pub enum AnalysisError {
    Missing { path: FilePath },
    Unresolved { path: FilePath },
    Cancelled,
}

/// What an error says.
pub enum ErrorView {
    Missing { path: PathView },
    Unresolved { path: PathView },
    Cancelled,
}

impl View for AnalysisError {
    type V = ErrorView;

    open spec fn view(&self) -> ErrorView {
        match *self {
            AnalysisError::Missing { path } => ErrorView::Missing { path: path@ },
            AnalysisError::Unresolved { path } => ErrorView::Unresolved { path: path@ },
            AnalysisError::Cancelled => ErrorView::Cancelled,
        }
    }
}

/// The text that shows an error.
pub open spec fn error_text(error: ErrorView) -> Seq<char> {
    match error {
        ErrorView::Missing { path } => "analysis path does not exist: "@ + path.display(),
        ErrorView::Unresolved { path } => "failed to resolve "@ + path.display(),
        ErrorView::Cancelled => "analysis cancelled"@,
    }
}

impl AnalysisError {
    /// The error as a text to show.
    pub fn message(&self) -> (text: String)
        ensures
            text@ == error_text(self@),
    {
        match self {
            AnalysisError::Missing { path } => {
                let mut text = "analysis path does not exist: ".to_owned();
                text.append(path.display().as_str());
                text
            },
            AnalysisError::Unresolved { path } => {
                let mut text = "failed to resolve ".to_owned();
                text.append(path.display().as_str());
                text
            },
            AnalysisError::Cancelled => "analysis cancelled".to_owned(),
        }
    }
}

/// The directory to analyze: the one that the requested path resolves to. There is
/// none where the path does not exist or cannot be resolved, or where the analysis
/// has been cancelled by then.
pub fn analysis_root(
    requested: &FilePath,
    exists: bool,
    resolved: Option<FilePath>,
    cancelled: bool,
) -> (root: Result<FilePath, AnalysisError>)
    ensures
        match root {
            Ok(path) => exists && resolved is Some && !cancelled && path@ == resolved->0@,
            Err(error) => error@ == (if !exists {
                (ErrorView::Missing { path: requested@ })
            } else if resolved is None {
                (ErrorView::Unresolved { path: requested@ })
            } else {
                ErrorView::Cancelled
            }),
        },
        root is Ok <==> exists && resolved is Some && !cancelled,
{
    if !exists {
        return Err(AnalysisError::Missing { path: requested.clone() });
    }
    match resolved {
        None => Err(AnalysisError::Unresolved { path: requested.clone() }),
        Some(path) => if cancelled {
            Err(AnalysisError::Cancelled)
        } else {
            Ok(path)
        },
    }
}

/// The bytes that walks have gathered together.
pub open spec fn total_bytes(walks: Seq<WalkView>) -> nat
    decreases walks.len(),
{
    if walks.len() == 0 {
        0
    } else {
        total_bytes(walks.drop_last()) + walks.last().bytes
    }
}

/// The number of files that walks have gathered together.
pub open spec fn total_files(walks: Seq<WalkView>) -> nat
    decreases walks.len(),
{
    if walks.len() == 0 {
        0
    } else {
        total_files(walks.drop_last()) + walks.last().files
    }
}

/// The number of entries that walks could not read together.
pub open spec fn total_skipped(walks: Seq<WalkView>) -> nat
    decreases walks.len(),
{
    if walks.len() == 0 {
        0
    } else {
        total_skipped(walks.drop_last()) + walks.last().skipped
    }
}

/// The large files of all walks, one walk after the other.
pub open spec fn all_large(walks: Seq<WalkView>) -> Seq<LargeFileView>
    decreases walks.len(),
{
    if walks.len() == 0 {
        Seq::empty()
    } else {
        all_large(walks.drop_last()) + walks.last().large
    }
}

/// The name of a child, as it is shown.
pub open spec fn shown_name(path: PathView) -> Seq<char> {
    lossy_text(
        match path.file_name() {
            Some(name) => name,
            None => Seq::empty(),
        },
    )
}

/// A child with its size.
pub open spec fn disk_entry(plan: PlanView, size: nat) -> DiskView {
    DiskView { name: shown_name(plan.path), path: plan.path, size: size as u64, is_dir: plan.is_dir }
}

/// The children with their sizes, in the order of the plans.
pub open spec fn disk_entries(plans: Seq<PlanView>, walks: Seq<WalkView>) -> Seq<DiskView> {
    Seq::new(plans.len(), |i: int| disk_entry(plans[i], walks[i].bytes))
}

/// The report that walks add up to. The size stops at the largest machine number.
pub open spec fn assembled(root: PathView, plans: Seq<PlanView>, walks: Seq<WalkView>, skipped: nat) -> AnalysisView {
    AnalysisView {
        root,
        entries: stable_sorted(disk_entries(plans, walks), order_of::<DiskEntry>()),
        large_files: stable_sorted(all_large(walks), order_of::<LargeFile>()),
        total_size: if total_bytes(walks) <= u64::MAX {
            total_bytes(walks)
        } else {
            u64::MAX as nat
        },
        total_files: total_files(walks),
        skipped_entries: skipped + total_skipped(walks),
    }
}

/// Whether the sums of a report are machine numbers.
pub open spec fn totals_fit(walks: Seq<WalkView>, skipped: nat) -> bool {
    total_files(walks) <= u64::MAX && skipped + total_skipped(walks) <= u64::MAX
}

proof fn lemma_totals_grow(walks: Seq<WalkView>, k: int)
    requires
        0 <= k <= walks.len(),
    ensures
        total_files(walks.take(k)) <= total_files(walks),
        total_skipped(walks.take(k)) <= total_skipped(walks),
    decreases walks.len() - k,
{
    if k < walks.len() {
        lemma_totals_grow(walks, k + 1);
        assert(walks.take(k + 1).drop_last() =~= walks.take(k));
    } else {
        assert(walks.take(k) =~= walks);
    }
}

/// Tests whether the sums of a report are machine numbers.
pub fn can_report(walks: &Vec<TreeWalk>, skipped_entries: u64) -> (yes: bool)
    ensures
        yes == totals_fit(views(walks@), skipped_entries as nat),
{
    let ghost all = views(walks@);
    let mut files: u64 = 0;
    let mut skipped: u64 = skipped_entries;
    for i in 0..walks.len()
        invariant
            all == views(walks@),
            files as nat == total_files(all.take(i as int)),
            skipped as nat == skipped_entries + total_skipped(all.take(i as int)),
    {
        proof {
            assert(all.take(i + 1).drop_last() =~= all.take(i as int));
            assert(all.take(i + 1).last() == walks@[i as int]@);
            lemma_totals_grow(all, i + 1);
        }
        let more_files = walks[i].files();
        let more_skipped = walks[i].skipped();
        if files > u64::MAX - more_files || skipped > u64::MAX - more_skipped {
            return false;
        }
        files = files + more_files;
        skipped = skipped + more_skipped;
    }
    assert(all.take(all.len() as int) =~= all);
    true
}

fn shown(path: &FilePath) -> (name: String)
    ensures
        name@ == shown_name(path@),
{
    match path.file_name() {
        Some(name) => from_utf8_lossy(name.as_slice()),
        None => {
            let none: Vec<u8> = Vec::new();
            from_utf8_lossy(none.as_slice())
        },
    }
}

fn disk_entries_of(plans: &Vec<ChildPlan>, walks: &Vec<TreeWalk>) -> (entries: Vec<DiskEntry>)
    requires
        plans@.len() == walks@.len(),
    ensures
        views(entries@) == disk_entries(views(plans@), views(walks@)),
{
    let mut entries: Vec<DiskEntry> = Vec::new();
    for i in 0..plans.len()
        invariant
            plans@.len() == walks@.len(),
            entries@.len() == i,
            forall|j: int|
                0 <= j < i ==> (#[trigger] entries@[j])@ == disk_entry(plans@[j]@, walks@[j]@.bytes),
    {
        let plan = &plans[i];
        entries.push(
            DiskEntry {
                name: shown(&plan.path),
                path: plan.path.clone(),
                size: walks[i].bytes(),
                is_dir: plan.is_dir,
            },
        );
    }
    assert(views(entries@) =~= disk_entries(views(plans@), views(walks@)));
    entries
}

fn all_large_of(walks: Vec<TreeWalk>) -> (files: Vec<LargeFile>)
    ensures
        views(files@) == all_large(views(walks@)),
{
    let ghost all = views(walks@);
    let mut files: Vec<LargeFile> = Vec::new();
    assert(views(files@) =~= all_large(all.take(0)));
    for walk in iter: walks
        invariant
            iter.seq() == walks@,
            all == views(walks@),
            views(files@) == all_large(all.take(iter.index() as int)),
    {
        let ghost i = iter.index() as int;
        assert(all.take(i + 1).drop_last() =~= all.take(i));
        assert(all.take(i + 1).last() == walk@);
        let mut walk = walk;
        let ghost before = views(files@);
        let mut found = walk.take_large_files();
        let ghost more = found@;
        files.append(&mut found);
        assert(views(files@) =~= before + views(more));
    }
    assert(all.take(all.len() as int) =~= all);
    files
}

/// Puts the report together once every walk has ended. There is none where the
/// analysis has been cancelled.
pub fn assemble_report(
    root: FilePath,
    plans: Vec<ChildPlan>,
    walks: Vec<TreeWalk>,
    skipped_entries: u64,
    cancelled: bool,
) -> (report: Result<AnalysisReport, AnalysisError>)
    requires
        plans@.len() == walks@.len(),
        !cancelled ==> totals_fit(views(walks@), skipped_entries as nat),
    ensures
        match report {
            Ok(r) => !cancelled && r@ == assembled(root@, views(plans@), views(walks@), skipped_entries as nat),
            Err(error) => cancelled && error@ == ErrorView::Cancelled,
        },
{
    if cancelled {
        return Err(AnalysisError::Cancelled);
    }
    let ghost all = views(walks@);
    let mut total_size: u64 = 0;
    let mut files: u64 = 0;
    let mut skipped: u64 = skipped_entries;
    for i in 0..walks.len()
        invariant
            all == views(walks@),
            totals_fit(all, skipped_entries as nat),
            total_size as nat == (if total_bytes(all.take(i as int)) <= u64::MAX {
                total_bytes(all.take(i as int))
            } else {
                u64::MAX as nat
            }),
            files as nat == total_files(all.take(i as int)),
            skipped as nat == skipped_entries + total_skipped(all.take(i as int)),
    {
        proof {
            assert(all.take(i + 1).drop_last() =~= all.take(i as int));
            assert(all.take(i + 1).last() == walks@[i as int]@);
            lemma_totals_grow(all, i + 1);
        }
        total_size = total_size.saturating_add(walks[i].bytes());
        files = files + walks[i].files();
        skipped = skipped + walks[i].skipped();
    }
    assert(all.take(all.len() as int) =~= all);
    let entries = sort(disk_entries_of(&plans, &walks));
    let large_files = sort(all_large_of(walks));
    let report = AnalysisReport {
        root,
        entries,
        large_files,
        total_size,
        total_files: files,
        skipped_entries: skipped,
    };
    assert(report@ =~= assembled(root@, views(plans@), all, skipped_entries as nat));
    Ok(report)
}

/// What a path itself is, not what it may point to.
#[derive(Clone, Copy, Debug, PartialEq, Eq)]
pub struct PathMetadata {
    pub is_symlink: bool,
    pub is_file: bool,
    pub size: u64,
}

/// How the size of a path is found: it is known, or a walk will bring it.
pub enum Sizing {
    Known(u64),
    Walk(TreeWalk),
}

/// What is known of such a sizing.
pub enum SizingView {
    Known(u64),
    Walk(WalkView),
}

impl View for Sizing {
    type V = SizingView;

    open spec fn view(&self) -> SizingView {
        match *self {
            Sizing::Known(size) => SizingView::Known(size),
            Sizing::Walk(walk) => SizingView::Walk(walk@),
        }
    }
}

/// How a path is walked through for its size alone.
pub open spec fn sizing_rules() -> WalkRulesView {
    WalkRulesView { skip_known: false, max_depth: usize::MAX as nat, large: None }
}

/// How the size of a path is found. What does not exist has none; a file and a
/// symbolic link have their own; a directory has that of the files below it.
pub open spec fn sizing_of(path: PathView, metadata: Option<PathMetadata>) -> SizingView {
    match metadata {
        None => SizingView::Known(0),
        Some(known) => if known.is_symlink || known.is_file {
            SizingView::Known(known.size)
        } else {
            SizingView::Walk(WalkView::idle(sizing_rules()).with_dir(DirView { path, depth: 1 }))
        },
    }
}

/// Starts to find the size of a path.
pub fn start_sizing(path: FilePath, metadata: Option<PathMetadata>) -> (sizing: Sizing)
    ensures
        sizing@ == sizing_of(path@, metadata),
{
    match metadata {
        None => Sizing::Known(0),
        Some(known) => if known.is_symlink || known.is_file {
            Sizing::Known(known.size)
        } else {
            Sizing::Walk(
                TreeWalk::through(path, WalkRules { skip_known: false, max_depth: usize::MAX, large: None }),
            )
        },
    }
}

} // verus!
