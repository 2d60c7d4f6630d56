//! That nothing is lost or changed between values and what the contracts say of them.

use vstd::prelude::*;

use crate::analyze::{
    AnalysisReport, AnalysisView, ChildEntry, ChildPlan, ChildView, DiskEntry, DiskView, PlanView, Sizing, SizingView,
};
use crate::answers::PendingReportView;
use crate::catalog::PendingReport;
use crate::command::{reply_view, CommandOutput, CommandView, Query, ReplyView};
use crate::desktop::{DesktopApplication, DesktopCandidate, DesktopView};
use crate::model::{ActionView, CleanupAction, CleanupItem, CommandSpec, ItemView, ScanReport, ScanView};
use crate::order::views;
use crate::path::{Components, FilePath, PathView, Route};
use crate::purge::{dated, DiscoveredArtifact, ProjectEntry, ProjectView, PurgeCandidate};
use crate::scanner::{CachePath, CacheView, FactsView, PackageFacts, ScanFacts};
use crate::sizes::{ReportedSize, SizeView};
use crate::stream::{BucketView, ScanUpdate, StreamBucket, UpdateView};
use crate::uninstall::{path_option, Application, ApplicationView, PendingApplication, PendingView};
use crate::walk::{DirView, DirectoryEntry, EntryView, LargeFile, LargeFileView, PendingDir, WalkRules};

verus! {

/// What is said of a list is said of each of its elements, in their order.
pub proof fn lists_are_told_element_by_element<T: View>(list: Seq<T>, i: int)
    ensures
        views(list).len() == list.len(),
        0 <= i < list.len() ==> views(list)[i] == list[i]@,
{
}

/// Paths are told by their bytes, and components one by one.
pub proof fn paths_are_told_by_their_bytes(path: FilePath, components: Components)
    ensures
        path@ == (PathView { bytes: path.bytes@ }),
        components@ == (Route { absolute: components.absolute, parts: views(components.parts@) }),
{
}

/// What is told of entries, large files and walks is all that they hold.
pub proof fn walks_are_told_in_full(
    entry: DirectoryEntry,
    file: LargeFile,
    dir: PendingDir,
    rules: WalkRules,
)
    ensures
        entry@ == (EntryView { name: entry.name@, kind: entry.kind }),
        file@ == (LargeFileView {
            path: file.path@,
            size: file.size,
            modified_unix: file.modified_unix,
            app_data: file.app_data,
        }),
        dir@ == (DirView { path: dir.path@, depth: dir.depth as nat }),
        rules@.skip_known == rules.skip_known,
        rules@.max_depth == rules.max_depth,
        rules@.large is Some <==> rules.large is Some,
        rules.large is Some ==> rules@.large->0.root == rules.large->0.root@ && rules@.large->0.minimum_size
            == rules.large->0.minimum_size,
{
}

/// What is told of an analysis is all that it holds.
pub proof fn analyses_are_told_in_full(
    child: ChildEntry,
    plan: ChildPlan,
    entry: DiskEntry,
    report: AnalysisReport,
    sizing: Sizing,
)
    ensures
        child@ == (ChildView { entry: child.entry@, resolves_to_dir: child.resolves_to_dir }),
        plan@ == (PlanView { path: plan.path@, is_dir: plan.is_dir, kind: plan.kind }),
        entry@ == (DiskView { name: entry.name@, path: entry.path@, size: entry.size, is_dir: entry.is_dir }),
        report@ == (AnalysisView {
            root: report.root@,
            entries: views(report.entries@),
            large_files: views(report.large_files@),
            total_size: report.total_size as nat,
            total_files: report.total_files as nat,
            skipped_entries: report.skipped_entries as nat,
        }),
        sizing@ == match sizing {
            Sizing::Known(size) => SizingView::Known(size),
            Sizing::Walk(walk) => SizingView::Walk(walk@),
        },
{
}

/// What is told of updates is all that they hold.
pub proof fn updates_are_told_in_full(update: ScanUpdate, bucket: StreamBucket)
    ensures
        update@ == match update {
            ScanUpdate::Progress { top, size, files, is_dir } => UpdateView::Progress { top: top@, size, files, is_dir },
            ScanUpdate::Large(file) => UpdateView::Large(file@),
            ScanUpdate::Skipped(count) => UpdateView::Skipped(count),
            ScanUpdate::Done { total_size, total_files, skipped } => UpdateView::Done {
                total_size: total_size as nat,
                total_files: total_files as nat,
                skipped: skipped as nat,
            },
            ScanUpdate::Error(text) => UpdateView::Error(text@),
        },
        bucket@ == (BucketView {
            path: bucket.path@,
            is_dir: bucket.is_dir,
            bytes: bucket.bytes,
            files: bucket.files,
        }),
{
}

/// What is told of artifacts is all that they hold, and only moments that a clock can show
/// are asked for.
pub proof fn artifacts_are_told_in_full(
    entry: ProjectEntry,
    artifact: DiscoveredArtifact,
    candidate: PurgeCandidate,
)
    ensures
        entry@ == (ProjectView {
            path: entry.path@,
            depth: entry.depth as nat,
            is_dir: entry.is_dir,
            metadata: entry.metadata,
        }),
        artifact@.path == artifact.path@,
        artifact@.kind == artifact.kind@,
        artifact@.age_days == artifact.age_days,
        artifact@.modified_unix == match artifact.modified_unix {
            Some(seconds) => Some(seconds as int),
            None => None,
        },
        candidate@.size == candidate.size,
        candidate@.artifact.path == candidate.path@,
        candidate@.artifact.kind == candidate.kind@,
        candidate@.artifact.age_days == candidate.age_days,
        candidate@.artifact.modified_unix == match candidate.modified_unix {
            Some(seconds) => Some(seconds as int),
            None => None,
        },
        dated(entry@) <==> (entry.metadata is Some && entry.metadata->0.modified is Some
            ==> crate::purge::on_the_clock(entry.metadata->0.modified->0)),
{
}

/// What is told of items and actions is all that they hold.
pub proof fn items_are_told_in_full(item: CleanupItem, report: ScanReport, command: CommandSpec)
    ensures
        item@ == (ItemView {
            id: item.id@,
            group: item.group,
            label: item.label@,
            estimated_bytes: item.estimated_bytes,
            risk: item.risk,
            action: item.action@,
        }),
        item.action@ == match item.action {
            CleanupAction::Command { program, args, requires_root } => ActionView::Command {
                program: program@,
                args: views(args@),
                requires_root,
            },
            CleanupAction::CommandSequence { commands } => ActionView::CommandSequence {
                commands: views(commands@),
            },
            CleanupAction::RemovePath { path, contents_only } => ActionView::RemovePath {
                path: path@,
                contents_only,
            },
            CleanupAction::RemovePersonalFile { path } => ActionView::RemovePersonalFile { path: path@ },
        },
        report@ == (ScanView {
            distribution: report.distribution@,
            items: views(report.items@),
            warnings: views(report.warnings@),
        }),
        command@ == (CommandView {
            program: command.program@,
            args: views(command.args@),
            requires_root: command.requires_root,
        }),
{
}

/// What is told of a system is all that was measured of it.
pub proof fn facts_are_told_in_full(facts: ScanFacts, packages: PackageFacts, cache: CachePath)
    ensures
        facts@ == (FactsView {
            packages: facts.packages@,
            journalctl: facts.journalctl,
            journal_bytes: facts.journal_bytes,
            user_bytes: facts.user_bytes@,
            trash_bytes: facts.trash_bytes,
            dev_bytes: facts.dev_bytes@,
            docker: facts.docker,
            flatpak: facts.flatpak,
        }),
        packages@.estimated == packages.estimated,
        packages@.installed == packages.installed,
        packages@.item == match packages.item {
            Some(item) => Some(item@),
            None => None,
        },
        cache@ == (CacheView { relative: cache.relative@, label: cache.label@ }),
{
}

/// What is told of commands and replies is all that they hold.
pub proof fn replies_are_told_in_full(query: Query, reply: Result<CommandOutput, String>)
    ensures
        query@ == (CommandView { program: query.program@, args: views(query.args@), requires_root: false }),
        reply_view(reply) == match reply {
            Ok(output) => ReplyView::Finished {
                success: output.success,
                status: output.status@,
                stdout: output.stdout@,
                stderr: output.stderr@,
            },
            Err(reason) => ReplyView::Failed { reason: reason@ },
        },
{
}

/// What is told of applications is all that they hold.
pub proof fn applications_are_told_in_full(
    application: Application,
    pending: PendingApplication,
    report: PendingReport,
    size: ReportedSize,
)
    ensures
        application@ == (ApplicationView {
            id: application.id@,
            name: application.name@,
            package: application.package@,
            version: application.version@,
            source: application.source,
            installed_bytes: application.installed_bytes,
            user_data_bytes: application.user_data_bytes,
            desktop_file: path_option(application.desktop_file),
            user_data_paths: views(application.user_data_paths@),
        }),
        pending@ == (PendingView {
            id: pending.id@,
            name: pending.name@,
            package: pending.package@,
            version: pending.version@,
            source: pending.source,
            installed: pending.installed@,
            desktop_file: path_option(pending.desktop_file),
            data_path: path_option(pending.data_path),
        }),
        path_option(pending.data_path) == match pending.data_path {
            Some(path) => Some(path@),
            None => None,
        },
        report@ == (PendingReportView {
            distribution: report.distribution@,
            applications: views(report.applications@),
            warnings: views(report.warnings@),
        }),
        size@ == match size {
            ReportedSize::Bytes(bytes) => SizeView::Bytes(bytes),
            ReportedSize::Scaled { number, multiplier } => SizeView::Scaled { number: number@, multiplier },
            ReportedSize::Text(text) => SizeView::Text(text@),
        },
{
}

/// What is told of desktop entries is all that they hold.
pub proof fn desktop_entries_are_told_in_full(entry: DesktopApplication, file: DesktopCandidate)
    ensures
        entry@ == (DesktopView { name: entry.name@, path: entry.path@ }),
        file@.path == file.path@,
        file@.depth == file.depth,
        file@.is_file == file.is_file,
        file@.content == match file.content {
            Some(text) => Some(text@),
            None => None,
        },
{
}

} // verus!
