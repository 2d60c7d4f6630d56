//! What can be cleaned up, and how.

use vstd::prelude::*;

use crate::command::CommandView;
use crate::order::views;
use crate::path::{FilePath, PathView};

verus! {

/// The parts of a system that items belong to.
#[derive(Clone, Copy, Debug, PartialEq, Eq, Hash, Structural)]
pub enum CleanupGroup {
    System,
    User,
    Dev,
    Containers,
}

impl View for CleanupGroup {
    type V = CleanupGroup;

    open spec fn view(&self) -> CleanupGroup {
        *self
    }
}

/// The name of a group, as it is shown.
pub open spec fn group_title(group: CleanupGroup) -> Seq<char> {
    match group {
        CleanupGroup::System => "System"@,
        CleanupGroup::User => "User"@,
        CleanupGroup::Dev => "Developer"@,
        CleanupGroup::Containers => "Containers"@,
    }
}

impl CleanupGroup {
    /// The name to show.
    pub fn title(self) -> (title: &'static str)
        ensures
            title@ == group_title(self),
    {
        match self {
            Self::System => "System",
            Self::User => "User",
            Self::Dev => "Developer",
            Self::Containers => "Containers",
        }
    }
}

/// What a cleanup puts at risk: nothing of value, the system, or what only its
/// owner can judge.
#[derive(Clone, Copy, Debug, PartialEq, Eq, Structural)]
pub enum Risk {
    Low,
    Elevated,
    Explicit,
}

/// A command to run.
#[derive(Clone, Debug, PartialEq, Eq)]
pub struct CommandSpec {
    pub program: String,
    pub args: Vec<String>,
    pub requires_root: bool,
}

impl View for CommandSpec {
    type V = CommandView;

    open spec fn view(&self) -> CommandView {
        CommandView { program: self.program@, args: views(self.args@), requires_root: self.requires_root }
    }
}

/// How an item is cleaned up.
#[derive(Clone, Debug, PartialEq, Eq)]
pub enum CleanupAction {
    Command { program: String, args: Vec<String>, requires_root: bool },
    CommandSequence { commands: Vec<CommandSpec> },
    RemovePath { path: FilePath, contents_only: bool },
    RemovePersonalFile { path: FilePath },
}

/// What an action does.
#[verifier::ext_equal]
pub enum ActionView {
    Command { program: Seq<char>, args: Seq<Seq<char>>, requires_root: bool },
    CommandSequence { commands: Seq<CommandView> },
    RemovePath { path: PathView, contents_only: bool },
    RemovePersonalFile { path: PathView },
}

impl View for CleanupAction {
    type V = ActionView;

    open spec fn view(&self) -> ActionView {
        match *self {
            CleanupAction::Command { program, args, requires_root } => ActionView::Command {
                program: program@,
                args: views(args@),
                requires_root,
            },
            CleanupAction::CommandSequence { commands } => ActionView::CommandSequence {
                commands: views(commands@),
            },
            CleanupAction::RemovePath { path, contents_only } => ActionView::RemovePath {
                path: path@,
                contents_only,
            },
            CleanupAction::RemovePersonalFile { path } => ActionView::RemovePersonalFile { path: path@ },
        }
    }
}

/// Something that can be cleaned up.
#[derive(Clone, Debug, PartialEq, Eq)]
pub struct CleanupItem {
    pub id: String,
    pub group: CleanupGroup,
    pub label: String,
    pub estimated_bytes: u64,
    pub risk: Risk,
    pub action: CleanupAction,
}

/// What is known of an item.
#[verifier::ext_equal]
pub struct ItemView {
    pub id: Seq<char>,
    pub group: CleanupGroup,
    pub label: Seq<char>,
    pub estimated_bytes: u64,
    pub risk: Risk,
    pub action: ActionView,
}

impl View for CleanupItem {
    type V = ItemView;

    open spec fn view(&self) -> ItemView {
        ItemView {
            id: self.id@,
            group: self.group,
            label: self.label@,
            estimated_bytes: self.estimated_bytes,
            risk: self.risk,
            action: self.action@,
        }
    }
}

/// What a scan of a system found.
#[derive(Clone, Debug, PartialEq, Eq)]
pub struct ScanReport {
    pub distribution: String,
    pub items: Vec<CleanupItem>,
    pub warnings: Vec<String>,
}

/// What a report says.
#[verifier::ext_equal]
pub struct ScanView {
    pub distribution: Seq<char>,
    pub items: Seq<ItemView>,
    pub warnings: Seq<Seq<char>>,
}

impl View for ScanReport {
    type V = ScanView;

    open spec fn view(&self) -> ScanView {
        ScanView { distribution: self.distribution@, items: views(self.items@), warnings: views(self.warnings@) }
    }
}

impl ScanReport {
    /// The report of these items and warnings.
    pub fn from_items(distribution: String, items: Vec<CleanupItem>, warnings: Vec<String>) -> (report: ScanReport)
        ensures
            report == (ScanReport { distribution, items, warnings }),
    {
        ScanReport { distribution, items, warnings }
    }
}

} // verus!
