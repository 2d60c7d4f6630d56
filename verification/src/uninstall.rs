//! The applications that can be uninstalled.
//!
//! A catalog asks the package manager of the distribution, and Flatpak, for what
//! is installed. What it finds is pending until the sizes that were reported as
//! text, and the directories of user data, have been measured.

use vstd::prelude::*;
use vstd::string::StringExecFns;

use crate::order::{views, Ranked};
use crate::path::{FilePath, PathView};
use crate::sizes::{ReportedSize, SizeView};
use crate::table::Key;
use crate::text::{
    chars_of, lower, not_after, same_chars, text_le, text_order_is_antisymmetric, text_order_is_total,
    text_order_is_transitive, to_lower,
};

verus! {

/// Where an application comes from.
#[derive(Clone, Copy, Debug, PartialEq, Eq, Hash, Structural)]
pub enum ApplicationSource {
    Pacman,
    Apt,
    Dnf,
    FlatpakUser,
    FlatpakSystem,
}

/// The name of a source, as it is shown.
pub open spec fn source_title(source: ApplicationSource) -> Seq<char> {
    match source {
        ApplicationSource::Pacman => "pacman"@,
        ApplicationSource::Apt => "APT"@,
        ApplicationSource::Dnf => "DNF"@,
        ApplicationSource::FlatpakUser => "Flatpak (user)"@,
        ApplicationSource::FlatpakSystem => "Flatpak (system)"@,
    }
}

/// The name of a source, as identifiers begin with it.
pub open spec fn source_slug(source: ApplicationSource) -> Seq<char> {
    match source {
        ApplicationSource::Pacman => "pacman"@,
        ApplicationSource::Apt => "apt"@,
        ApplicationSource::Dnf => "dnf"@,
        ApplicationSource::FlatpakUser => "flatpak-user"@,
        ApplicationSource::FlatpakSystem => "flatpak-system"@,
    }
}

impl ApplicationSource {
    /// The name to show.
    pub fn title(self) -> (title: &'static str)
        ensures
            title@ == source_title(self),
    {
        match self {
            Self::Pacman => "pacman",
            Self::Apt => "APT",
            Self::Dnf => "DNF",
            Self::FlatpakUser => "Flatpak (user)",
            Self::FlatpakSystem => "Flatpak (system)",
        }
    }

    /// The name that identifiers begin with.
    pub fn slug(self) -> (slug: &'static str)
        ensures
            slug@ == source_slug(self),
    {
        match self {
            Self::Pacman => "pacman",
            Self::Apt => "apt",
            Self::Dnf => "dnf",
            Self::FlatpakUser => "flatpak-user",
            Self::FlatpakSystem => "flatpak-system",
        }
    }

    /// Whether the source is Flatpak, for one user or for the system.
    pub fn is_flatpak(self) -> (yes: bool)
        ensures
            yes == (self is FlatpakUser || self is FlatpakSystem),
    {
        matches!(self, Self::FlatpakUser | Self::FlatpakSystem)
    }
}

/// The identifier of a package from a source.
pub open spec fn application_id(source: ApplicationSource, package: Seq<char>) -> Seq<char> {
    source_slug(source) + ":"@ + package
}

/// An application that can be uninstalled.
#[derive(Clone, Debug, PartialEq, Eq)]
pub struct Application {
    pub id: String,
    pub name: String,
    pub package: String,
    pub version: String,
    pub source: ApplicationSource,
    pub installed_bytes: u64,
    pub user_data_bytes: u64,
    pub desktop_file: Option<FilePath>,
    pub user_data_paths: Vec<FilePath>,
}

/// What is known of an application.
#[verifier::ext_equal]
pub struct ApplicationView {
    pub id: Seq<char>,
    pub name: Seq<char>,
    pub package: Seq<char>,
    pub version: Seq<char>,
    pub source: ApplicationSource,
    pub installed_bytes: u64,
    pub user_data_bytes: u64,
    pub desktop_file: Option<PathView>,
    pub user_data_paths: Seq<PathView>,
}

/// What a path says, where there is one.
pub open spec fn path_option(path: Option<FilePath>) -> Option<PathView> {
    match path {
        Some(p) => Some(p@),
        None => None,
    }
}

impl View for Application {
    type V = ApplicationView;

    open spec fn view(&self) -> ApplicationView {
        ApplicationView {
            id: self.id@,
            name: self.name@,
            package: self.package@,
            version: self.version@,
            source: self.source,
            installed_bytes: self.installed_bytes,
            user_data_bytes: self.user_data_bytes,
            desktop_file: path_option(self.desktop_file),
            user_data_paths: views(self.user_data_paths@),
        }
    }
}

impl Application {
    /// The identifier of a package from a source.
    pub fn new_id(source: ApplicationSource, package: &str) -> (id: String)
        ensures
            id@ == application_id(source, package@),
    {
        let mut id = source.slug().to_owned();
        id.append(":");
        id.append(package);
        id
    }
}

/// The applications of a system.
#[derive(Clone, Debug, PartialEq, Eq)]
pub struct ApplicationReport {
    pub distribution: String,
    pub applications: Vec<Application>,
    pub warnings: Vec<String>,
}

/// What removing an application would do.
#[derive(Clone, Debug, PartialEq, Eq)]
pub struct UninstallPreview {
    pub application_id: String,
    pub command: String,
    pub removals: Vec<String>,
    pub raw: String,
    pub preserves_user_data: bool,
}

/// An application whose size and user data have not been measured yet.
pub struct PendingApplication {
    pub id: String,
    pub name: String,
    pub package: String,
    pub version: String,
    pub source: ApplicationSource,
    pub installed: ReportedSize,
    pub desktop_file: Option<FilePath>,
    pub data_path: Option<FilePath>,
}

/// What is known of a pending application.
#[verifier::ext_equal]
pub struct PendingView {
    pub id: Seq<char>,
    pub name: Seq<char>,
    pub package: Seq<char>,
    pub version: Seq<char>,
    pub source: ApplicationSource,
    pub installed: SizeView,
    pub desktop_file: Option<PathView>,
    pub data_path: Option<PathView>,
}

impl View for PendingApplication {
    type V = PendingView;

    open spec fn view(&self) -> PendingView {
        PendingView {
            id: self.id@,
            name: self.name@,
            package: self.package@,
            version: self.version@,
            source: self.source,
            installed: self.installed@,
            desktop_file: path_option(self.desktop_file),
            data_path: path_option(self.data_path),
        }
    }
}

impl Ranked for PendingApplication {
    /// By name, whatever its case, then by identifier.
    open spec fn in_order(a: PendingView, b: PendingView) -> bool {
        if lower(a.name) == lower(b.name) {
            text_le(a.id, b.id)
        } else {
            text_le(lower(a.name), lower(b.name))
        }
    }

    proof fn order_is_total(a: PendingView, b: PendingView) {
        text_order_is_total(a.id, b.id);
        text_order_is_total(lower(a.name), lower(b.name));
    }

    proof fn order_is_transitive(a: PendingView, b: PendingView, c: PendingView) {
        let (x, y, z) = (lower(a.name), lower(b.name), lower(c.name));
        if x == y && y == z {
            text_order_is_transitive(a.id, b.id, c.id);
        } else if x != y && y != z {
            text_order_is_transitive(x, y, z);
            if x == z {
                text_order_is_antisymmetric(x, y);
            }
        }
    }

    fn may_precede(&self, other: &Self) -> (yes: bool) {
        let a_name = chars_of(self.name.as_str());
        let b_name = chars_of(other.name.as_str());
        let a = to_lower(a_name.as_slice());
        let b = to_lower(b_name.as_slice());
        if same_chars(a.as_slice(), b.as_slice()) {
            let a_id = chars_of(self.id.as_str());
            let b_id = chars_of(other.id.as_str());
            not_after(a_id.as_slice(), b_id.as_slice())
        } else {
            not_after(a.as_slice(), b.as_slice())
        }
    }
}

/// What was measured for a pending application: the bytes of a size that was
/// reported as text, and its directory of user data.
pub struct Measurement {
    pub installed_bytes: u64,
    pub data_exists: bool,
    pub data_bytes: u64,
}

/// The application, once it has been measured. A size that was reported in bytes
/// stands; what has no directory of user data has none.
pub open spec fn completed(pending: PendingView, measured: Measurement) -> ApplicationView {
    ApplicationView {
        id: pending.id,
        name: pending.name,
        package: pending.package,
        version: pending.version,
        source: pending.source,
        installed_bytes: match pending.installed {
            SizeView::Bytes(n) => n,
            _ => measured.installed_bytes,
        },
        user_data_bytes: if pending.data_path is Some {
            measured.data_bytes
        } else {
            0
        },
        desktop_file: pending.desktop_file,
        user_data_paths: match pending.data_path {
            Some(path) => if measured.data_exists {
                seq![path]
            } else {
                Seq::empty()
            },
            None => Seq::empty(),
        },
    }
}

impl PendingApplication {
    /// The application, once it has been measured.
    pub fn complete(self, measured: &Measurement) -> (application: Application)
        ensures
            application@ == completed(self@, *measured),
    {
        let installed_bytes = match self.installed {
            ReportedSize::Bytes(n) => n,
            _ => measured.installed_bytes,
        };
        let mut user_data_bytes: u64 = 0;
        let mut user_data_paths: Vec<FilePath> = Vec::new();
        if let Some(path) = self.data_path {
            user_data_bytes = measured.data_bytes;
            if measured.data_exists {
                user_data_paths.push(path);
            }
        }
        assert(views(user_data_paths@) =~= completed(self@, *measured).user_data_paths);
        Application {
            id: self.id,
            name: self.name,
            package: self.package,
            version: self.version,
            source: self.source,
            installed_bytes,
            user_data_bytes,
            desktop_file: self.desktop_file,
            user_data_paths,
        }
    }
}

} // verus!
