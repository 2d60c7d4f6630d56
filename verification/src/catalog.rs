//! The catalog of the applications of a system.

use vstd::prelude::*;
use vstd::string::StringExecFns;

use crate::answers::{
    allowed, answered, batch_owners, candidate_packages, candidates_after, completed_all, detail_answered, detail_due,
    detail_question, details_after, details_answered, details_asked, details_of, details_question, explicit_packages,
    explicit_question, flatpak_applications, flatpak_lines, flatpak_pending, flatpak_question, flatpak_warnings,
    found_applications, native_answered, native_application, native_applications, native_asked, native_candidates,
    native_source, native_warnings, nonempty_text, only_asks, owner_answered, owner_due, owner_of, owner_question,
    owners_after, owners_answered, owners_asked, owners_known, owners_of, owners_question, package_details,
    packages_listed, path_texts, replied, report_of, unsupported_warning, without_repeats, CandidateView,
    DetailReplies, NativeReplies, OwnerReplies, PendingReportView, Replies,
};
use crate::command::{printed_text, reply_view, settle, CommandRunner, Query, ReplyView};
use crate::desktop::{DesktopApplication, DesktopView};
use crate::distro::{Distribution, DistroFamily};
use crate::listings::{
    parse_owner, parse_owner_listing, parse_package_listing, parse_pacman_detail_map, parse_pacman_details,
    parse_tab_detail_map, parse_tab_details, Details,
};
use crate::order::{sort, views};
use crate::packages::{is_identifier, is_protected_package};
use crate::path::{path_of, FilePath, PathView};
use crate::sizes::{read_size, ReportedSize};
use crate::table::{Key, Table};
use crate::text::{chars_of, lines, lines_of, same_ignoring_case, slices, split, string_of, trim};
use crate::uninstall::{Application, ApplicationReport, ApplicationSource, Measurement, PendingApplication};

verus! {

fn explicit_query(source: ApplicationSource) -> (query: Option<Query>)
    ensures
        match query {
            Some(q) => explicit_question(source) == Some(q@),
            None => explicit_question(source) is None,
        },
{
    let query = match source {
        ApplicationSource::Pacman => Query::new("pacman").arg("-Qqe"),
        ApplicationSource::Apt => Query::new("apt-mark").arg("showmanual"),
        ApplicationSource::Dnf => Query::new("dnf").arg("repoquery").arg("--installed").arg("--userinstalled").arg(
            "--qf",
        ).arg("%{name}"),
        _ => return None,
    };
    assert(query@ =~= explicit_question(source)->0);
    Some(query)
}

fn owner_query(source: ApplicationSource, path: &FilePath) -> (query: Option<Query>)
    ensures
        match query {
            Some(q) => owner_question(source, path@) == Some(q@),
            None => owner_question(source, path@) is None,
        },
{
    let text = path.display();
    let query = match source {
        ApplicationSource::Pacman => Query::new("pacman").arg("-Qqo").arg(text.as_str()),
        ApplicationSource::Apt => Query::new("dpkg-query").arg("-S").arg(text.as_str()),
        ApplicationSource::Dnf => Query::new("rpm").arg("-qf").arg("--qf").arg("%{NAME}\n").arg(text.as_str()),
        _ => return None,
    };
    assert(query@ =~= owner_question(source, path@)->0);
    Some(query)
}

/// The applications of a system, before they are measured.
pub struct PendingReport {
    pub distribution: String,
    pub applications: Vec<PendingApplication>,
    pub warnings: Vec<String>,
}

impl View for PendingReport {
    type V = PendingReportView;

    open spec fn view(&self) -> PendingReportView {
        PendingReportView {
            distribution: self.distribution@,
            applications: views(self.applications@),
            warnings: views(self.warnings@),
        }
    }
}

/// `query` with all of `values` behind its arguments.
fn with_args(query: Query, values: &Vec<String>) -> (out: Query)
    ensures
        out@.program == query@.program,
        out@.args == query@.args + views(values@),
        out@.requires_root == query@.requires_root,
{
    let mut out = query;
    let ghost all = views(values@);
    assert(out@.args =~= query@.args + all.take(0));
    for i in 0..values.len()
        invariant
            all == views(values@),
            out@.program == query@.program,
            out@.args == query@.args + all.take(i as int),
            out@.requires_root == query@.requires_root,
    {
        let ghost before = out@.args;
        out = out.arg(values[i].as_str());
        assert(out@.args =~= query@.args + all.take(i + 1));
    }
    assert(all.take(all.len() as int) =~= all);
    out
}

fn written_paths(entries: &Vec<DesktopApplication>) -> (texts: Vec<String>)
    ensures
        views(texts@) == path_texts(views(entries@)),
{
    let mut texts: Vec<String> = Vec::new();
    let ghost all = path_texts(views(entries@));
    assert(views(texts@) =~= all.take(0));
    for i in 0..entries.len()
        invariant
            all == path_texts(views(entries@)),
            views(texts@) == all.take(i as int),
    {
        let ghost before = views(texts@);
        let text = entries[i].path.display();
        texts.push(text);
        assert(views(texts@) =~= before.push(text@));
        assert(views(texts@) =~= all.take(i + 1));
    }
    assert(all.take(all.len() as int) =~= all);
    texts
}

fn owners_query(source: ApplicationSource, entries: &Vec<DesktopApplication>) -> (query: Option<Query>)
    ensures
        match query {
            Some(q) => owners_question(source, views(entries@)) == Some(q@),
            None => owners_question(source, views(entries@)) is None,
        },
{
    let base = match source {
        ApplicationSource::Pacman => Query::new("pacman").arg("-Qo"),
        ApplicationSource::Apt => Query::new("dpkg-query").arg("-S"),
        _ => return None,
    };
    let query = with_args(base, &written_paths(entries));
    assert(query@ =~= owners_question(source, views(entries@))->0);
    Some(query)
}

fn details_query(source: ApplicationSource, packages: &Vec<String>) -> (query: Option<Query>)
    ensures
        match query {
            Some(q) => details_question(source, views(packages@)) == Some(q@),
            None => details_question(source, views(packages@)) is None,
        },
{
    let base = match source {
        ApplicationSource::Pacman => Query::new("pacman").arg("-Qi").arg("--"),
        ApplicationSource::Apt => Query::new("dpkg-query").arg("-W").arg(
            "-f=${Package}\t${Version}\t${Installed-Size}\n",
        ),
        ApplicationSource::Dnf => Query::new("rpm").arg("-q").arg("--qf").arg(
            "%{NAME}\t%{VERSION}-%{RELEASE}\t%{SIZE}\n",
        ),
        _ => return None,
    };
    let query = with_args(base, packages);
    assert(query@ =~= details_question(source, views(packages@))->0);
    Some(query)
}

fn detail_query(source: ApplicationSource, package: &String) -> (query: Option<Query>)
    ensures
        match query {
            Some(q) => detail_question(source, package@) == Some(q@),
            None => detail_question(source, package@) is None,
        },
{
    let query = match source {
        ApplicationSource::Pacman => Query::new("pacman").arg("-Qi").arg("--").arg(package.as_str()),
        ApplicationSource::Apt => Query::new("dpkg-query").arg("-W").arg("-f=${Version}\t${Installed-Size}\n").arg(
            package.as_str(),
        ),
        ApplicationSource::Dnf => Query::new("rpm").arg("-q").arg("--qf").arg(
            "%{VERSION}-%{RELEASE}\t%{SIZE}\n",
        ).arg(package.as_str()),
        _ => return None,
    };
    assert(query@ =~= detail_question(source, package@)->0);
    Some(query)
}

fn flatpak_query() -> (query: Query)
    ensures
        query@ == flatpak_question(),
{
    let query = Query::new("flatpak").arg("list").arg("--app").arg(
        "--columns=application,name,version,size,installation",
    );
    assert(query@ =~= flatpak_question());
    query
}

/// `value` trimmed, or `fallback` where nothing is left.
pub fn nonempty(value: &[char], fallback: &str) -> (text: String)
    ensures
        text@ == nonempty_text(value@, fallback@),
{
    let value = trim(value);
    if value.len() == 0 {
        fallback.to_owned()
    } else {
        string_of(value)
    }
}

/// The application that a line of `flatpak list` describes, by its columns.
pub fn flatpak_application(home: &FilePath, columns: &Vec<&[char]>) -> (application: PendingApplication)
    requires
        columns@.len() >= 5,
    ensures
        application@ == flatpak_pending(home@, slices(columns@)),
{
    let ghost words = slices(columns@);
    assert(words[0] == columns@[0]@);
    assert(words[1] == columns@[1]@);
    assert(words[2] == columns@[2]@);
    assert(words[3] == columns@[3]@);
    assert(words[4] == columns@[4]@);
    let source = if same_ignoring_case(trim(columns[4]), "user") {
        ApplicationSource::FlatpakUser
    } else {
        ApplicationSource::FlatpakSystem
    };
    let package = string_of(trim(columns[0]));
    let apps = home.join(&FilePath::from_text(".var/app"));
    let data_path = apps.join(&FilePath::from_text(package.as_str()));
    PendingApplication {
        id: Application::new_id(source, package.as_str()),
        name: nonempty(columns[1], package.as_str()),
        package,
        version: nonempty(columns[2], "unknown"),
        source,
        installed: read_size(columns[3]),
        desktop_file: None,
        data_path: Some(data_path),
    }
}

/// Reads the applications that `flatpak list` prints.
pub fn parse_flatpak_listing(home: &FilePath, stdout: &str) -> (applications: Vec<PendingApplication>)
    ensures
        views(applications@) == flatpak_lines(home@, lines_of(stdout@)),
{
    let chars = chars_of(stdout);
    let listing = lines(chars.as_slice());
    let mut applications: Vec<PendingApplication> = Vec::new();
    let ghost all = slices(listing@);
    proof {
        reveal_strlit("\t");
    }
    assert(views(applications@) =~= flatpak_lines(home@, all.take(0)));
    for i in 0..listing.len()
        invariant
            "\t"@.len() > 0,
            all == slices(listing@),
            views(applications@) == flatpak_lines(home@, all.take(i as int)),
    {
        let ghost done = views(applications@);
        proof {
            assert(all.take(i + 1).drop_last() =~= all.take(i as int));
            assert(all.take(i + 1).last() == listing@[i as int]@);
        }
        if trim(listing[i]).len() > 0 {
            let columns = split(listing[i], "\t");
            assert(slices(columns@)[0] == columns@[0]@);
            if columns.len() >= 5 && is_identifier(columns[0]) {
                let application = flatpak_application(home, &columns);
                applications.push(application);
                assert(views(applications@) =~= done.push(application@));
            }
        }
    }
    assert(all.take(all.len() as int) =~= all);
    applications
}

/// Whether `texts` holds `text`.
fn holds(texts: &Vec<String>, text: &String) -> (yes: bool)
    ensures
        yes == views(texts@).contains(text@),
{
    for i in 0..texts.len()
        invariant
            forall|j: int| 0 <= j < i ==> (#[trigger] texts@[j])@ != text@,
    {
        if texts[i].same_key(text) {
            assert(views(texts@)[i as int] == text@);
            return true;
        }
    }
    assert forall|j: int| 0 <= j < views(texts@).len() implies views(texts@)[j] != text@ by {
        assert(views(texts@)[j] == texts@[j]@);
    }
    false
}

/// Removes the applications that have the identifier of the one before.
fn drop_repeats(applications: Vec<PendingApplication>) -> (out: Vec<PendingApplication>)
    ensures
        views(out@) == without_repeats(views(applications@)),
{
    let ghost all = views(applications@);
    let mut out: Vec<PendingApplication> = Vec::new();
    assert(views(out@) =~= without_repeats(all.take(0)));
    for application in iter: applications
        invariant
            all == views(applications@),
            iter.seq() == applications@,
            views(out@) == without_repeats(all.take(iter.index() as int)),
    {
        let ghost i = iter.index() as int;
        let ghost done = views(out@);
        proof {
            assert(all.take(i + 1).drop_last() =~= all.take(i));
            assert(all.take(i + 1).last() == application@);
        }
        let count = out.len();
        if count > 0 {
            assert(done.last() == out@[count - 1]@);
        }
        if count == 0 || !out[count - 1].id.same_key(&application.id) {
            out.push(application);
            assert(views(out@) =~= done.push(application@));
        }
    }
    assert(all.take(all.len() as int) =~= all);
    out
}

/// The catalog of the applications of a system, which asks the package managers
/// through a runner.
pub struct ApplicationCatalog<R> {
    distro: Distribution,
    home: FilePath,
    desktop_dirs: Vec<FilePath>,
    runner: R,
}

impl<R> ApplicationCatalog<R> {
    /// The family of the distribution.
    pub closed spec fn family(&self) -> DistroFamily {
        self.distro.family
    }

    /// The name of the distribution.
    pub closed spec fn distribution_name(&self) -> Seq<char> {
        self.distro.name@
    }

    /// The home directory of the user.
    pub closed spec fn home_path(&self) -> PathView {
        self.home@
    }

    /// The directories of desktop entries.
    pub closed spec fn directories(&self) -> Seq<PathView> {
        views(self.desktop_dirs@)
    }

    /// The runner that questions are put to.
    pub closed spec fn asked_runner(&self) -> R {
        self.runner
    }
}

/// The directories of desktop entries on a usual system: of the distribution, of
/// the administrator, and of the user.
pub fn default_desktop_dirs(home: &FilePath) -> (directories: Vec<FilePath>)
    ensures
        views(directories@) == seq![
            path_of("/usr/share/applications"@),
            path_of("/usr/local/share/applications"@),
            home@.join(path_of(".local/share/applications"@)),
        ],
{
    let mut directories: Vec<FilePath> = Vec::new();
    directories.push(FilePath::from_text("/usr/share/applications"));
    directories.push(FilePath::from_text("/usr/local/share/applications"));
    directories.push(home.join(&FilePath::from_text(".local/share/applications")));
    assert(views(directories@) =~= seq![
        path_of("/usr/share/applications"@),
        path_of("/usr/local/share/applications"@),
        home@.join(path_of(".local/share/applications"@)),
    ]);
    directories
}

impl<R: CommandRunner> ApplicationCatalog<R> {
    /// A catalog that asks through `runner`.
    pub fn with_runner(home: FilePath, distro: Distribution, desktop_dirs: Vec<FilePath>, runner: R) -> (catalog: Self)
        ensures
            catalog.family() == distro.family,
            catalog.distribution_name() == distro.name@,
            catalog.home_path() == home@,
            catalog.directories() == views(desktop_dirs@),
            catalog.asked_runner() == runner,
    {
        ApplicationCatalog { distro, home, desktop_dirs, runner }
    }

    /// The directories in which desktop entries are to be looked for.
    pub fn desktop_dirs(&self) -> (directories: &Vec<FilePath>)
        ensures
            views(directories@) == self.directories(),
    {
        &self.desktop_dirs
    }

    /// Asks for the applications of the system, going by the desktop entries that
    /// were found.
    pub fn discover(&self, desktop_entries: &Vec<DesktopApplication>) -> (report: PendingReport)
        requires
            only_asks(self.asked_runner(), self.family(), views(desktop_entries@)),
        ensures
            exists|replies: Replies|
                #![trigger answered(self.asked_runner(), self.family(), views(desktop_entries@), replies)]
                {
                    &&& answered(self.asked_runner(), self.family(), views(desktop_entries@), replies)
                    &&& report@ == report_of(
                        self.family(),
                        self.distribution_name(),
                        self.home_path(),
                        views(desktop_entries@),
                        replies,
                    )
                },
    {
        let mut applications: Vec<PendingApplication> = Vec::new();
        let mut warnings: Vec<String> = Vec::new();
        let ghost entries = views(desktop_entries@);
        assert(views(applications@) =~= Seq::empty());
        assert(views(warnings@) =~= Seq::empty());
        let source = match self.distro.family {
            DistroFamily::Arch => Some(ApplicationSource::Pacman),
            DistroFamily::Debian => Some(ApplicationSource::Apt),
            DistroFamily::Fedora => Some(ApplicationSource::Dnf),
            DistroFamily::Unsupported => None,
        };
        assert(source == native_source(self.family()));
        let ghost mut native: NativeReplies = unasked_native();
        match source {
            Some(source) => {
                let Ghost(replies) = self.discover_native(source, desktop_entries, &mut applications, &mut warnings);
                proof {
                    native = replies;
                    assert(views(applications@) =~= native_applications(source, entries, native));
                    assert(views(warnings@) =~= native_warnings(source, native));
                }
            },
            None => {
                let mut warning = self.distro.name.clone();
                warning.append(
                    " does not have a native package uninstall provider; Flatpak applications are still available",
                );
                let ghost before = views(warnings@);
                warnings.push(warning);
                assert(views(warnings@) =~= before.push(warning@));
                assert(views(warnings@) =~= seq![unsupported_warning(self.distribution_name())]);
            },
        }
        let Ghost(flatpak) = self.discover_flatpaks(&mut applications, &mut warnings);
        let ghost replies = Replies { native, flatpak };
        let ghost found = views(applications@);
        assert(found =~= found_applications(self.family(), self.home_path(), entries, replies));
        let applications = drop_repeats(sort(applications));
        assert(answered(self.asked_runner(), self.family(), entries, replies));
        PendingReport { distribution: self.distro.name.clone(), applications, warnings }
    }

    /// Adds the applications of a native package manager.
    fn discover_native(
        &self,
        source: ApplicationSource,
        desktop_entries: &Vec<DesktopApplication>,
        applications: &mut Vec<PendingApplication>,
        warnings: &mut Vec<String>,
    ) -> (replies: Ghost<NativeReplies>)
        requires
            native_asked(self.asked_runner(), source, views(desktop_entries@)),
        ensures
            native_answered(self.asked_runner(), source, views(desktop_entries@), replies@),
            views(final(applications)@) == views(old(applications)@) + native_applications(
                source,
                views(desktop_entries@),
                replies@,
            ),
            views(final(warnings)@) == views(old(warnings)@) + native_warnings(source, replies@),
    {
        let ghost entries = views(desktop_entries@);
        let ghost mut replies: NativeReplies = unasked_native();
        let (listed, Ghost(explicit_reply)) = self.explicit_packages(source);
        proof {
            replies = NativeReplies { explicit: explicit_reply, ..replies };
        }
        let explicit = match listed {
            Ok(packages) => packages,
            Err(reason) => {
                let mut warning = "failed to list explicitly installed packages: ".to_owned();
                warning.append(reason.as_str());
                warnings.push(warning);
                assert(views(warnings@) =~= views(old(warnings)@).push(warning@));
                assert(views(warnings@) =~= views(old(warnings)@) + native_warnings(source, replies));
                assert(views(applications@) =~= views(old(applications)@) + native_applications(
                    source,
                    entries,
                    replies,
                ));
                return Ghost(replies);
            },
        };
        assert(packages_listed(self.asked_runner(), source, replies.explicit));
        let (owners, Ghost(owner_replies)) = self.owners_of(source, desktop_entries);
        proof {
            replies = NativeReplies { owners: owner_replies, ..replies };
        }
        let mut chosen: Vec<usize> = Vec::new();
        let mut packages: Vec<String> = Vec::new();
        let ghost names = views(explicit@);
        let ghost candidates = candidates_after(entries, owners@, names, 0);
        assert(views(packages@) =~= candidate_packages(candidates));
        for i in 0..desktop_entries.len()
            invariant
                entries == views(desktop_entries@),
                names == views(explicit@),
                candidates == candidates_after(entries, owners@, names, i as nat),
                views(packages@) == candidate_packages(candidates),
                chosen@.len() == candidates.len(),
                forall|k: int|
                    0 <= k < chosen@.len() ==> (#[trigger] chosen@[k]) < entries.len() && entries[chosen@[k] as int]
                        == candidates[k].entry,
        {
            let desktop = &desktop_entries[i];
            assert(entries[i as int] == desktop@);
            let ghost before = candidates;
            let ghost before_packages = views(packages@);
            proof {
                candidates = candidates_after(entries, owners@, names, (i + 1) as nat);
            }
            if let Some(package) = owners.get(&desktop.path) {
                if holds(&explicit, package) && !is_protected_package(package.as_str()) && !holds(&packages, package) {
                    chosen.push(i);
                    packages.push(package.clone());
                    assert(candidates == before.push(CandidateView { entry: desktop@, package: package@ }));
                    assert(views(packages@) =~= before_packages.push(package@));
                    assert(candidate_packages(candidates) =~= candidate_packages(before).push(package@));
                }
            }
        }
        assert(candidates == native_candidates(source, entries, replies));
        assert(owners_known(self.asked_runner(), source, entries, replies));
        let (details, Ghost(detail_replies)) = self.package_details_many(source, &packages);
        proof {
            replies = NativeReplies { details: detail_replies, ..replies };
            assert(candidates == native_candidates(source, entries, replies));
        }
        let ghost found = native_applications(source, entries, replies);
        assert(views(applications@) =~= views(old(applications)@) + found.take(0));
        for k in 0..packages.len()
            invariant
                entries == views(desktop_entries@),
                views(packages@) == candidate_packages(candidates),
                chosen@.len() == candidates.len(),
                forall|k: int|
                    0 <= k < chosen@.len() ==> (#[trigger] chosen@[k]) < entries.len() && entries[chosen@[k] as int]
                        == candidates[k].entry,
                found == Seq::new(candidates.len(), |i: int| native_application(source, candidates[i], details@)),
                views(applications@) == views(old(applications)@) + found.take(k as int),
        {
            assert(views(packages@)[k as int] == packages@[k as int]@);
            assert(views(packages@).len() == candidate_packages(candidates).len());
            let desktop = &desktop_entries[chosen[k]];
            assert(entries[chosen@[k as int] as int] == desktop@);
            let package = packages[k].clone();
            let (version, installed) = match details.get(&package) {
                Some(known) => (known.0.clone(), known.1.copied()),
                None => ("unknown".to_owned(), ReportedSize::Bytes(0)),
            };
            let application = PendingApplication {
                id: Application::new_id(source, package.as_str()),
                name: desktop.name.clone(),
                package,
                version,
                source,
                installed,
                desktop_file: Some(desktop.path.clone()),
                data_path: None,
            };
            let ghost before = views(applications@);
            assert(application@ == found[k as int]);
            applications.push(application);
            assert(views(applications@) =~= before.push(application@));
            assert(views(applications@) =~= views(old(applications)@) + found.take(k + 1));
        }
        assert(found.take(found.len() as int) =~= found);
        assert(views(warnings@) =~= views(old(warnings)@) + native_warnings(source, replies));
        Ghost(replies)
    }

    /// Asks for the packages that were installed on purpose.
    fn explicit_packages(&self, source: ApplicationSource) -> (listed: (Result<Vec<String>, String>, Ghost<ReplyView>))
        requires
            allowed(self.asked_runner(), explicit_question(source)),
        ensures
            replied(self.asked_runner(), explicit_question(source), listed.1@),
            match listed.0 {
                Ok(packages) => explicit_packages(source, listed.1@) == Ok::<Seq<Seq<char>>, Seq<char>>(
                    views(packages@),
                ),
                Err(reason) => explicit_packages(source, listed.1@) == Err::<Seq<Seq<char>>, Seq<char>>(reason@),
            },
    {
        let query = match explicit_query(source) {
            Some(query) => query,
            None => {
                let none: Vec<String> = Vec::new();
                assert(views(none@) =~= Seq::empty());
                return (Ok(none), Ghost(unasked()));
            },
        };
        let reply = query.ask(&self.runner);
        let ghost heard = reply_view(reply);
        match settle(&query, reply) {
            Ok(text) => (Ok(parse_package_listing(text.as_str())), Ghost(heard)),
            Err(reason) => (Err(reason), Ghost(heard)),
        }
    }

    /// Asks for the packages that own desktop entries.
    fn owners_of(&self, source: ApplicationSource, desktop_entries: &Vec<DesktopApplication>) -> (known: (
        Table<FilePath, String>,
        Ghost<OwnerReplies>,
    ))
        requires
            owners_asked(self.asked_runner(), source, views(desktop_entries@)),
        ensures
            owners_answered(self.asked_runner(), source, views(desktop_entries@), known.1@),
            known.0@ == owners_of(source, views(desktop_entries@), known.1@),
    {
        let ghost entries = views(desktop_entries@);
        let mut owners: Table<FilePath, String> = Table::new();
        let ghost mut batch = unasked();
        if desktop_entries.len() == 0 {
            let ghost replies = OwnerReplies { batch, single: Seq::empty() };
            return (owners, Ghost(replies));
        }
        if let Some(query) = owners_query(source, desktop_entries) {
            let reply = query.ask(&self.runner);
            proof {
                batch = reply_view(reply);
            }
            if let Some(text) = printed_text(reply) {
                owners = parse_owner_listing(text.as_str(), source == ApplicationSource::Pacman);
            }
        }
        let ghost mut single = Seq::new(entries.len(), |i: int| unasked());
        let ghost start = OwnerReplies { batch, single };
        assert(owners@ == batch_owners(source, entries, start));
        assert(owners@ == owners_after(source, entries, start, 0));
        for i in 0..desktop_entries.len()
            invariant
                entries == views(desktop_entries@),
                entries.len() > 0,
                single.len() == entries.len(),
                owners_asked(self.asked_runner(), source, entries),
                replied(self.asked_runner(), owners_question(source, entries), batch),
                owners@ == owners_after(source, entries, (OwnerReplies { batch, single }), i as nat),
                forall|k: int|
                    0 <= k < i ==> #[trigger] owner_answered(
                        self.asked_runner(),
                        source,
                        entries,
                        (OwnerReplies { batch, single }),
                        k,
                    ),
        {
            let entry = &desktop_entries[i];
            assert(entries[i as int] == entry@);
            let ghost before = OwnerReplies { batch, single };
            if !owners.contains(&entry.path) {
                assert(owner_due(self.asked_runner(), source, entries, before, i as int));
                let (owner, Ghost(reply)) = self.owner_of(source, &entry.path);
                proof {
                    single = single.update(i as int, reply);
                    let after = OwnerReplies { batch, single };
                    lemma_owners_prefix(source, entries, before, after, i as nat);
                    assert forall|k: int| 0 <= k <= i implies #[trigger] owner_answered(
                        self.asked_runner(),
                        source,
                        entries,
                        after,
                        k,
                    ) by {
                        if k < i {
                            lemma_owners_prefix(source, entries, before, after, k as nat);
                            assert(owner_answered(self.asked_runner(), source, entries, before, k));
                        }
                    }
                }
                if let Some(package) = owner {
                    owners.insert(entry.path.clone(), package);
                }
            }
        }
        let ghost replies = OwnerReplies { batch, single };
        (owners, Ghost(replies))
    }

    /// Asks for the package that owns one file.
    fn owner_of(&self, source: ApplicationSource, path: &FilePath) -> (known: (Option<String>, Ghost<ReplyView>))
        requires
            allowed(self.asked_runner(), owner_question(source, path@)),
        ensures
            replied(self.asked_runner(), owner_question(source, path@), known.1@),
            match known.0 {
                Some(package) => owner_of(source, path@, known.1@) == Some(package@),
                None => owner_of(source, path@, known.1@) is None,
            },
    {
        let query = match owner_query(source, path) {
            Some(query) => query,
            None => return (None, Ghost(unasked())),
        };
        let reply = query.ask(&self.runner);
        let ghost heard = reply_view(reply);
        match settle(&query, reply) {
            Ok(text) => (parse_owner(text.as_str(), source == ApplicationSource::Apt), Ghost(heard)),
            Err(_) => (None, Ghost(heard)),
        }
    }

    /// Asks for the details of one package.
    fn package_details(&self, source: ApplicationSource, package: &String) -> (known: (
        Option<Details>,
        Ghost<ReplyView>,
    ))
        requires
            allowed(self.asked_runner(), detail_question(source, package@)),
        ensures
            replied(self.asked_runner(), detail_question(source, package@), known.1@),
            match known.0 {
                Some(details) => package_details(source, package@, known.1@) == Some(details@),
                None => package_details(source, package@, known.1@) is None,
            },
    {
        let query = match detail_query(source, package) {
            Some(query) => query,
            None => return (Some(("unknown".to_owned(), ReportedSize::Bytes(0))), Ghost(unasked())),
        };
        let reply = query.ask(&self.runner);
        let ghost heard = reply_view(reply);
        match settle(&query, reply) {
            Ok(text) => {
                let details = match source {
                    ApplicationSource::Pacman => parse_pacman_details(text.as_str()),
                    ApplicationSource::Apt => parse_tab_details(text.as_str(), 1024),
                    _ => parse_tab_details(text.as_str(), 1),
                };
                (Some(details), Ghost(heard))
            },
            Err(_) => (None, Ghost(heard)),
        }
    }

    /// Asks for the details of packages.
    fn package_details_many(&self, source: ApplicationSource, packages: &Vec<String>) -> (known: (
        Table<String, Details>,
        Ghost<DetailReplies>,
    ))
        requires
            details_asked(self.asked_runner(), source, views(packages@)),
        ensures
            details_answered(self.asked_runner(), source, views(packages@), known.1@),
            known.0@ == details_of(source, views(packages@), known.1@),
    {
        let ghost names = views(packages@);
        let mut details: Table<String, Details> = Table::new();
        let ghost nothing = DetailReplies { batch: unasked(), single: Seq::empty() };
        if packages.len() == 0 {
            return (details, Ghost(nothing));
        }
        let query = match details_query(source, packages) {
            Some(query) => query,
            None => return (details, Ghost(nothing)),
        };
        let reply = query.ask(&self.runner);
        let ghost batch = reply_view(reply);
        if let Ok(text) = settle(&query, reply) {
            details = match source {
                ApplicationSource::Pacman => parse_pacman_detail_map(text.as_str()),
                ApplicationSource::Apt => parse_tab_detail_map(text.as_str(), 1024),
                ApplicationSource::Dnf => parse_tab_detail_map(text.as_str(), 1),
                _ => Table::new(),
            };
        }
        let ghost mut single = Seq::new(names.len(), |i: int| unasked());
        assert(details@ == details_after(source, names, DetailReplies { batch, single }, 0));
        for i in 0..packages.len()
            invariant
                names == views(packages@),
                single.len() == names.len(),
                details_question(source, names) is Some,
                replied(self.asked_runner(), details_question(source, names), batch),
                details_asked(self.asked_runner(), source, names),
                details@ == details_after(source, names, (DetailReplies { batch, single }), i as nat),
                forall|k: int|
                    0 <= k < i ==> #[trigger] detail_answered(
                        self.asked_runner(),
                        source,
                        names,
                        (DetailReplies { batch, single }),
                        k,
                    ),
        {
            let package = &packages[i];
            assert(names[i as int] == package@);
            let ghost before = DetailReplies { batch, single };
            if !details.contains(package) {
                assert(detail_due(self.asked_runner(), source, names, before, i as int));
                let (known, Ghost(reply)) = self.package_details(source, package);
                proof {
                    single = single.update(i as int, reply);
                    let after = DetailReplies { batch, single };
                    lemma_details_prefix(source, names, before, after, i as nat);
                    assert forall|k: int| 0 <= k <= i implies #[trigger] detail_answered(
                        self.asked_runner(),
                        source,
                        names,
                        after,
                        k,
                    ) by {
                        if k < i {
                            lemma_details_prefix(source, names, before, after, k as nat);
                            assert(detail_answered(self.asked_runner(), source, names, before, k));
                        }
                    }
                }
                if let Some(value) = known {
                    details.insert(package.clone(), value);
                }
            }
        }
        let ghost replies = DetailReplies { batch, single };
        (details, Ghost(replies))
    }

    /// Adds the applications of Flatpak.
    fn discover_flatpaks(&self, applications: &mut Vec<PendingApplication>, warnings: &mut Vec<String>) -> (reply:
        Ghost<ReplyView>)
        requires
            self.asked_runner().may_run(flatpak_question()),
        ensures
            self.asked_runner().may_reply(flatpak_question(), reply@),
            views(final(applications)@) == views(old(applications)@) + flatpak_applications(self.home_path(), reply@),
            views(final(warnings)@) == views(old(warnings)@) + flatpak_warnings(reply@),
    {
        let query = flatpak_query();
        let reply = query.ask(&self.runner);
        let ghost heard = reply_view(reply);
        match settle(&query, reply) {
            Ok(text) => {
                let mut found = parse_flatpak_listing(&self.home, text.as_str());
                let ghost more = found@;
                applications.append(&mut found);
                assert(views(applications@) =~= views(old(applications)@) + views(more));
                assert(views(warnings@) =~= views(old(warnings)@) + flatpak_warnings(heard));
            },
            Err(reason) => {
                let mut warning = "failed to list Flatpak applications: ".to_owned();
                warning.append(reason.as_str());
                warnings.push(warning);
                assert(views(warnings@) =~= views(old(warnings)@) + flatpak_warnings(heard));
                assert(views(applications@) =~= views(old(applications)@) + flatpak_applications(
                    self.home_path(),
                    heard,
                ));
            },
        }
        Ghost(heard)
    }
}

/// A reply that stands where no question was put.
spec fn unasked() -> ReplyView {
    ReplyView::Failed { reason: Seq::empty() }
}

spec fn unasked_native() -> NativeReplies {
    NativeReplies {
        explicit: unasked(),
        owners: OwnerReplies { batch: unasked(), single: Seq::empty() },
        details: DetailReplies { batch: unasked(), single: Seq::empty() },
    }
}

proof fn lemma_owners_prefix(
    source: ApplicationSource,
    entries: Seq<DesktopView>,
    a: OwnerReplies,
    b: OwnerReplies,
    n: nat,
)
    requires
        a.batch == b.batch,
        n <= a.single.len(),
        n <= b.single.len(),
        forall|k: int| 0 <= k < n ==> a.single[k] == b.single[k],
    ensures
        owners_after(source, entries, a, n) == owners_after(source, entries, b, n),
    decreases n,
{
    if n > 0 {
        lemma_owners_prefix(source, entries, a, b, (n - 1) as nat);
    }
}

proof fn lemma_details_prefix(
    source: ApplicationSource,
    packages: Seq<Seq<char>>,
    a: DetailReplies,
    b: DetailReplies,
    n: nat,
)
    requires
        a.batch == b.batch,
        n <= a.single.len(),
        n <= b.single.len(),
        forall|k: int| 0 <= k < n ==> a.single[k] == b.single[k],
    ensures
        details_after(source, packages, a, n) == details_after(source, packages, b, n),
    decreases n,
{
    if n > 0 {
        lemma_details_prefix(source, packages, a, b, (n - 1) as nat);
    }
}

impl PendingReport {
    /// The report, given one measurement for each application, in their order.
    pub fn complete(self, measurements: &Vec<Measurement>) -> (report: ApplicationReport)
        requires
            measurements@.len() == self.applications@.len(),
        ensures
            report.distribution@ == self@.distribution,
            views(report.applications@) == completed_all(self@.applications, measurements@),
            views(report.warnings@) == self@.warnings,
    {
        let ghost pending = self@.applications;
        let ghost all = completed_all(pending, measurements@);
        let mut applications: Vec<Application> = Vec::new();
        let found = self.applications;
        assert(views(applications@) =~= all.take(0));
        for application in iter: found
            invariant
                iter.seq() == found@,
                pending == views(found@),
                measurements@.len() == found@.len(),
                all == completed_all(pending, measurements@),
                views(applications@) == all.take(iter.index() as int),
                applications@.len() == iter.index(),
        {
            let i = applications.len();
            let ghost before = views(applications@);
            assert(pending[i as int] == application@);
            let done = application.complete(&measurements[i]);
            applications.push(done);
            assert(views(applications@) =~= before.push(done@));
            assert(views(applications@) =~= all.take(i + 1));
        }
        assert(all.take(all.len() as int) =~= all);
        ApplicationReport { distribution: self.distribution, applications, warnings: self.warnings }
    }
}

} // verus!
