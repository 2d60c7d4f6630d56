//! The questions that a catalog of applications puts to package managers, and
//! what it makes of the answers.
//!
//! Answers come from outside and can be anything. `Replies` holds one answer for
//! each question of a run; `answered` says that the questions were put whose answers
//! count, `only_asks` that no other commands are run, and `report_of` what the
//! catalog reports for these answers.

use vstd::prelude::*;

use crate::command::{outcome_of, printed, query_view, CommandRunner, CommandView, ReplyView};
use crate::desktop::DesktopView;
use crate::distro::DistroFamily;
use crate::listings::{
    owner_listing, package_listing, pacman_detail_map, pacman_details, single_owner, tab_detail_map, tab_details,
};
use crate::order::{order_of, stable_sorted};
use crate::packages::{protected_package, valid_identifier};
use crate::path::{path_of, PathView, Route};
use crate::sizes::{reported_size, SizeView};
use crate::text::{fields, lines_of, lower, trimmed};
use crate::uninstall::{
    application_id, completed, ApplicationSource, ApplicationView, Measurement, PendingApplication, PendingView,
};

verus! {

/// The question for the packages that were installed on purpose.
pub open spec fn explicit_question(source: ApplicationSource) -> Option<CommandView> {
    match source {
        ApplicationSource::Pacman => Some(query_view("pacman"@, seq!["-Qqe"@])),
        ApplicationSource::Apt => Some(query_view("apt-mark"@, seq!["showmanual"@])),
        ApplicationSource::Dnf => Some(
            query_view("dnf"@, seq!["repoquery"@, "--installed"@, "--userinstalled"@, "--qf"@, "%{name}"@]),
        ),
        _ => None,
    }
}

/// The explicitly installed packages, as far as the answer names them; else why
/// it does not.
pub open spec fn explicit_packages(source: ApplicationSource, reply: ReplyView) -> Result<Seq<Seq<char>>, Seq<char>> {
    match explicit_question(source) {
        None => Ok(Seq::empty()),
        Some(question) => match outcome_of(question, reply) {
            Ok(text) => Ok(package_listing(text)),
            Err(reason) => Err(reason),
        },
    }
}

/// The paths of desktop entries as they are written on a command line.
pub open spec fn path_texts(entries: Seq<DesktopView>) -> Seq<Seq<char>> {
    Seq::new(entries.len(), |i: int| entries[i].path.display())
}

/// The question for the owners of all desktop entries at once, where the package
/// manager takes it.
pub open spec fn owners_question(source: ApplicationSource, entries: Seq<DesktopView>) -> Option<CommandView> {
    match source {
        ApplicationSource::Pacman => Some(query_view("pacman"@, seq!["-Qo"@] + path_texts(entries))),
        ApplicationSource::Apt => Some(query_view("dpkg-query"@, seq!["-S"@] + path_texts(entries))),
        _ => None,
    }
}

/// The question for the owner of one file.
pub open spec fn owner_question(source: ApplicationSource, path: PathView) -> Option<CommandView> {
    match source {
        ApplicationSource::Pacman => Some(query_view("pacman"@, seq!["-Qqo"@, path.display()])),
        ApplicationSource::Apt => Some(query_view("dpkg-query"@, seq!["-S"@, path.display()])),
        ApplicationSource::Dnf => Some(
            query_view("rpm"@, seq!["-qf"@, "--qf"@, "%{NAME}\n"@, path.display()]),
        ),
        _ => None,
    }
}

/// The owner of one file, as the answer names it.
pub open spec fn owner_of(source: ApplicationSource, path: PathView, reply: ReplyView) -> Option<Seq<char>> {
    match owner_question(source, path) {
        None => None,
        Some(question) => match outcome_of(question, reply) {
            Ok(text) => single_owner(text, source is Apt),
            Err(_) => None,
        },
    }
}

/// The answers to the questions for owners: for all desktop entries, then for
/// each that the first answer left out.
pub struct OwnerReplies {
    pub batch: ReplyView,
    pub single: Seq<ReplyView>,
}

/// The owners that the answer for all desktop entries names.
pub open spec fn batch_owners(
    source: ApplicationSource,
    entries: Seq<DesktopView>,
    replies: OwnerReplies,
) -> Map<Route, Seq<char>> {
    if entries.len() > 0 && owners_question(source, entries) is Some {
        match printed(replies.batch) {
            Some(text) => owner_listing(text, source is Pacman),
            None => Map::empty(),
        }
    } else {
        Map::empty()
    }
}

/// The owners known after the first `n` desktop entries were gone through.
pub open spec fn owners_after(
    source: ApplicationSource,
    entries: Seq<DesktopView>,
    replies: OwnerReplies,
    n: nat,
) -> Map<Route, Seq<char>>
    decreases n,
{
    if n == 0 {
        batch_owners(source, entries, replies)
    } else {
        let known = owners_after(source, entries, replies, (n - 1) as nat);
        let path = entries[n - 1].path;
        if known.contains_key(path.route()) {
            known
        } else {
            match owner_of(source, path, replies.single[n - 1]) {
                Some(package) => known.insert(path.route(), package),
                None => known,
            }
        }
    }
}

/// The packages that own desktop entries.
pub open spec fn owners_of(
    source: ApplicationSource,
    entries: Seq<DesktopView>,
    replies: OwnerReplies,
) -> Map<Route, Seq<char>> {
    owners_after(source, entries, replies, entries.len())
}

/// `reply` answers the question, where there is one.
pub open spec fn replied<R: CommandRunner>(runner: R, question: Option<CommandView>, reply: ReplyView) -> bool {
    match question {
        Some(command) => runner.may_reply(command, reply),
        None => true,
    }
}

/// The questions for owners were put, and so answered: the single ones for the
/// entries whose owner was not known by then.
pub open spec fn owners_answered<R: CommandRunner>(
    runner: R,
    source: ApplicationSource,
    entries: Seq<DesktopView>,
    replies: OwnerReplies,
) -> bool {
    &&& replies.single.len() == entries.len()
    &&& entries.len() > 0 ==> replied(runner, owners_question(source, entries), replies.batch)
    &&& forall|i: int|
        0 <= i < entries.len() ==> #[trigger] owner_answered(runner, source, entries, replies, i)
}

/// The question for the owner of entry `i` was put, where it was not known.
pub open spec fn owner_answered<R: CommandRunner>(
    runner: R,
    source: ApplicationSource,
    entries: Seq<DesktopView>,
    replies: OwnerReplies,
    i: int,
) -> bool {
    owners_after(source, entries, replies, i as nat).contains_key(entries[i].path.route()) || replied(
        runner,
        owner_question(source, entries[i].path),
        replies.single[i],
    )
}

/// A desktop entry and the package that owns it.
pub struct CandidateView {
    pub entry: DesktopView,
    pub package: Seq<char>,
}

/// The packages of the candidates.
pub open spec fn candidate_packages(candidates: Seq<CandidateView>) -> Seq<Seq<char>> {
    Seq::new(candidates.len(), |i: int| candidates[i].package)
}

/// The desktop entries among the first `n` that stand for an application: owned
/// by a package that was installed on purpose, that is not protected, and that
/// no earlier entry stands for.
pub open spec fn candidates_after(
    entries: Seq<DesktopView>,
    owners: Map<Route, Seq<char>>,
    explicit: Seq<Seq<char>>,
    n: nat,
) -> Seq<CandidateView>
    decreases n,
{
    if n == 0 {
        Seq::empty()
    } else {
        let found = candidates_after(entries, owners, explicit, (n - 1) as nat);
        let entry = entries[n - 1];
        if owners.contains_key(entry.path.route()) {
            let package = owners[entry.path.route()];
            if explicit.contains(package) && !protected_package(package) && !candidate_packages(found).contains(
                package,
            ) {
                found.push(CandidateView { entry, package })
            } else {
                found
            }
        } else {
            found
        }
    }
}

/// The question for the details of several packages.
pub open spec fn details_question(source: ApplicationSource, packages: Seq<Seq<char>>) -> Option<CommandView> {
    match source {
        ApplicationSource::Pacman => Some(query_view("pacman"@, seq!["-Qi"@, "--"@] + packages)),
        ApplicationSource::Apt => Some(
            query_view("dpkg-query"@, seq!["-W"@, "-f=${Package}\t${Version}\t${Installed-Size}\n"@] + packages),
        ),
        ApplicationSource::Dnf => Some(
            query_view("rpm"@, seq!["-q"@, "--qf"@, "%{NAME}\t%{VERSION}-%{RELEASE}\t%{SIZE}\n"@] + packages),
        ),
        _ => None,
    }
}

/// The question for the details of one package.
pub open spec fn detail_question(source: ApplicationSource, package: Seq<char>) -> Option<CommandView> {
    match source {
        ApplicationSource::Pacman => Some(query_view("pacman"@, seq!["-Qi"@, "--"@, package])),
        ApplicationSource::Apt => Some(
            query_view("dpkg-query"@, seq!["-W"@, "-f=${Version}\t${Installed-Size}\n"@, package]),
        ),
        ApplicationSource::Dnf => Some(
            query_view("rpm"@, seq!["-q"@, "--qf"@, "%{VERSION}-%{RELEASE}\t%{SIZE}\n"@, package]),
        ),
        _ => None,
    }
}

/// The details that an answer for several packages gives. Debian counts in
/// kibibytes.
pub open spec fn detail_listing(source: ApplicationSource, text: Seq<char>) -> Map<Seq<char>, (Seq<char>, SizeView)> {
    match source {
        ApplicationSource::Pacman => pacman_detail_map(text),
        ApplicationSource::Apt => tab_detail_map(text, 1024),
        ApplicationSource::Dnf => tab_detail_map(text, 1),
        _ => Map::empty(),
    }
}

/// The details that an answer for one package gives.
pub open spec fn package_details(
    source: ApplicationSource,
    package: Seq<char>,
    reply: ReplyView,
) -> Option<(Seq<char>, SizeView)> {
    match detail_question(source, package) {
        None => Some(("unknown"@, SizeView::Bytes(0))),
        Some(question) => match outcome_of(question, reply) {
            Ok(text) => Some(
                match source {
                    ApplicationSource::Pacman => pacman_details(text),
                    ApplicationSource::Apt => tab_details(text, 1024),
                    _ => tab_details(text, 1),
                },
            ),
            Err(_) => None,
        },
    }
}

/// The answers to the questions for details: for all packages, then for each
/// that the first answer left out.
pub struct DetailReplies {
    pub batch: ReplyView,
    pub single: Seq<ReplyView>,
}

/// The details that the answer for all packages gives.
pub open spec fn batch_details(
    source: ApplicationSource,
    packages: Seq<Seq<char>>,
    replies: DetailReplies,
) -> Map<Seq<char>, (Seq<char>, SizeView)> {
    match details_question(source, packages) {
        None => Map::empty(),
        Some(question) => match outcome_of(question, replies.batch) {
            Ok(text) => detail_listing(source, text),
            Err(_) => Map::empty(),
        },
    }
}

/// The details known after the first `n` packages were gone through.
pub open spec fn details_after(
    source: ApplicationSource,
    packages: Seq<Seq<char>>,
    replies: DetailReplies,
    n: nat,
) -> Map<Seq<char>, (Seq<char>, SizeView)>
    decreases n,
{
    if n == 0 {
        batch_details(source, packages, replies)
    } else {
        let known = details_after(source, packages, replies, (n - 1) as nat);
        let package = packages[n - 1];
        if known.contains_key(package) {
            known
        } else {
            match package_details(source, package, replies.single[n - 1]) {
                Some(details) => known.insert(package, details),
                None => known,
            }
        }
    }
}

/// The details of packages; nothing is asked where there are none.
pub open spec fn details_of(
    source: ApplicationSource,
    packages: Seq<Seq<char>>,
    replies: DetailReplies,
) -> Map<Seq<char>, (Seq<char>, SizeView)> {
    if packages.len() == 0 || details_question(source, packages) is None {
        Map::empty()
    } else {
        details_after(source, packages, replies, packages.len())
    }
}

/// The questions for details were put, and so answered.
pub open spec fn details_answered<R: CommandRunner>(
    runner: R,
    source: ApplicationSource,
    packages: Seq<Seq<char>>,
    replies: DetailReplies,
) -> bool {
    packages.len() > 0 && details_question(source, packages) is Some ==> {
        &&& replies.single.len() == packages.len()
        &&& replied(runner, details_question(source, packages), replies.batch)
        &&& forall|i: int|
            0 <= i < packages.len() ==> #[trigger] detail_answered(runner, source, packages, replies, i)
    }
}

/// The question for the details of package `i` was put, where they were not
/// known.
pub open spec fn detail_answered<R: CommandRunner>(
    runner: R,
    source: ApplicationSource,
    packages: Seq<Seq<char>>,
    replies: DetailReplies,
    i: int,
) -> bool {
    details_after(source, packages, replies, i as nat).contains_key(packages[i]) || replied(
        runner,
        detail_question(source, packages[i]),
        replies.single[i],
    )
}

/// The application that a candidate stands for.
pub open spec fn native_application(
    source: ApplicationSource,
    candidate: CandidateView,
    details: Map<Seq<char>, (Seq<char>, SizeView)>,
) -> PendingView {
    let (version, installed) = if details.contains_key(candidate.package) {
        details[candidate.package]
    } else {
        ("unknown"@, SizeView::Bytes(0))
    };
    PendingView {
        id: application_id(source, candidate.package),
        name: candidate.entry.name,
        package: candidate.package,
        version,
        source,
        installed,
        desktop_file: Some(candidate.entry.path),
        data_path: None,
    }
}

/// The answers to the questions that are put to a native package manager.
pub struct NativeReplies {
    pub explicit: ReplyView,
    pub owners: OwnerReplies,
    pub details: DetailReplies,
}

/// The candidates that the answers give.
pub open spec fn native_candidates(
    source: ApplicationSource,
    entries: Seq<DesktopView>,
    replies: NativeReplies,
) -> Seq<CandidateView> {
    match explicit_packages(source, replies.explicit) {
        Err(_) => Seq::empty(),
        Ok(explicit) => candidates_after(entries, owners_of(source, entries, replies.owners), explicit, entries.len()),
    }
}

/// The applications that a native package manager has, going by its answers.
pub open spec fn native_applications(
    source: ApplicationSource,
    entries: Seq<DesktopView>,
    replies: NativeReplies,
) -> Seq<PendingView> {
    let candidates = native_candidates(source, entries, replies);
    let details = details_of(source, candidate_packages(candidates), replies.details);
    Seq::new(candidates.len(), |i: int| native_application(source, candidates[i], details))
}

/// The warning, where a native package manager does not list its packages.
pub open spec fn native_warnings(source: ApplicationSource, replies: NativeReplies) -> Seq<Seq<char>> {
    match explicit_packages(source, replies.explicit) {
        Err(reason) => seq!["failed to list explicitly installed packages: "@ + reason],
        Ok(_) => Seq::empty(),
    }
}

/// The questions to a native package manager were put, and so answered; none but
/// the first where that was not answered well.
pub open spec fn native_answered<R: CommandRunner>(
    runner: R,
    source: ApplicationSource,
    entries: Seq<DesktopView>,
    replies: NativeReplies,
) -> bool {
    &&& replied(runner, explicit_question(source), replies.explicit)
    &&& explicit_packages(source, replies.explicit) is Ok ==> {
        &&& owners_answered(runner, source, entries, replies.owners)
        &&& details_answered(
            runner,
            source,
            candidate_packages(native_candidates(source, entries, replies)),
            replies.details,
        )
    }
}

/// The answers of a whole run.
pub struct Replies {
    pub native: NativeReplies,
    pub flatpak: ReplyView,
}

/// The source of native packages in a family of distributions.
pub open spec fn native_source(family: DistroFamily) -> Option<ApplicationSource> {
    match family {
        DistroFamily::Arch => Some(ApplicationSource::Pacman),
        DistroFamily::Debian => Some(ApplicationSource::Apt),
        DistroFamily::Fedora => Some(ApplicationSource::Dnf),
        DistroFamily::Unsupported => None,
    }
}

/// The question for the Flatpak applications.
pub open spec fn flatpak_question() -> CommandView {
    query_view(
        "flatpak"@,
        seq!["list"@, "--app"@, "--columns=application,name,version,size,installation"@],
    )
}

/// `value` trimmed, or `fallback` where nothing is left.
pub open spec fn nonempty_text(value: Seq<char>, fallback: Seq<char>) -> Seq<char> {
    if trimmed(value).len() == 0 {
        fallback
    } else {
        trimmed(value)
    }
}

/// The directory in which a Flatpak application keeps the data of a user.
pub open spec fn flatpak_data(home: PathView, package: Seq<char>) -> PathView {
    home.join(path_of(".var/app"@)).join(path_of(package))
}

/// The application that a line of `flatpak list` describes: its identifier, name,
/// version, size and installation.
pub open spec fn flatpak_pending(home: PathView, columns: Seq<Seq<char>>) -> PendingView {
    let source = if lower(trimmed(columns[4])) == lower("user"@) {
        ApplicationSource::FlatpakUser
    } else {
        ApplicationSource::FlatpakSystem
    };
    let package = trimmed(columns[0]);
    PendingView {
        id: application_id(source, package),
        name: nonempty_text(columns[1], package),
        package,
        version: nonempty_text(columns[2], "unknown"@),
        source,
        installed: reported_size(columns[3]),
        desktop_file: None,
        data_path: Some(flatpak_data(home, package)),
    }
}

/// The applications in the lines of `flatpak list`. Lines that are blank, have
/// fewer than five columns, or do not begin with an identifier are passed over.
pub open spec fn flatpak_lines(home: PathView, listing: Seq<Seq<char>>) -> Seq<PendingView>
    decreases listing.len(),
{
    if listing.len() == 0 {
        Seq::empty()
    } else {
        let front = flatpak_lines(home, listing.drop_last());
        let columns = fields(listing.last(), "\t"@);
        if trimmed(listing.last()).len() > 0 && columns.len() >= 5 && valid_identifier(columns[0]) {
            front.push(flatpak_pending(home, columns))
        } else {
            front
        }
    }
}

/// The applications that Flatpak has, going by its answer.
pub open spec fn flatpak_applications(home: PathView, reply: ReplyView) -> Seq<PendingView> {
    match outcome_of(flatpak_question(), reply) {
        Ok(text) => flatpak_lines(home, lines_of(text)),
        Err(_) => Seq::empty(),
    }
}

/// The warning, where Flatpak does not list its applications.
pub open spec fn flatpak_warnings(reply: ReplyView) -> Seq<Seq<char>> {
    match outcome_of(flatpak_question(), reply) {
        Ok(_) => Seq::empty(),
        Err(reason) => seq!["failed to list Flatpak applications: "@ + reason],
    }
}

/// `s` without the applications that have the identifier of the one before.
pub open spec fn without_repeats(s: Seq<PendingView>) -> Seq<PendingView>
    decreases s.len(),
{
    if s.len() == 0 {
        s
    } else {
        let front = without_repeats(s.drop_last());
        if front.len() > 0 && front.last().id == s.last().id {
            front
        } else {
            front.push(s.last())
        }
    }
}

/// What a catalog reports before the measurements.
#[verifier::ext_equal]
pub struct PendingReportView {
    pub distribution: Seq<char>,
    pub applications: Seq<PendingView>,
    pub warnings: Seq<Seq<char>>,
}

/// The complaint about a distribution whose packages cannot be managed.
pub open spec fn unsupported_warning(name: Seq<char>) -> Seq<char> {
    name
        + " does not have a native package uninstall provider; Flatpak applications are still available"@
}

/// All applications that the answers give, in the order in which they are found.
pub open spec fn found_applications(
    family: DistroFamily,
    home: PathView,
    entries: Seq<DesktopView>,
    replies: Replies,
) -> Seq<PendingView> {
    match native_source(family) {
        Some(source) => native_applications(source, entries, replies.native) + flatpak_applications(
            home,
            replies.flatpak,
        ),
        None => flatpak_applications(home, replies.flatpak),
    }
}

/// What the catalog of a system reports for these answers: each application that
/// was found, by name and then by identifier.
pub open spec fn report_of(
    family: DistroFamily,
    name: Seq<char>,
    home: PathView,
    entries: Seq<DesktopView>,
    replies: Replies,
) -> PendingReportView {
    PendingReportView {
        distribution: name,
        applications: without_repeats(
            stable_sorted(found_applications(family, home, entries, replies), order_of::<PendingApplication>()),
        ),
        warnings: (match native_source(family) {
            Some(source) => native_warnings(source, replies.native),
            None => seq![unsupported_warning(name)],
        }) + flatpak_warnings(replies.flatpak),
    }
}

/// The questions of a run were put, and so answered.
pub open spec fn answered<R: CommandRunner>(
    runner: R,
    family: DistroFamily,
    entries: Seq<DesktopView>,
    replies: Replies,
) -> bool {
    &&& match native_source(family) {
        Some(source) => native_answered(runner, source, entries, replies.native),
        None => true,
    }
    &&& runner.may_reply(flatpak_question(), replies.flatpak)
}

/// The question may be put, where there is one.
pub open spec fn allowed<R: CommandRunner>(runner: R, question: Option<CommandView>) -> bool {
    match question {
        Some(command) => runner.may_run(command),
        None => true,
    }
}

/// The owner of entry `i` is to be asked for next: the entries before it have been
/// gone through, and its own owner is not known by then.
pub open spec fn owner_due<R: CommandRunner>(
    runner: R,
    source: ApplicationSource,
    entries: Seq<DesktopView>,
    replies: OwnerReplies,
    i: int,
) -> bool {
    &&& 0 <= i < entries.len() == replies.single.len()
    &&& replied(runner, owners_question(source, entries), replies.batch)
    &&& forall|k: int| 0 <= k < i ==> #[trigger] owner_answered(runner, source, entries, replies, k)
    &&& !owners_after(source, entries, replies, i as nat).contains_key(entries[i].path.route())
}

/// To find owners, only these commands need be allowed: the question for all
/// desktop entries, where there are any, and the one for each entry when it is due.
pub open spec fn owners_asked<R: CommandRunner>(
    runner: R,
    source: ApplicationSource,
    entries: Seq<DesktopView>,
) -> bool {
    &&& entries.len() > 0 ==> allowed(runner, owners_question(source, entries))
    &&& forall|replies: OwnerReplies, i: int| #[trigger]
        owner_due(runner, source, entries, replies, i) ==> allowed(runner, owner_question(source, entries[i].path))
}

/// The details of package `i` are to be asked for next: the packages before it have
/// been gone through, and its own details are not known by then.
pub open spec fn detail_due<R: CommandRunner>(
    runner: R,
    source: ApplicationSource,
    packages: Seq<Seq<char>>,
    replies: DetailReplies,
    i: int,
) -> bool {
    &&& 0 <= i < packages.len() == replies.single.len()
    &&& details_question(source, packages) is Some
    &&& replied(runner, details_question(source, packages), replies.batch)
    &&& forall|k: int| 0 <= k < i ==> #[trigger] detail_answered(runner, source, packages, replies, k)
    &&& !details_after(source, packages, replies, i as nat).contains_key(packages[i])
}

/// To find details, only these commands need be allowed: the question for all
/// packages, where there are any, and the one for each package when it is due.
pub open spec fn details_asked<R: CommandRunner>(
    runner: R,
    source: ApplicationSource,
    packages: Seq<Seq<char>>,
) -> bool {
    &&& packages.len() > 0 ==> allowed(runner, details_question(source, packages))
    &&& forall|replies: DetailReplies, i: int| #[trigger]
        detail_due(runner, source, packages, replies, i) ==> allowed(runner, detail_question(source, packages[i]))
}

/// The explicitly installed packages were listed.
pub open spec fn packages_listed<R: CommandRunner>(runner: R, source: ApplicationSource, reply: ReplyView) -> bool {
    replied(runner, explicit_question(source), reply) && explicit_packages(source, reply) is Ok
}

/// The explicitly installed packages were listed, and the owners found.
pub open spec fn owners_known<R: CommandRunner>(
    runner: R,
    source: ApplicationSource,
    entries: Seq<DesktopView>,
    replies: NativeReplies,
) -> bool {
    packages_listed(runner, source, replies.explicit) && owners_answered(runner, source, entries, replies.owners)
}

/// To find native applications, only these commands need be allowed: the question
/// for the explicitly installed packages; once they were listed, those for owners;
/// and once these are known, those for details of the candidates.
pub open spec fn native_asked<R: CommandRunner>(
    runner: R,
    source: ApplicationSource,
    entries: Seq<DesktopView>,
) -> bool {
    &&& allowed(runner, explicit_question(source))
    &&& forall|reply: ReplyView| #[trigger]
        packages_listed(runner, source, reply) ==> owners_asked(runner, source, entries)
    &&& forall|replies: NativeReplies| #[trigger]
        owners_known(runner, source, entries, replies) ==> details_asked(
            runner,
            source,
            candidate_packages(native_candidates(source, entries, replies)),
        )
}

/// To find applications, only these commands need be allowed: those for native
/// applications, where the distribution has any, and the question for those of
/// Flatpak.
pub open spec fn only_asks<R: CommandRunner>(runner: R, family: DistroFamily, entries: Seq<DesktopView>) -> bool {
    &&& match native_source(family) {
        Some(source) => native_asked(runner, source, entries),
        None => true,
    }
    &&& runner.may_run(flatpak_question())
}

/// The report, once its applications have been measured.
pub open spec fn completed_all(pending: Seq<PendingView>, measured: Seq<Measurement>) -> Seq<ApplicationView> {
    Seq::new(pending.len(), |i: int| completed(pending[i], measured[i]))
}

} // verus!
