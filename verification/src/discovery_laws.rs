//! What a catalog finds: that nothing is lost between the answers of package managers
//! and the report.

use vstd::prelude::*;

use crate::answers::{
    answered, batch_details, batch_owners, candidate_packages, candidates_after, completed_all, detail_answered,
    detail_question, details_after, details_of, details_question, explicit_packages, explicit_question,
    flatpak_applications, flatpak_lines, flatpak_question, found_applications, native_applications, native_candidates,
    native_source, only_asks, owner_answered, owner_of, owner_question, owners_after, owners_of, owners_question,
    package_details, report_of, CandidateView, DetailReplies, NativeReplies, OwnerReplies, Replies,
};
use crate::catalog_laws::{
    identifiers_are_distinct, native_packages_appear_once, reports_are_ordered, reports_invent_nothing,
    reports_lose_nothing, reports_offer_no_protected_package,
};
use crate::command::{outcome_of, spaced, CommandRunner, CommandView, ReplyView};
use crate::desktop::DesktopView;
use crate::distro::DistroFamily;
use crate::listings::{
    owner_listing, package_listing, pacman_detail_map, pacman_details, single_owner, tab_detail_map, tab_details,
};
use crate::packages::{protected_package, valid_identifier};
use crate::path::{path_of, PathView, Route};
use crate::sizes::{reported_size, SizeView};
use crate::text::{fields, lines_of, lossy_text, lower, text_le, trimmed};
use crate::uninstall::{application_id, source_slug, source_title, ApplicationSource, Measurement, PendingView};

verus! {

/// Whether a package is known to own desktop entry `i`.
pub open spec fn owns(entries: Seq<DesktopView>, owners: Map<Route, Seq<char>>, package: Seq<char>, i: int) -> bool {
    owners.contains_key(entries[i].path.route()) && owners[entries[i].path.route()] == package
}

proof fn lemma_candidates_own(
    entries: Seq<DesktopView>,
    owners: Map<Route, Seq<char>>,
    explicit: Seq<Seq<char>>,
    n: nat,
    k: int,
) -> (l: int)
    requires
        n <= entries.len(),
        0 <= k < candidates_after(entries, owners, explicit, n).len(),
    ensures
        0 <= l < n,
        owns(entries, owners, candidates_after(entries, owners, explicit, n)[k].package, l),
    decreases n,
{
    let before = candidates_after(entries, owners, explicit, (n - 1) as nat);
    if k < before.len() {
        lemma_candidates_own(entries, owners, explicit, (n - 1) as nat, k)
    } else {
        n - 1
    }
}

proof fn lemma_first_owner_is_candidate(
    entries: Seq<DesktopView>,
    owners: Map<Route, Seq<char>>,
    explicit: Seq<Seq<char>>,
    package: Seq<char>,
    n: nat,
    m: int,
) -> (k: int)
    requires
        0 <= m < n <= entries.len(),
        owns(entries, owners, package, m),
        forall|l: int| 0 <= l < m ==> !#[trigger] owns(entries, owners, package, l),
        explicit.contains(package),
        !protected_package(package),
    ensures
        0 <= k < candidates_after(entries, owners, explicit, n).len(),
        candidates_after(entries, owners, explicit, n)[k] == (CandidateView { entry: entries[m], package }),
    decreases n,
{
    let before = candidates_after(entries, owners, explicit, (n - 1) as nat);
    if n - 1 == m {
        assert(!candidate_packages(before).contains(package)) by {
            if candidate_packages(before).contains(package) {
                let k = choose|k: int| 0 <= k < before.len() && candidate_packages(before)[k] == package;
                let l = lemma_candidates_own(entries, owners, explicit, (n - 1) as nat, k);
                assert(owns(entries, owners, package, l));
            }
        }
        before.len() as int
    } else {
        lemma_first_owner_is_candidate(entries, owners, explicit, package, (n - 1) as nat, m)
    }
}

proof fn lemma_first_owner(
    entries: Seq<DesktopView>,
    owners: Map<Route, Seq<char>>,
    package: Seq<char>,
    j: int,
) -> (m: int)
    requires
        0 <= j < entries.len(),
        owns(entries, owners, package, j),
    ensures
        0 <= m <= j,
        owns(entries, owners, package, m),
        forall|l: int| 0 <= l < m ==> !#[trigger] owns(entries, owners, package, l),
    decreases j,
{
    if exists|l: int| 0 <= l < j && #[trigger] owns(entries, owners, package, l) {
        let l = choose|l: int| 0 <= l < j && #[trigger] owns(entries, owners, package, l);
        lemma_first_owner(entries, owners, package, l)
    } else {
        j
    }
}

/// Every native application is found: for each desktop entry whose owner is known, was
/// installed on purpose, and is not protected, there is an application of that package.
/// It has the name and the file of the first desktop entry that the package owns, and
/// the details that are known of the package.
pub proof fn every_native_application_is_found(
    source: ApplicationSource,
    entries: Seq<DesktopView>,
    replies: NativeReplies,
    package: Seq<char>,
    j: int,
) -> (found: (int, int))
    requires
        0 <= j < entries.len(),
        explicit_packages(source, replies.explicit) is Ok,
        explicit_packages(source, replies.explicit)->Ok_0.contains(package),
        owns(entries, owners_of(source, entries, replies.owners), package, j),
        !protected_package(package),
    ensures
        0 <= found.0 < native_applications(source, entries, replies).len(),
        0 <= found.1 <= j,
        owns(entries, owners_of(source, entries, replies.owners), package, found.1),
        forall|l: int|
            0 <= l < found.1 ==> !#[trigger] owns(entries, owners_of(source, entries, replies.owners), package, l),
        ({
            let application = native_applications(source, entries, replies)[found.0];
            let packages = Seq::new(
                native_applications(source, entries, replies).len(),
                |i: int| native_applications(source, entries, replies)[i].package,
            );
            let details = details_of(source, packages, replies.details);
            &&& application.package == package
            &&& application.source == source
            &&& application.id == source_slug(source) + ":"@ + package
            &&& application.name == entries[found.1].name
            &&& application.desktop_file == Some(entries[found.1].path)
            &&& application.data_path is None
            &&& details.contains_key(package) ==> (application.version, application.installed) == details[package]
            &&& !details.contains_key(package) ==> application.version == "unknown"@ && application.installed
                == SizeView::Bytes(0)
        }),
{
    let owners = owners_of(source, entries, replies.owners);
    let explicit = explicit_packages(source, replies.explicit)->Ok_0;
    let m = lemma_first_owner(entries, owners, package, j);
    let k = lemma_first_owner_is_candidate(entries, owners, explicit, package, entries.len(), m);
    let all = native_applications(source, entries, replies);
    assert(Seq::new(all.len(), |i: int| all[i].package) =~= candidate_packages(
        native_candidates(source, entries, replies),
    ));
    (k, m)
}

/// Every native application stands in the report, as it was found.
pub proof fn every_native_application_is_reported(
    family: DistroFamily,
    name: Seq<char>,
    home: PathView,
    entries: Seq<DesktopView>,
    replies: Replies,
    package: Seq<char>,
    j: int,
)
    requires
        native_source(family) is Some,
        0 <= j < entries.len(),
        explicit_packages(native_source(family)->0, replies.native.explicit) is Ok,
        explicit_packages(native_source(family)->0, replies.native.explicit)->Ok_0.contains(package),
        owns(entries, owners_of(native_source(family)->0, entries, replies.native.owners), package, j),
        !protected_package(package),
    ensures
        exists|i: int|
            0 <= i < report_of(family, name, home, entries, replies).applications.len() && {
                let application = #[trigger] report_of(family, name, home, entries, replies).applications[i];
                &&& application.package == package
                &&& application.source == native_source(family)->0
                &&& exists|m: int|
                    0 <= m <= j && #[trigger] owns(
                        entries,
                        owners_of(native_source(family)->0, entries, replies.native.owners),
                        package,
                        m,
                    ) && application.name == entries[m].name && application.desktop_file == Some(entries[m].path)
            },
{
    let source = native_source(family)->0;
    let (k, m) = every_native_application_is_found(source, entries, replies.native, package, j);
    let native = native_applications(source, entries, replies.native);
    let found = found_applications(family, home, entries, replies);
    let report = report_of(family, name, home, entries, replies).applications;
    assert(found[k] == native[k]);
    reports_lose_nothing(family, name, home, entries, replies, k);
    let i = choose|i: int| 0 <= i < report.len() && (#[trigger] report[i]).id == found[k].id;
    reports_offer_no_protected_package(family, name, home, entries, replies, i);
    identifiers_are_distinct(report[i].source, report[i].package, source, package);
    reports_invent_nothing(family, name, home, entries, replies, i);
    let at = choose|at: int| 0 <= at < found.len() && found[at] == report[i];
    if at < native.len() {
        if at < k {
            native_packages_appear_once(source, entries, replies.native, at, k);
        } else if k < at {
            native_packages_appear_once(source, entries, replies.native, k, at);
        }
    } else {
        let flatpaks = flatpak_applications(home, replies.flatpak);
        assert(found[at] == flatpaks[at - native.len()]);
        lemma_flatpak_source(home, replies.flatpak, at - native.len());
    }
    assert(owns(entries, owners_of(source, entries, replies.native.owners), package, m));
    assert(report[i].package == package);
}

proof fn lemma_flatpak_source(home: PathView, reply: ReplyView, i: int)
    requires
        0 <= i < flatpak_applications(home, reply).len(),
    ensures
        flatpak_applications(home, reply)[i].source is FlatpakUser || flatpak_applications(
            home,
            reply,
        )[i].source is FlatpakSystem,
{
    let text = outcome_of(flatpak_question(), reply)->Ok_0;
    let line = flatpak_applications_stand_in_lines(home, lines_of(text), i);
}

/// Each line of `flatpak list` that is not blank, has five columns, and begins with an
/// identifier stands for an application: its identifier, its name or else the
/// identifier, its version or else that it is not known, its size, and whether it is
/// installed for the user. It keeps its data in a directory of that name.
pub proof fn every_flatpak_line_is_an_application(home: PathView, listing: Seq<Seq<char>>, i: int) -> (k: int)
    requires
        0 <= i < listing.len(),
        trimmed(listing[i]).len() > 0,
        fields(listing[i], "\t"@).len() >= 5,
        valid_identifier(fields(listing[i], "\t"@)[0]),
    ensures
        0 <= k < flatpak_lines(home, listing).len(),
        ({
            let columns = fields(listing[i], "\t"@);
            let source = if lower(trimmed(columns[4])) == lower("user"@) {
                ApplicationSource::FlatpakUser
            } else {
                ApplicationSource::FlatpakSystem
            };
            flatpak_lines(home, listing)[k] == PendingView {
                id: source_slug(source) + ":"@ + trimmed(columns[0]),
                name: if trimmed(columns[1]).len() == 0 {
                    trimmed(columns[0])
                } else {
                    trimmed(columns[1])
                },
                package: trimmed(columns[0]),
                version: if trimmed(columns[2]).len() == 0 {
                    "unknown"@
                } else {
                    trimmed(columns[2])
                },
                source,
                installed: reported_size(columns[3]),
                desktop_file: None,
                data_path: Some(home.join(path_of(".var/app"@)).join(path_of(trimmed(columns[0])))),
            }
        }),
    decreases listing.len(),
{
    let front = flatpak_lines(home, listing.drop_last());
    if i < listing.len() - 1 {
        let k = every_flatpak_line_is_an_application(home, listing.drop_last(), i);
        assert(flatpak_lines(home, listing)[k] == front[k]);
        k
    } else {
        front.len() as int
    }
}

/// Each Flatpak application stands in a line, and they stand in the order of their lines,
/// none twice.
pub proof fn flatpak_applications_stand_in_lines(home: PathView, listing: Seq<Seq<char>>, k: int) -> (i: int)
    requires
        0 <= k < flatpak_lines(home, listing).len(),
    ensures
        0 <= i < listing.len(),
        trimmed(listing[i]).len() > 0,
        fields(listing[i], "\t"@).len() >= 5,
        valid_identifier(fields(listing[i], "\t"@)[0]),
        flatpak_lines(home, listing)[k].package == trimmed(fields(listing[i], "\t"@)[0]),
        flatpak_lines(home, listing.take(i)).len() == k,
        flatpak_lines(home, listing)[k].source is FlatpakUser || flatpak_lines(home, listing)[k].source is FlatpakSystem,
    decreases listing.len(),
{
    let rest = listing.drop_last();
    let front = flatpak_lines(home, rest);
    if k < front.len() {
        let i = flatpak_applications_stand_in_lines(home, rest, k);
        assert(flatpak_lines(home, listing)[k] == front[k]);
        assert(rest.take(i) =~= listing.take(i));
        i
    } else {
        assert(listing.take(listing.len() - 1) =~= rest);
        listing.len() - 1
    }
}

proof fn lemma_owners(source: ApplicationSource, entries: Seq<DesktopView>, replies: OwnerReplies, n: nat, file: Route)
    requires
        n <= entries.len(),
    ensures
        ({
            let batch = batch_owners(source, entries, replies);
            let known = owners_after(source, entries, replies, n);
            &&& batch.contains_key(file) ==> known.contains_key(file) && known[file] == batch[file]
            &&& !batch.contains_key(file) ==> {
                &&& known.contains_key(file) <==> exists|i: int|
                    0 <= i < n && #[trigger] told(source, entries, replies, file, i)
                &&& forall|i: int|
                    0 <= i < n && #[trigger] told(source, entries, replies, file, i) && (forall|j: int|
                        0 <= j < i ==> !#[trigger] told(source, entries, replies, file, j)) ==> Some(known[file])
                        == owner_of(source, entries[i].path, replies.single[i])
            }
        }),
    decreases n,
{
    if n > 0 {
        lemma_owners(source, entries, replies, (n - 1) as nat, file);
        let batch = batch_owners(source, entries, replies);
        let before = owners_after(source, entries, replies, (n - 1) as nat);
        let known = owners_after(source, entries, replies, n);
        if !batch.contains_key(file) {
            if told(source, entries, replies, file, n - 1) {
                assert(known.contains_key(file));
            }
            assert forall|i: int|
                0 <= i < n && #[trigger] told(source, entries, replies, file, i) && (forall|j: int|
                    0 <= j < i ==> !#[trigger] told(source, entries, replies, file, j)) implies Some(known[file])
                == owner_of(source, entries[i].path, replies.single[i]) by {
                if i < n - 1 {
                    assert(before.contains_key(file));
                }
            }
        }
    }
}

/// Whether the answer for desktop entry `i` alone names an owner of the file.
pub open spec fn told(
    source: ApplicationSource,
    entries: Seq<DesktopView>,
    replies: OwnerReplies,
    file: Route,
    i: int,
) -> bool {
    entries[i].path.route() == file && owner_of(source, entries[i].path, replies.single[i]) is Some
}

/// The owner of a desktop entry is what the answer for all of them names, where pacman or
/// dpkg were asked for all; else what the answer for this one names. Where that names
/// none, only the answer for another entry with the same path can.
pub proof fn owners_are_what_the_answers_name(
    source: ApplicationSource,
    entries: Seq<DesktopView>,
    replies: OwnerReplies,
    j: int,
)
    requires
        0 <= j < entries.len(),
        forall|i: int| 0 <= i < j ==> (#[trigger] entries[i]).path.route() != entries[j].path.route(),
    ensures
        ({
            let file = entries[j].path.route();
            let listed = match replies.batch {
                ReplyView::Finished { stdout, .. } => owner_listing(lossy_text(stdout), source is Pacman),
                ReplyView::Failed { .. } => Map::empty(),
            };
            let known = owners_of(source, entries, replies);
            if (source is Pacman || source is Apt) && listed.contains_key(file) {
                known.contains_key(file) && known[file] == listed[file]
            } else {
                match owner_of(source, entries[j].path, replies.single[j]) {
                    Some(package) => known.contains_key(file) && known[file] == package,
                    None => known.contains_key(file) ==> exists|i: int|
                        j < i < entries.len() && (#[trigger] entries[i]).path.route() == file,
                }
            }
        }),
{
    let file = entries[j].path.route();
    lemma_owners(source, entries, replies, entries.len(), file);
    assert forall|i: int|
        0 <= i < entries.len() && #[trigger] told(source, entries, replies, file, i) implies i >= j by {
        assert(entries[i].path.route() == file);
    }
    if exists|i: int| 0 <= i < entries.len() && #[trigger] told(source, entries, replies, file, i) {
        let i = choose|i: int| 0 <= i < entries.len() && #[trigger] told(source, entries, replies, file, i);
        assert(entries[i].path.route() == file);
    }
    if owner_of(source, entries[j].path, replies.single[j]) is Some {
        assert(told(source, entries, replies, file, j));
    }
}

/// The owner of one file is what the answer to that question says, where it was answered
/// well: by pacman and rpm as a name, by dpkg before a colon. Flatpak owns none.
pub proof fn single_owners_are_what_the_answer_says(source: ApplicationSource, path: PathView, reply: ReplyView)
    ensures
        owner_of(source, path, reply) == match reply {
            ReplyView::Finished { success, status, stdout, stderr } => if success && (source is Pacman || source is Apt
                || source is Dnf) {
                single_owner(lossy_text(stdout), source is Apt)
            } else {
                None
            },
            ReplyView::Failed { reason } => None,
        },
{
}

/// The explicitly installed packages are those that the answer lists, where it was
/// answered well; else there is a reason.
pub proof fn explicit_packages_are_those_listed(source: ApplicationSource, reply: ReplyView)
    requires
        source is Pacman || source is Apt || source is Dnf,
    ensures
        match reply {
            ReplyView::Finished { success, status, stdout, stderr } => if success {
                explicit_packages(source, reply) == Ok::<Seq<Seq<char>>, Seq<char>>(
                    package_listing(lossy_text(stdout)),
                )
            } else {
                explicit_packages(source, reply) is Err
            },
            ReplyView::Failed { reason } => explicit_packages(source, reply) == Err::<Seq<Seq<char>>, Seq<char>>(
                reason,
            ),
        },
{
}

/// A command that ran and failed is told of with all that it was asked, its status, and
/// what it complained of; one that could not be run, with the reason.
pub proof fn failures_are_told_in_full(command: CommandView, reply: ReplyView)
    ensures
        match reply {
            ReplyView::Finished { success, status, stdout, stderr } => outcome_of(command, reply) == if success {
                Ok::<Seq<char>, Seq<char>>(lossy_text(stdout))
            } else {
                Err(
                    command.program + " "@ + spaced(command.args) + " exited with "@ + status + ": "@ + trimmed(
                        lossy_text(stderr),
                    ),
                )
            },
            ReplyView::Failed { reason } => outcome_of(command, reply) == Err::<Seq<char>, Seq<char>>(reason),
        },
{
}

/// Words are written one behind the other, with one space between any two.
pub proof fn words_are_written_with_spaces(words: Seq<Seq<char>>, word: Seq<char>)
    ensures
        spaced(Seq::empty()) == Seq::<char>::empty(),
        spaced(seq![word]) == word,
        words.len() > 0 ==> spaced(words.push(word)) == spaced(words) + " "@ + word,
{
    assert(words.push(word).drop_last() =~= words);
}

proof fn lemma_details(
    source: ApplicationSource,
    packages: Seq<Seq<char>>,
    replies: DetailReplies,
    n: nat,
    i: int,
)
    requires
        packages.no_duplicates(),
        n <= packages.len(),
        0 <= i < packages.len(),
    ensures
        ({
            let batch = batch_details(source, packages, replies);
            let known = details_after(source, packages, replies, n);
            let package = packages[i];
            &&& batch.contains_key(package) ==> known.contains_key(package) && known[package] == batch[package]
            &&& !batch.contains_key(package) && i < n ==> match package_details(source, package, replies.single[i]) {
                Some(details) => known.contains_key(package) && known[package] == details,
                None => !known.contains_key(package),
            }
            &&& !batch.contains_key(package) && n <= i ==> !known.contains_key(package)
        }),
    decreases n,
{
    if n > 0 {
        lemma_details(source, packages, replies, (n - 1) as nat, i);
        if i != n - 1 {
            assert(packages[i] != packages[n - 1]);
        }
    }
}

/// The details of a package are what the answer for all packages gives of it, and else
/// what the answer for this one gives. Debian counts sizes in kibibytes, the others in
/// bytes, and pacman writes them out. Where neither was answered well, they are not
/// known.
pub proof fn details_are_what_the_answers_give(
    source: ApplicationSource,
    packages: Seq<Seq<char>>,
    replies: DetailReplies,
    i: int,
)
    requires
        source is Pacman || source is Apt || source is Dnf,
        packages.no_duplicates(),
        0 <= i < packages.len(),
    ensures
        ({
            let package = packages[i];
            let listed = match replies.batch {
                ReplyView::Finished { success, status, stdout, stderr } => if success {
                    match source {
                        ApplicationSource::Pacman => pacman_detail_map(lossy_text(stdout)),
                        ApplicationSource::Apt => tab_detail_map(lossy_text(stdout), 1024),
                        _ => tab_detail_map(lossy_text(stdout), 1),
                    }
                } else {
                    Map::empty()
                },
                ReplyView::Failed { reason } => Map::empty(),
            };
            let known = details_of(source, packages, replies);
            if listed.contains_key(package) {
                known.contains_key(package) && known[package] == listed[package]
            } else {
                match replies.single[i] {
                    ReplyView::Finished { success, status, stdout, stderr } => if success {
                        known.contains_key(package) && known[package] == match source {
                            ApplicationSource::Pacman => pacman_details(lossy_text(stdout)),
                            ApplicationSource::Apt => tab_details(lossy_text(stdout), 1024),
                            _ => tab_details(lossy_text(stdout), 1),
                        }
                    } else {
                        !known.contains_key(package)
                    },
                    ReplyView::Failed { reason } => !known.contains_key(package),
                }
            }
        }),
{
    lemma_details(source, packages, replies, packages.len(), i);
}

/// The questions that are put to pacman, apt and dpkg, and dnf and rpm; Flatpak is asked
/// one question of its own. None of them runs as root.
pub proof fn questions_are_these_commands(
    entries: Seq<DesktopView>,
    path: PathView,
    packages: Seq<Seq<char>>,
    package: Seq<char>,
)
    ensures
        ({
            let ask = |program: Seq<char>, args: Seq<Seq<char>>|
                Some(CommandView { program, args, requires_root: false });
            let files = Seq::new(entries.len(), |i: int| lossy_text(entries[i].path.bytes));
            let file = lossy_text(path.bytes);
            &&& explicit_question(ApplicationSource::Pacman) == ask("pacman"@, seq!["-Qqe"@])
            &&& explicit_question(ApplicationSource::Apt) == ask("apt-mark"@, seq!["showmanual"@])
            &&& explicit_question(ApplicationSource::Dnf) == ask(
                "dnf"@,
                seq!["repoquery"@, "--installed"@, "--userinstalled"@, "--qf"@, "%{name}"@],
            )
            &&& owners_question(ApplicationSource::Pacman, entries) == ask("pacman"@, seq!["-Qo"@] + files)
            &&& owners_question(ApplicationSource::Apt, entries) == ask("dpkg-query"@, seq!["-S"@] + files)
            &&& owners_question(ApplicationSource::Dnf, entries) is None
            &&& owner_question(ApplicationSource::Pacman, path) == ask("pacman"@, seq!["-Qqo"@, file])
            &&& owner_question(ApplicationSource::Apt, path) == ask("dpkg-query"@, seq!["-S"@, file])
            &&& owner_question(ApplicationSource::Dnf, path) == ask(
                "rpm"@,
                seq!["-qf"@, "--qf"@, "%{NAME}\n"@, file],
            )
            &&& details_question(ApplicationSource::Pacman, packages) == ask(
                "pacman"@,
                seq!["-Qi"@, "--"@] + packages,
            )
            &&& details_question(ApplicationSource::Apt, packages) == ask(
                "dpkg-query"@,
                seq!["-W"@, "-f=${Package}\t${Version}\t${Installed-Size}\n"@] + packages,
            )
            &&& details_question(ApplicationSource::Dnf, packages) == ask(
                "rpm"@,
                seq!["-q"@, "--qf"@, "%{NAME}\t%{VERSION}-%{RELEASE}\t%{SIZE}\n"@] + packages,
            )
            &&& detail_question(ApplicationSource::Pacman, package) == ask("pacman"@, seq!["-Qi"@, "--"@, package])
            &&& detail_question(ApplicationSource::Apt, package) == ask(
                "dpkg-query"@,
                seq!["-W"@, "-f=${Version}\t${Installed-Size}\n"@, package],
            )
            &&& detail_question(ApplicationSource::Dnf, package) == ask(
                "rpm"@,
                seq!["-q"@, "--qf"@, "%{VERSION}-%{RELEASE}\t%{SIZE}\n"@, package],
            )
            &&& Some(flatpak_question()) == ask(
                "flatpak"@,
                seq!["list"@, "--app"@, "--columns=application,name,version,size,installation"@],
            )
        }),
{
    let files = Seq::new(entries.len(), |i: int| lossy_text(entries[i].path.bytes));
    assert(crate::answers::path_texts(entries) =~= files);
}

/// Arch asks pacman, Debian APT, and Fedora DNF; other distributions ask none of them.
pub proof fn distributions_ask_their_own_package_manager()
    ensures
        native_source(DistroFamily::Arch) == Some(ApplicationSource::Pacman),
        native_source(DistroFamily::Debian) == Some(ApplicationSource::Apt),
        native_source(DistroFamily::Fedora) == Some(ApplicationSource::Dnf),
        native_source(DistroFamily::Unsupported) is None,
{
}

/// A report warns where the distribution has no package manager that is known, where that
/// does not list its packages, and where Flatpak does not list its applications; of
/// nothing else, and in this order. It bears the name of the distribution.
pub proof fn reports_warn_of_what_was_not_listed(
    family: DistroFamily,
    name: Seq<char>,
    home: PathView,
    entries: Seq<DesktopView>,
    replies: Replies,
)
    ensures
        ({
            let report = report_of(family, name, home, entries, replies);
            let native = match native_source(family) {
                None => seq![
                    name
                        + " does not have a native package uninstall provider; Flatpak applications are still available"@,
                ],
                Some(source) => match explicit_packages(source, replies.native.explicit) {
                    Ok(_) => Seq::empty(),
                    Err(reason) => seq!["failed to list explicitly installed packages: "@ + reason],
                },
            };
            let flatpak = match outcome_of(flatpak_question(), replies.flatpak) {
                Ok(_) => Seq::empty(),
                Err(reason) => seq!["failed to list Flatpak applications: "@ + reason],
            };
            report.warnings == native + flatpak && report.distribution == name
        }),
{
}

/// Where a package manager does not list its packages, nothing of it is found; and the
/// Flatpak applications are those of the lines that were printed.
pub proof fn nothing_is_found_where_nothing_was_listed(
    source: ApplicationSource,
    home: PathView,
    entries: Seq<DesktopView>,
    replies: Replies,
)
    ensures
        explicit_packages(source, replies.native.explicit) is Err ==> native_applications(
            source,
            entries,
            replies.native,
        ).len() == 0,
        match outcome_of(flatpak_question(), replies.flatpak) {
            Ok(text) => flatpak_applications(home, replies.flatpak) == flatpak_lines(home, lines_of(text)),
            Err(_) => flatpak_applications(home, replies.flatpak).len() == 0,
        },
{
}

/// What is found is what the package manager of the distribution has, and behind it what
/// Flatpak has.
pub proof fn both_kinds_of_applications_are_found(
    family: DistroFamily,
    home: PathView,
    entries: Seq<DesktopView>,
    replies: Replies,
)
    ensures
        found_applications(family, home, entries, replies) == (match native_source(family) {
            Some(source) => native_applications(source, entries, replies.native),
            None => Seq::empty(),
        }) + flatpak_applications(home, replies.flatpak),
{
    let flatpaks = flatpak_applications(home, replies.flatpak);
    assert(Seq::<PendingView>::empty() + flatpaks =~= flatpaks);
}

/// A report goes by the names of applications, whatever their case, and those of one name
/// by identifier.
pub proof fn reports_go_by_name(
    family: DistroFamily,
    name: Seq<char>,
    home: PathView,
    entries: Seq<DesktopView>,
    replies: Replies,
    i: int,
    j: int,
)
    requires
        0 <= i < j < report_of(family, name, home, entries, replies).applications.len(),
    ensures
        ({
            let report = report_of(family, name, home, entries, replies).applications;
            &&& text_le(lower(report[i].name), lower(report[j].name))
            &&& lower(report[i].name) == lower(report[j].name) ==> text_le(report[i].id, report[j].id)
        }),
{
    let report = report_of(family, name, home, entries, replies).applications;
    reports_are_ordered(family, name, home, entries, replies, i, j);
    crate::text::text_order_is_total(lower(report[i].name), lower(report[j].name));
}

/// Once it has been measured, an application is what was found of it. A size in bytes
/// stands as it was reported, any other as it was measured. The data of a user counts
/// where the application keeps any, and their directory is listed where it exists.
pub proof fn measuring_changes_only_what_was_open(pending: Seq<PendingView>, measured: Seq<Measurement>, i: int)
    requires
        0 <= i < pending.len() == measured.len(),
    ensures
        completed_all(pending, measured).len() == pending.len(),
        ({
            let (before, after) = (pending[i], completed_all(pending, measured)[i]);
            &&& after.id == before.id
            &&& after.name == before.name
            &&& after.package == before.package
            &&& after.version == before.version
            &&& after.source == before.source
            &&& after.desktop_file == before.desktop_file
            &&& after.installed_bytes == match before.installed {
                SizeView::Bytes(bytes) => bytes,
                _ => measured[i].installed_bytes,
            }
            &&& after.user_data_bytes == if before.data_path is Some {
                measured[i].data_bytes
            } else {
                0
            }
            &&& after.user_data_paths == if before.data_path is Some && measured[i].data_exists {
                seq![before.data_path->0]
            } else {
                Seq::empty()
            }
        }),
{
}

/// The names of the sources, as they are shown and as identifiers begin with them.
pub proof fn sources_have_these_names(package: Seq<char>)
    ensures
        source_title(ApplicationSource::Pacman) == "pacman"@,
        source_title(ApplicationSource::Apt) == "APT"@,
        source_title(ApplicationSource::Dnf) == "DNF"@,
        source_title(ApplicationSource::FlatpakUser) == "Flatpak (user)"@,
        source_title(ApplicationSource::FlatpakSystem) == "Flatpak (system)"@,
        application_id(ApplicationSource::Pacman, package) == "pacman"@ + ":"@ + package,
        application_id(ApplicationSource::Apt, package) == "apt"@ + ":"@ + package,
        application_id(ApplicationSource::Dnf, package) == "dnf"@ + ":"@ + package,
        application_id(ApplicationSource::FlatpakUser, package) == "flatpak-user"@ + ":"@ + package,
        application_id(ApplicationSource::FlatpakSystem, package) == "flatpak-system"@ + ":"@ + package,
{
}

/// A catalog needs no other commands: a runner that may be handed the questions for
/// packages, owners and details of the package manager that the distribution has, and the
/// one question for Flatpak, may be handed all that the catalog asks.
pub proof fn catalogs_need_no_other_commands<R: CommandRunner>(
    runner: R,
    family: DistroFamily,
    entries: Seq<DesktopView>,
)
    requires
        runner.may_run(flatpak_question()),
        match native_source(family) {
            Some(source) => {
                &&& match explicit_question(source) {
                    Some(command) => runner.may_run(command),
                    None => true,
                }
                &&& match owners_question(source, entries) {
                    Some(command) => runner.may_run(command),
                    None => true,
                }
                &&& forall|i: int|
                    0 <= i < entries.len() ==> match #[trigger] owner_question(source, entries[i].path) {
                        Some(command) => runner.may_run(command),
                        None => true,
                    }
                &&& forall|packages: Seq<Seq<char>>|
                    packages.len() > 0 ==> match #[trigger] details_question(source, packages) {
                        Some(command) => runner.may_run(command),
                        None => true,
                    }
                &&& forall|package: Seq<char>|
                    match #[trigger] detail_question(source, package) {
                        Some(command) => runner.may_run(command),
                        None => true,
                    }
            },
            None => true,
        },
    ensures
        only_asks(runner, family, entries),
{
}

/// What a report goes by was answered by the runner: Flatpak was asked; the package manager
/// for the explicitly installed packages; where they were listed, for the owners of all
/// desktop entries, where it takes that question, and of each that this left open; and
/// for the details of all packages that are to be reported, and of each that this left
/// open.
pub proof fn reports_go_by_what_was_answered<R: CommandRunner>(
    runner: R,
    family: DistroFamily,
    entries: Seq<DesktopView>,
    replies: Replies,
    i: int,
)
    requires
        answered(runner, family, entries, replies),
    ensures
        runner.may_reply(flatpak_question(), replies.flatpak),
        match native_source(family) {
            Some(source) => {
                let applications = native_applications(source, entries, replies.native);
                let packages = Seq::new(applications.len(), |k: int| applications[k].package);
                let listed = explicit_packages(source, replies.native.explicit) is Ok;
                let owners = replies.native.owners;
                let details = replies.native.details;
                &&& runner.may_reply(explicit_question(source)->0, replies.native.explicit)
                &&& listed && entries.len() > 0 && owners_question(source, entries) is Some ==> runner.may_reply(
                    owners_question(source, entries)->0,
                    owners.batch,
                )
                &&& listed && 0 <= i < entries.len() && !batch_owners(source, entries, owners).contains_key(
                    entries[i].path.route(),
                ) && (forall|k: int|
                    0 <= k < i ==> (#[trigger] entries[k]).path.route() != entries[i].path.route())
                    ==> runner.may_reply(owner_question(source, entries[i].path)->0, owners.single[i])
                &&& listed && packages.len() > 0 ==> runner.may_reply(
                    details_question(source, packages)->0,
                    details.batch,
                )
                &&& listed && 0 <= i < packages.len() && !batch_details(source, packages, details).contains_key(
                    packages[i],
                ) ==> runner.may_reply(detail_question(source, packages[i])->0, details.single[i])
            },
            None => true,
        },
{
    if let Some(source) = native_source(family) {
        let applications = native_applications(source, entries, replies.native);
        let packages = Seq::new(applications.len(), |k: int| applications[k].package);
        let candidates = native_candidates(source, entries, replies.native);
        assert(packages =~= candidate_packages(candidates));
        if explicit_packages(source, replies.native.explicit) is Ok {
            if 0 <= i < entries.len() {
                let file = entries[i].path.route();
                lemma_owners(source, entries, replies.native.owners, i as nat, file);
                assert(owner_answered(runner, source, entries, replies.native.owners, i));
                if forall|k: int| 0 <= k < i ==> (#[trigger] entries[k]).path.route() != file {
                    assert forall|k: int| 0 <= k < i implies !#[trigger] told(
                        source,
                        entries,
                        replies.native.owners,
                        file,
                        k,
                    ) by {
                        assert(entries[k].path.route() != file);
                    }
                }
            }
            assert forall|a: int, b: int|
                0 <= a < packages.len() && 0 <= b < packages.len() && a != b implies packages[a] != packages[b] by {
                if a < b {
                    native_packages_appear_once(source, entries, replies.native, a, b);
                } else {
                    native_packages_appear_once(source, entries, replies.native, b, a);
                }
            }
            if 0 <= i < packages.len() {
                lemma_details(source, packages, replies.native.details, i as nat, i);
                assert(detail_answered(runner, source, packages, replies.native.details, i));
            }
        }
    }
}

} // verus!
