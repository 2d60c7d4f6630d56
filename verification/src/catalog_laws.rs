//! What holds of every report of a catalog, whatever the package managers
//! answered.

use vstd::prelude::*;
use vstd::utf8::{
    encode_utf8, encode_utf8_decode_utf8, encode_utf8_first_scalar, is_ascii_chars, is_ascii_chars_encode_utf8,
};

use crate::answers::{
    candidate_packages, candidates_after, explicit_packages, explicit_question, flatpak_applications, flatpak_data,
    flatpak_lines, flatpak_question, found_applications, native_applications, native_candidates, native_source,
    only_asks, owners_of, report_of, without_repeats, NativeReplies, Replies,
};
use crate::command::{outcome_of, CommandRunner, CommandView};
use crate::desktop::DesktopView;
use crate::distro::DistroFamily;
use crate::listings::package_lines;
use crate::order::{
    order_of, ranked_is_total_preorder, sorted_is_ordered, sorting_keeps_elements, stable_sorted, Ranked,
};
use crate::packages::{is_identifier_char, protected_package, valid_identifier};
use crate::path::{
    joining_keeps_the_components, joining_puts_components_behind, path_of, prefixes_are_transitive, single_components,
    single_segments, texts_without_a_root_are_relative, PathView, Route,
};
use crate::text::{fields, lines_of, lower, text_le, text_order_is_total, trim_start, trimmed};
use crate::uninstall::{application_id, source_slug, ApplicationSource, PendingApplication, PendingView};

verus! {

proof fn lemma_package_lines_valid(listing: Seq<Seq<char>>)
    ensures
        forall|i: int|
            0 <= i < package_lines(listing).len() ==> valid_identifier(
                #[trigger] package_lines(listing)[i],
            ),
    decreases listing.len(),
{
    if listing.len() > 0 {
        lemma_package_lines_valid(listing.drop_last());
        let front = package_lines(listing.drop_last());
        let all = package_lines(listing);
        assert forall|i: int| 0 <= i < all.len() implies valid_identifier(#[trigger] all[i]) by {
            if i < front.len() {
                assert(all[i] == front[i]);
            }
        }
    }
}

proof fn lemma_candidates(
    entries: Seq<DesktopView>,
    owners: Map<Route, Seq<char>>,
    explicit: Seq<Seq<char>>,
    n: nat,
)
    requires
        n <= entries.len(),
    ensures
        forall|k: int|
            0 <= k < candidates_after(entries, owners, explicit, n).len() ==> {
                let c = #[trigger] candidates_after(entries, owners, explicit, n)[k];
                &&& entries.contains(c.entry)
                &&& owners.contains_key(c.entry.path.route())
                &&& owners[c.entry.path.route()] == c.package
                &&& explicit.contains(c.package)
                &&& !protected_package(c.package)
            },
        candidate_packages(candidates_after(entries, owners, explicit, n)).no_duplicates(),
    decreases n,
{
    if n > 0 {
        lemma_candidates(entries, owners, explicit, (n - 1) as nat);
        let front = candidates_after(entries, owners, explicit, (n - 1) as nat);
        let now = candidates_after(entries, owners, explicit, n);
        assert(entries.contains(entries[n - 1]));
        if now.len() > front.len() {
            let package = owners[entries[n - 1].path.route()];
            assert(candidate_packages(now) =~= candidate_packages(front).push(package));
        }
    }
}

/// A native application is one that was installed on purpose and may go: its
/// package is well formed, explicitly installed, not protected, and owns the
/// desktop entry that gave the name.
pub proof fn native_applications_are_explicit_and_unprotected(
    source: ApplicationSource,
    entries: Seq<DesktopView>,
    replies: NativeReplies,
    i: int,
)
    requires
        source is Pacman || source is Apt || source is Dnf,
        0 <= i < native_applications(source, entries, replies).len(),
    ensures
        ({
            let application = native_applications(source, entries, replies)[i];
            &&& explicit_packages(source, replies.explicit) is Ok
            &&& explicit_packages(source, replies.explicit)->Ok_0.contains(application.package)
            &&& valid_identifier(application.package)
            &&& !protected_package(application.package)
            &&& application.id == application_id(source, application.package)
            &&& application.data_path is None
            &&& exists|j: int|
                0 <= j < entries.len() && (#[trigger] entries[j]).name == application.name
                    && application.desktop_file == Some(entries[j].path) && owners_of(
                    source,
                    entries,
                    replies.owners,
                ).contains_key(entries[j].path.route())
                    && owners_of(source, entries, replies.owners)[entries[j].path.route()] == application.package
        }),
{
    let explicit = explicit_packages(source, replies.explicit)->Ok_0;
    lemma_candidates(entries, owners_of(source, entries, replies.owners), explicit, entries.len());
    let c = native_candidates(source, entries, replies)[i];
    let text = outcome_of(explicit_question(source)->0, replies.explicit)->Ok_0;
    lemma_package_lines_valid(lines_of(text));
    let j = choose|j: int| 0 <= j < entries.len() && entries[j] == c.entry;
    assert(entries[j].name == c.entry.name);
}

/// No package stands for two native applications.
pub proof fn native_packages_appear_once(
    source: ApplicationSource,
    entries: Seq<DesktopView>,
    replies: NativeReplies,
    i: int,
    j: int,
)
    requires
        0 <= i < j < native_applications(source, entries, replies).len(),
    ensures
        native_applications(source, entries, replies)[i].package != native_applications(
            source,
            entries,
            replies,
        )[j].package,
{
    let explicit = explicit_packages(source, replies.explicit)->Ok_0;
    lemma_candidates(entries, owners_of(source, entries, replies.owners), explicit, entries.len());
    let packages = candidate_packages(native_candidates(source, entries, replies));
    assert(packages[i] != packages[j]);
}

proof fn lemma_slug_has_no_colon(source: ApplicationSource)
    ensures
        forall|i: int| 0 <= i < source_slug(source).len() ==> source_slug(source)[i] != ':',
{
    reveal_strlit("pacman");
    reveal_strlit("apt");
    reveal_strlit("dnf");
    reveal_strlit("flatpak-user");
    reveal_strlit("flatpak-system");
}

proof fn lemma_slugs_differ(a: ApplicationSource, b: ApplicationSource)
    requires
        source_slug(a) == source_slug(b),
    ensures
        a == b,
{
    reveal_strlit("pacman");
    reveal_strlit("apt");
    reveal_strlit("dnf");
    reveal_strlit("flatpak-user");
    reveal_strlit("flatpak-system");
    let (x, y) = (source_slug(a), source_slug(b));
    assert(x.len() == y.len());
    assert(x[0] == y[0]);
}

/// An identifier belongs to one source and one package.
pub proof fn identifiers_are_distinct(
    a: ApplicationSource,
    a_package: Seq<char>,
    b: ApplicationSource,
    b_package: Seq<char>,
)
    requires
        application_id(a, a_package) == application_id(b, b_package),
    ensures
        a == b,
        a_package == b_package,
{
    reveal_strlit(":");
    lemma_slug_has_no_colon(a);
    lemma_slug_has_no_colon(b);
    let (x, y) = (source_slug(a), source_slug(b));
    let id = application_id(a, a_package);
    let other = application_id(b, b_package);
    assert(id[x.len() as int] == ':');
    assert(other[y.len() as int] == ':');
    assert(x.len() == y.len()) by {
        if x.len() < y.len() {
            assert(other[x.len() as int] == y[x.len() as int]);
        } else if y.len() < x.len() {
            assert(id[y.len() as int] == x[y.len() as int]);
        }
    }
    assert(x =~= id.take(x.len() as int));
    assert(y =~= other.take(y.len() as int));
    lemma_slugs_differ(a, b);
    assert(a_package =~= id.skip(x.len() as int + 1));
    assert(b_package =~= other.skip(y.len() as int + 1));
}

proof fn lemma_repeats_last(s: Seq<PendingView>)
    requires
        s.len() > 0,
    ensures
        without_repeats(s).len() > 0,
        without_repeats(s).last().id == s.last().id,
{
}

proof fn lemma_repeats_from(s: Seq<PendingView>, i: int) -> (k: int)
    requires
        0 <= i < without_repeats(s).len(),
    ensures
        0 <= k < s.len(),
        s[k] == without_repeats(s)[i],
    decreases s.len(),
{
    let front = without_repeats(s.drop_last());
    if i < front.len() {
        let k = lemma_repeats_from(s.drop_last(), i);
        assert(s.drop_last()[k] == s[k]);
        k
    } else {
        s.len() - 1
    }
}

proof fn lemma_repeats_cover(s: Seq<PendingView>, i: int) -> (k: int)
    requires
        0 <= i < s.len(),
    ensures
        0 <= k < without_repeats(s).len(),
        without_repeats(s)[k].id == s[i].id,
    decreases s.len(),
{
    let front = without_repeats(s.drop_last());
    if i < s.len() - 1 {
        let k = lemma_repeats_cover(s.drop_last(), i);
        assert(without_repeats(s)[k] == front[k]);
        k
    } else {
        lemma_repeats_last(s);
        without_repeats(s).len() - 1
    }
}

proof fn lemma_repeats_differ(s: Seq<PendingView>, i: int, j: int)
    requires
        0 <= i,
        j == i + 1,
        j < without_repeats(s).len(),
    ensures
        without_repeats(s)[i].id != without_repeats(s)[j].id,
    decreases s.len(),
{
    let front = without_repeats(s.drop_last());
    if j < front.len() {
        lemma_repeats_differ(s.drop_last(), i, j);
    }
}

proof fn lemma_repeats_ordered(s: Seq<PendingView>, leq: spec_fn(PendingView, PendingView) -> bool, i: int, j: int)
    requires
        forall|i: int, j: int| 0 <= i < j < s.len() ==> leq(#[trigger] s[i], #[trigger] s[j]),
        0 <= i < j < without_repeats(s).len(),
    ensures
        leq(without_repeats(s)[i], without_repeats(s)[j]),
    decreases s.len(),
{
    let rest = s.drop_last();
    let front = without_repeats(rest);
    if j < front.len() {
        assert forall|a: int, b: int| 0 <= a < b < rest.len() implies leq(#[trigger] rest[a], #[trigger] rest[b]) by {
            assert(leq(s[a], s[b]));
        }
        lemma_repeats_ordered(rest, leq, i, j);
    } else {
        let k = lemma_repeats_from(rest, i);
        assert(rest[k] == s[k]);
        assert(leq(s[k], s[s.len() - 1]));
    }
}

/// A report lists applications by name and then by identifier.
pub proof fn reports_are_ordered(
    family: DistroFamily,
    name: Seq<char>,
    home: PathView,
    entries: Seq<DesktopView>,
    replies: Replies,
    i: int,
    j: int,
)
    requires
        0 <= i < j < report_of(family, name, home, entries, replies).applications.len(),
    ensures
        PendingApplication::in_order(
            report_of(family, name, home, entries, replies).applications[i],
            report_of(family, name, home, entries, replies).applications[j],
        ),
{
    let leq = order_of::<PendingApplication>();
    let found = found_applications(family, home, entries, replies);
    let sorted = stable_sorted(found, leq);
    ranked_is_total_preorder::<PendingApplication>();
    sorted_is_ordered(found, leq);
    lemma_repeats_ordered(sorted, leq, i, j);
    assert(leq(without_repeats(sorted)[i], without_repeats(sorted)[j]));
}

/// No two neighbours in a report have the same identifier.
pub proof fn reports_repeat_no_neighbour(
    family: DistroFamily,
    name: Seq<char>,
    home: PathView,
    entries: Seq<DesktopView>,
    replies: Replies,
    i: int,
)
    requires
        0 <= i < report_of(family, name, home, entries, replies).applications.len() - 1,
    ensures
        report_of(family, name, home, entries, replies).applications[i].id != report_of(
            family,
            name,
            home,
            entries,
            replies,
        ).applications[i + 1].id,
{
    let found = found_applications(family, home, entries, replies);
    lemma_repeats_differ(stable_sorted(found, order_of::<PendingApplication>()), i, i + 1);
}

/// A report holds only applications that were found.
pub proof fn reports_invent_nothing(
    family: DistroFamily,
    name: Seq<char>,
    home: PathView,
    entries: Seq<DesktopView>,
    replies: Replies,
    i: int,
)
    requires
        0 <= i < report_of(family, name, home, entries, replies).applications.len(),
    ensures
        found_applications(family, home, entries, replies).contains(
            report_of(family, name, home, entries, replies).applications[i],
        ),
{
    broadcast use vstd::seq_lib::group_to_multiset_ensures;

    let leq = order_of::<PendingApplication>();
    let found = found_applications(family, home, entries, replies);
    let sorted = stable_sorted(found, leq);
    sorting_keeps_elements(found, leq);
    let k = lemma_repeats_from(sorted, i);
    assert(sorted.contains(sorted[k]));
    assert(sorted.to_multiset().contains(sorted[k]));
}

/// Of each application that was found, a report holds one with its identifier.
pub proof fn reports_lose_nothing(
    family: DistroFamily,
    name: Seq<char>,
    home: PathView,
    entries: Seq<DesktopView>,
    replies: Replies,
    i: int,
)
    requires
        0 <= i < found_applications(family, home, entries, replies).len(),
    ensures
        exists|j: int|
            0 <= j < report_of(family, name, home, entries, replies).applications.len() && (#[trigger] report_of(
                family,
                name,
                home,
                entries,
                replies,
            ).applications[j]).id == found_applications(family, home, entries, replies)[i].id,
{
    broadcast use vstd::seq_lib::group_to_multiset_ensures;

    let leq = order_of::<PendingApplication>();
    let found = found_applications(family, home, entries, replies);
    let sorted = stable_sorted(found, leq);
    sorting_keeps_elements(found, leq);
    assert(found.contains(found[i]));
    assert(found.to_multiset().contains(found[i]));
    assert(sorted.contains(found[i]));
    let k = choose|k: int| 0 <= k < sorted.len() && sorted[k] == found[i];
    let j = lemma_repeats_cover(sorted, k);
    assert(report_of(family, name, home, entries, replies).applications[j].id == found[i].id);
}

proof fn lemma_flatpak_lines(home: PathView, listing: Seq<Seq<char>>)
    ensures
        forall|i: int|
            0 <= i < flatpak_lines(home, listing).len() ==> {
                let application = #[trigger] flatpak_lines(home, listing)[i];
                &&& application.source is FlatpakUser || application.source is FlatpakSystem
                &&& valid_identifier(application.package)
                &&& application.id == application_id(application.source, application.package)
                &&& application.data_path == Some(flatpak_data(home, application.package))
                &&& application.desktop_file is None
            },
    decreases listing.len(),
{
    if listing.len() > 0 {
        lemma_flatpak_lines(home, listing.drop_last());
        let front = flatpak_lines(home, listing.drop_last());
        let all = flatpak_lines(home, listing);
        assert forall|i: int| 0 <= i < all.len() implies {
            let application = #[trigger] all[i];
            &&& application.source is FlatpakUser || application.source is FlatpakSystem
            &&& valid_identifier(application.package)
            &&& application.id == application_id(application.source, application.package)
            &&& application.data_path == Some(flatpak_data(home, application.package))
            &&& application.desktop_file is None
        } by {
            if i < front.len() {
                assert(all[i] == front[i]);
            } else {
                let package = fields(listing.last(), "\t"@)[0];
                assert(is_identifier_char(package[0]));
                assert(is_identifier_char(package[package.len() - 1]));
                assert(trim_start(package) == package);
                assert(trimmed(package) == package);
            }
        }
    }
}

/// Whatever the package managers answer, a report offers no protected package of
/// the distribution for removal; its native applications come from the package
/// manager of the distribution, and every application has a package with a valid
/// name, and the identifier of its source and package.
pub proof fn reports_offer_no_protected_package(
    family: DistroFamily,
    name: Seq<char>,
    home: PathView,
    entries: Seq<DesktopView>,
    replies: Replies,
    i: int,
)
    requires
        0 <= i < report_of(family, name, home, entries, replies).applications.len(),
    ensures
        ({
            let application = report_of(family, name, home, entries, replies).applications[i];
            &&& valid_identifier(application.package)
            &&& application.id == application_id(application.source, application.package)
            &&& application.source is FlatpakUser || application.source is FlatpakSystem || {
                &&& native_source(family) == Some(application.source)
                &&& !protected_package(application.package)
                &&& application.data_path is None
            }
        }),
{
    reports_invent_nothing(family, name, home, entries, replies, i);
    let application = report_of(family, name, home, entries, replies).applications[i];
    let found = found_applications(family, home, entries, replies);
    let k = choose|k: int| 0 <= k < found.len() && found[k] == application;
    let flatpaks = flatpak_applications(home, replies.flatpak);
    if let Ok(text) = outcome_of(flatpak_question(), replies.flatpak) {
        lemma_flatpak_lines(home, lines_of(text));
    }
    match native_source(family) {
        Some(source) => {
            let native = native_applications(source, entries, replies.native);
            if k < native.len() {
                native_applications_are_explicit_and_unprotected(source, entries, replies.native, k);
            } else {
                assert(found[k] == flatpaks[k - native.len()]);
            }
        },
        None => {
            assert(found[k] == flatpaks[k]);
        },
    }
}

proof fn lemma_identifier_bytes(package: Seq<char>)
    requires
        valid_identifier(package),
    ensures
        encode_utf8(package).len() > 0,
        !encode_utf8(package).contains(47u8),
        !path_of(package).absolute(),
{
    assert forall|i: int| 0 <= i < package.len() implies '\0' <= #[trigger] package[i] <= '\u{7f}' by {
        assert(is_identifier_char(package[i]));
    }
    assert(is_ascii_chars(package));
    is_ascii_chars_encode_utf8(package);
    if encode_utf8(package).contains(47u8) {
        let i = choose|i: int| 0 <= i < encode_utf8(package).len() && encode_utf8(package)[i] == 47u8;
        assert(is_identifier_char(package[i]));
    }
    assert(is_identifier_char(package[0]));
    texts_without_a_root_are_relative(package);
}

/// The directory in which a Flatpak application keeps the data of a user has the
/// components of the one for all such data and, behind them, the identifier and
/// nothing else, whatever Flatpak lists. Only the components are compared: the
/// identifier `.` adds none, and `..` is an identifier too, which leads out again.
pub proof fn flatpak_data_has_one_more_component(home: PathView, listing: Seq<Seq<char>>, i: int)
    requires
        0 <= i < flatpak_lines(home, listing).len(),
    ensures
        ({
            let found = flatpak_lines(home, listing)[i];
            let all = home.join(path_of(".var/app"@));
            match found.data_path {
                Some(path) => {
                    &&& all.starts_with(home)
                    &&& path.starts_with(home)
                    &&& path.route().absolute == all.route().absolute
                    &&& path.route().parts == all.route().parts + if found.package == "."@ {
                        Seq::empty()
                    } else {
                        seq![encode_utf8(found.package)]
                    }
                },
                None => false,
            }
        }),
    decreases listing.len(),
{
    let front = flatpak_lines(home, listing.drop_last());
    if i < front.len() {
        flatpak_data_has_one_more_component(home, listing.drop_last(), i);
        assert(flatpak_lines(home, listing)[i] == front[i]);
    } else {
        let columns = fields(listing.last(), "\t"@);
        let package = columns[0];
        assert(is_identifier_char(package[0]));
        assert(is_identifier_char(package[package.len() - 1]));
        assert(trim_start(package) == package);
        assert(trimmed(package) == package);
        reveal_strlit(".var/app");
        texts_without_a_root_are_relative(".var/app"@);
        lemma_identifier_bytes(package);
        let all = home.join(path_of(".var/app"@));
        encode_utf8_first_scalar(".var/app"@);
        let own = path_of(package);
        joining_keeps_the_components(home, path_of(".var/app"@));
        joining_keeps_the_components(all, own);
        prefixes_are_transitive(home.route(), all.route(), all.join(own).route());
        assert(all.bytes.len() > 0);
        joining_puts_components_behind(all, own);
        single_segments(own.bytes);
        single_components(own.bytes, true);
        if package != "."@ && own.bytes == encode_utf8("."@) {
            encode_utf8_decode_utf8(package);
            encode_utf8_decode_utf8("."@);
        }
    }
}

/// A catalog only puts queries: a runner that may be handed every command which
/// does not run as root may be handed all that a catalog asks.
pub proof fn catalogs_only_put_queries<R: CommandRunner>(runner: R, family: DistroFamily, entries: Seq<DesktopView>)
    requires
        forall|command: CommandView| !command.requires_root ==> #[trigger] runner.may_run(command),
    ensures
        only_asks(runner, family, entries),
{
}

/// An application is dropped only where the one right before it has the same identifier;
/// those of one identifier that do not stand together are all kept.
pub proof fn only_neighbours_are_dropped(front: Seq<PendingView>, application: PendingView)
    ensures
        without_repeats(Seq::empty()).len() == 0,
        without_repeats(front.push(application)) == if front.len() > 0 && front.last().id == application.id {
            without_repeats(front)
        } else {
            without_repeats(front).push(application)
        },
{
    assert(front.push(application).drop_last() =~= front);
    if front.len() > 0 {
        lemma_repeats_last(front);
    }
}

/// A report holds what was found, in the order of names, without neighbours of one
/// identifier.
pub proof fn reports_hold_what_was_found_in_order(
    family: DistroFamily,
    name: Seq<char>,
    home: PathView,
    entries: Seq<DesktopView>,
    replies: Replies,
) -> (sorted: Seq<PendingView>)
    ensures
        sorted.to_multiset() == found_applications(family, home, entries, replies).to_multiset(),
        forall|i: int, j: int|
            0 <= i < j < sorted.len() ==> text_le(lower(#[trigger] sorted[i].name), lower(#[trigger] sorted[j].name)),
        report_of(family, name, home, entries, replies).applications == without_repeats(sorted),
{
    let leq = order_of::<PendingApplication>();
    let found = found_applications(family, home, entries, replies);
    let sorted = stable_sorted(found, leq);
    ranked_is_total_preorder::<PendingApplication>();
    sorted_is_ordered(found, leq);
    sorting_keeps_elements(found, leq);
    assert forall|i: int, j: int| 0 <= i < j < sorted.len() implies text_le(
        lower(#[trigger] sorted[i].name),
        lower(#[trigger] sorted[j].name),
    ) by {
        assert(leq(sorted[i], sorted[j]));
        text_order_is_total(lower(sorted[i].name), lower(sorted[j].name));
    }
    sorted
}

} // verus!
