//! What holds of every scan: what is offered, and when.

use vstd::prelude::*;

use crate::distro::DistroFamily;
use crate::model::{group_title, ActionView, CleanupGroup, CleanupItem, ItemView, Risk};
use crate::order::{order_of, ranked_is_total_preorder, sorted_is_ordered, sorting_keeps_elements, stable_sorted};
use crate::path::{path_of, PathView};
use crate::scanner::{
    cache_item, cache_items, caches_are_offered_where_they_take_up_room, complete_facts, container_items, dev_caches,
    docker_item, dotted, first_program, flatpak_item, group_bytes, groups_fit, has_group, lemma_no_group, offered,
    package_items, slug_of, sum_of, system_items, tallied, trash_items, user_caches, warned, CacheView, FactsView,
    PackageView,
};
use crate::text::text_le;

verus! {

/// The items of the report on a system of which these facts are known.
pub open spec fn scanned(home: PathView, facts: FactsView) -> Seq<ItemView> {
    stable_sorted(offered(home, facts), order_of::<CleanupItem>())
}

proof fn lemma_user_ids()
    ensures
        "user"@ + "."@ + dotted(".cache/yay"@) == "user..cache.yay"@,
        "user"@ + "."@ + dotted(".cache/paru"@) == "user..cache.paru"@,
        "user"@ + "."@ + dotted(".cache/thumbnails"@) == "user..cache.thumbnails"@,
        "user"@ + "."@ + dotted(".cache/mozilla"@) == "user..cache.mozilla"@,
        "user"@ + "."@ + dotted(".cache/chromium"@) == "user..cache.chromium"@,
        "user"@ + "."@ + dotted(".cache/google-chrome"@) == "user..cache.google-chrome"@,
        "user"@ + "."@ + dotted(".cache/BraveSoftware"@) == "user..cache.BraveSoftware"@,
        "user"@ + "."@ + dotted(".cache/vivaldi"@) == "user..cache.vivaldi"@,
        "user"@ + "."@ + dotted(".cache/opera"@) == "user..cache.opera"@,
{
    reveal_strlit("user");
    reveal_strlit(".");
    reveal_strlit(".cache/yay");
    reveal_strlit("user..cache.yay");
    assert("user"@ + "."@ + dotted(".cache/yay"@) =~= "user..cache.yay"@);
    reveal_strlit(".cache/paru");
    reveal_strlit("user..cache.paru");
    assert("user"@ + "."@ + dotted(".cache/paru"@) =~= "user..cache.paru"@);
    reveal_strlit(".cache/thumbnails");
    reveal_strlit("user..cache.thumbnails");
    assert("user"@ + "."@ + dotted(".cache/thumbnails"@) =~= "user..cache.thumbnails"@);
    reveal_strlit(".cache/mozilla");
    reveal_strlit("user..cache.mozilla");
    assert("user"@ + "."@ + dotted(".cache/mozilla"@) =~= "user..cache.mozilla"@);
    reveal_strlit(".cache/chromium");
    reveal_strlit("user..cache.chromium");
    assert("user"@ + "."@ + dotted(".cache/chromium"@) =~= "user..cache.chromium"@);
    reveal_strlit(".cache/google-chrome");
    reveal_strlit("user..cache.google-chrome");
    assert("user"@ + "."@ + dotted(".cache/google-chrome"@) =~= "user..cache.google-chrome"@);
    reveal_strlit(".cache/BraveSoftware");
    reveal_strlit("user..cache.BraveSoftware");
    assert("user"@ + "."@ + dotted(".cache/BraveSoftware"@) =~= "user..cache.BraveSoftware"@);
    reveal_strlit(".cache/vivaldi");
    reveal_strlit("user..cache.vivaldi");
    assert("user"@ + "."@ + dotted(".cache/vivaldi"@) =~= "user..cache.vivaldi"@);
    reveal_strlit(".cache/opera");
    reveal_strlit("user..cache.opera");
    assert("user"@ + "."@ + dotted(".cache/opera"@) =~= "user..cache.opera"@);
}

proof fn lemma_dev_ids()
    ensures
        "dev"@ + "."@ + dotted(".cache/pip"@) == "dev..cache.pip"@,
        "dev"@ + "."@ + dotted(".npm/_cacache"@) == "dev..npm._cacache"@,
        "dev"@ + "."@ + dotted(".cache/pnpm"@) == "dev..cache.pnpm"@,
        "dev"@ + "."@ + dotted(".cache/yarn"@) == "dev..cache.yarn"@,
        "dev"@ + "."@ + dotted(".cargo/registry/cache"@) == "dev..cargo.registry.cache"@,
        "dev"@ + "."@ + dotted(".cargo/registry/src"@) == "dev..cargo.registry.src"@,
        "dev"@ + "."@ + dotted(".cargo/git"@) == "dev..cargo.git"@,
        "dev"@ + "."@ + dotted("go/pkg/mod"@) == "dev.go.pkg.mod"@,
        "dev"@ + "."@ + dotted(".gradle/caches"@) == "dev..gradle.caches"@,
        "dev"@ + "."@ + dotted(".cache/composer"@) == "dev..cache.composer"@,
{
    reveal_strlit("dev");
    reveal_strlit(".");
    reveal_strlit(".cache/pip");
    reveal_strlit("dev..cache.pip");
    assert("dev"@ + "."@ + dotted(".cache/pip"@) =~= "dev..cache.pip"@);
    reveal_strlit(".npm/_cacache");
    reveal_strlit("dev..npm._cacache");
    assert("dev"@ + "."@ + dotted(".npm/_cacache"@) =~= "dev..npm._cacache"@);
    reveal_strlit(".cache/pnpm");
    reveal_strlit("dev..cache.pnpm");
    assert("dev"@ + "."@ + dotted(".cache/pnpm"@) =~= "dev..cache.pnpm"@);
    reveal_strlit(".cache/yarn");
    reveal_strlit("dev..cache.yarn");
    assert("dev"@ + "."@ + dotted(".cache/yarn"@) =~= "dev..cache.yarn"@);
    reveal_strlit(".cargo/registry/cache");
    reveal_strlit("dev..cargo.registry.cache");
    assert("dev"@ + "."@ + dotted(".cargo/registry/cache"@) =~= "dev..cargo.registry.cache"@);
    reveal_strlit(".cargo/registry/src");
    reveal_strlit("dev..cargo.registry.src");
    assert("dev"@ + "."@ + dotted(".cargo/registry/src"@) =~= "dev..cargo.registry.src"@);
    reveal_strlit(".cargo/git");
    reveal_strlit("dev..cargo.git");
    assert("dev"@ + "."@ + dotted(".cargo/git"@) =~= "dev..cargo.git"@);
    reveal_strlit("go/pkg/mod");
    reveal_strlit("dev.go.pkg.mod");
    assert("dev"@ + "."@ + dotted("go/pkg/mod"@) =~= "dev.go.pkg.mod"@);
    reveal_strlit(".gradle/caches");
    reveal_strlit("dev..gradle.caches");
    assert("dev"@ + "."@ + dotted(".gradle/caches"@) =~= "dev..gradle.caches"@);
    reveal_strlit(".cache/composer");
    reveal_strlit("dev..cache.composer");
    assert("dev"@ + "."@ + dotted(".cache/composer"@) =~= "dev..cache.composer"@);
}

proof fn lemma_offered(home: PathView, facts: FactsView, item: ItemView)
    ensures
        scanned(home, facts).contains(item) <==> {
            ||| package_items(facts.packages).contains(item)
            ||| system_items(facts.journalctl, facts.journal_bytes).contains(item)
            ||| cache_items(home, CleanupGroup::User, user_caches(), facts.user_bytes).contains(item)
            ||| trash_items(home, facts.trash_bytes).contains(item)
            ||| cache_items(home, CleanupGroup::Dev, dev_caches(), facts.dev_bytes).contains(item)
            ||| container_items(facts.docker, facts.flatpak).contains(item)
        },
{
    broadcast use vstd::seq_lib::group_to_multiset_ensures;
    broadcast use vstd::seq_lib::lemma_seq_concat_contains_all_elements;

    let all = offered(home, facts);
    sorting_keeps_elements(all, order_of::<CleanupItem>());
    assert(scanned(home, facts).contains(item) <==> all.contains(item)) by {
        assert(scanned(home, facts).to_multiset().count(item) == all.to_multiset().count(item));
    }
}

/// A scan offers each of the nine caches of programs that takes up room, with that
/// room, under its own identifier, and for removal as a whole.
pub proof fn scans_offer_each_user_cache(home: PathView, facts: FactsView, i: int)
    requires
        complete_facts(facts),
    ensures
        facts.user_bytes.len() == 9,
        0 <= i < 9 && facts.user_bytes[i] > 0 ==> {
            let (id, relative, label) = seq![
                ("user..cache.yay"@, ".cache/yay"@, "yay build cache"@),
                ("user..cache.paru"@, ".cache/paru"@, "paru build cache"@),
                ("user..cache.thumbnails"@, ".cache/thumbnails"@, "Desktop thumbnails"@),
                ("user..cache.mozilla"@, ".cache/mozilla"@, "Firefox cache"@),
                ("user..cache.chromium"@, ".cache/chromium"@, "Chromium cache"@),
                ("user..cache.google-chrome"@, ".cache/google-chrome"@, "Google Chrome cache"@),
                ("user..cache.BraveSoftware"@, ".cache/BraveSoftware"@, "Brave cache"@),
                ("user..cache.vivaldi"@, ".cache/vivaldi"@, "Vivaldi cache"@),
                ("user..cache.opera"@, ".cache/opera"@, "Opera cache"@),
            ][i];
            scanned(home, facts).contains(
                ItemView {
                    id,
                    group: CleanupGroup::User,
                    label,
                    estimated_bytes: facts.user_bytes[i],
                    risk: Risk::Low,
                    action: ActionView::RemovePath { path: home.join(path_of(relative)), contents_only: false },
                },
            )
        },
{
    lemma_user_ids();
    let caches = user_caches();
    let sizes = facts.user_bytes;
    if 0 <= i < 9 && sizes[i] > 0 {
        let item = cache_item(home, CleanupGroup::User, caches[i], sizes[i]);
        caches_are_offered_where_they_take_up_room(home, CleanupGroup::User, caches, sizes, item);
        assert(cache_items(home, CleanupGroup::User, caches, sizes).contains(item));
        lemma_offered(home, facts, item);
    }
}

/// A scan offers each of the ten caches of development tools that takes up room, with
/// that room, under its own identifier, and for removal as a whole.
pub proof fn scans_offer_each_dev_cache(home: PathView, facts: FactsView, i: int)
    requires
        complete_facts(facts),
    ensures
        facts.dev_bytes.len() == 10,
        0 <= i < 10 && facts.dev_bytes[i] > 0 ==> {
            let (id, relative, label) = seq![
                ("dev..cache.pip"@, ".cache/pip"@, "pip cache"@),
                ("dev..npm._cacache"@, ".npm/_cacache"@, "npm content cache"@),
                ("dev..cache.pnpm"@, ".cache/pnpm"@, "pnpm cache"@),
                ("dev..cache.yarn"@, ".cache/yarn"@, "Yarn cache"@),
                ("dev..cargo.registry.cache"@, ".cargo/registry/cache"@, "Cargo package cache"@),
                ("dev..cargo.registry.src"@, ".cargo/registry/src"@, "Cargo unpacked registry sources"@),
                ("dev..cargo.git"@, ".cargo/git"@, "Cargo Git checkout cache"@),
                ("dev.go.pkg.mod"@, "go/pkg/mod"@, "Go module cache"@),
                ("dev..gradle.caches"@, ".gradle/caches"@, "Gradle cache"@),
                ("dev..cache.composer"@, ".cache/composer"@, "Composer cache"@),
            ][i];
            scanned(home, facts).contains(
                ItemView {
                    id,
                    group: CleanupGroup::Dev,
                    label,
                    estimated_bytes: facts.dev_bytes[i],
                    risk: Risk::Low,
                    action: ActionView::RemovePath { path: home.join(path_of(relative)), contents_only: false },
                },
            )
        },
{
    lemma_dev_ids();
    let caches = dev_caches();
    let sizes = facts.dev_bytes;
    if 0 <= i < 10 && sizes[i] > 0 {
        let item = cache_item(home, CleanupGroup::Dev, caches[i], sizes[i]);
        caches_are_offered_where_they_take_up_room(home, CleanupGroup::Dev, caches, sizes, item);
        assert(cache_items(home, CleanupGroup::Dev, caches, sizes).contains(item));
        lemma_offered(home, facts, item);
    }
}

/// The identifiers that single items have.
proof fn lemma_single_ids()
    ensures
        "system.journal"@ != "user.trash"@,
        "system.journal"@ != "containers.docker"@,
        "system.journal"@ != "containers.flatpak"@,
        "user.trash"@ != "containers.docker"@,
        "user.trash"@ != "containers.flatpak"@,
        "containers.docker"@ != "containers.flatpak"@,
{
    reveal_strlit("system.journal");
    reveal_strlit("user.trash");
    reveal_strlit("containers.docker");
    reveal_strlit("containers.flatpak");
    assert("system.journal"@.len() == 14 && "user.trash"@.len() == 10);
    assert("containers.docker"@.len() == 17 && "containers.flatpak"@.len() == 18);
}

proof fn lemma_cache_ids(home: PathView, facts: FactsView, item: ItemView)
    requires
        complete_facts(facts),
        cache_items(home, CleanupGroup::User, user_caches(), facts.user_bytes).contains(item) || cache_items(
            home,
            CleanupGroup::Dev,
            dev_caches(),
            facts.dev_bytes,
        ).contains(item),
    ensures
        item.id != "system.journal"@,
        item.id != "user.trash"@,
        item.id != "containers.docker"@,
        item.id != "containers.flatpak"@,
{
    reveal_strlit("user");
    reveal_strlit("dev");
    reveal_strlit(".");
    reveal_strlit("system.journal");
    reveal_strlit("user.trash");
    reveal_strlit("containers.docker");
    reveal_strlit("containers.flatpak");
    if cache_items(home, CleanupGroup::User, user_caches(), facts.user_bytes).contains(item) {
        caches_are_offered_where_they_take_up_room(
            home,
            CleanupGroup::User,
            user_caches(),
            facts.user_bytes,
            item,
        );
        let i = choose|i: int|
            0 <= i < user_caches().len() && facts.user_bytes[i] > 0 && item == cache_item(
                home,
                CleanupGroup::User,
                #[trigger] user_caches()[i],
                facts.user_bytes[i],
            );
        lemma_user_caches_are_hidden(i);
        let relative = user_caches()[i].relative;
        assert(dotted(relative)[0] == '.');
        assert(item.id[0] == 'u');
        assert(item.id[5] == '.');
        assert("user.trash"@[5] == 't');
        assert("system.journal"@[0] == 's');
        assert("containers.docker"@[0] == 'c');
        assert("containers.flatpak"@[0] == 'c');
    } else {
        caches_are_offered_where_they_take_up_room(home, CleanupGroup::Dev, dev_caches(), facts.dev_bytes, item);
        let i = choose|i: int|
            0 <= i < dev_caches().len() && facts.dev_bytes[i] > 0 && item == cache_item(
                home,
                CleanupGroup::Dev,
                #[trigger] dev_caches()[i],
                facts.dev_bytes[i],
            );
        assert(item.id[0] == 'd');
        assert("user.trash"@[0] == 'u');
        assert("system.journal"@[0] == 's');
        assert("containers.docker"@[0] == 'c');
        assert("containers.flatpak"@[0] == 'c');
    }
}

proof fn lemma_user_caches_are_hidden(i: int)
    requires
        0 <= i < user_caches().len(),
    ensures
        user_caches()[i].relative.len() > 0,
        user_caches()[i].relative[0] == '.',
{
    reveal_strlit(".cache/yay");
    reveal_strlit(".cache/paru");
    reveal_strlit(".cache/thumbnails");
    reveal_strlit(".cache/mozilla");
    reveal_strlit(".cache/chromium");
    reveal_strlit(".cache/google-chrome");
    reveal_strlit(".cache/BraveSoftware");
    reveal_strlit(".cache/vivaldi");
    reveal_strlit(".cache/opera");
}

/// A scan offers to clear unused runtimes of Flatpak where Flatpak is installed, and
/// else nothing goes by that identifier but what cleans packages. Nothing else about
/// the system matters.
pub proof fn scans_offer_flatpak_where_it_is_installed(home: PathView, facts: FactsView, k: int)
    requires
        complete_facts(facts),
    ensures
        facts.flatpak ==> scanned(home, facts).contains(
            ItemView {
                id: "containers.flatpak"@,
                group: CleanupGroup::Containers,
                label: "Unused Flatpak runtimes"@,
                estimated_bytes: 0,
                risk: Risk::Elevated,
                action: ActionView::Command {
                    program: "flatpak"@,
                    args: seq!["uninstall"@, "--unused"@, "-y"@],
                    requires_root: false,
                },
            },
        ),
        !facts.flatpak && 0 <= k < scanned(home, facts).len() && scanned(home, facts)[k].id == "containers.flatpak"@
            ==> facts.packages.item == Some(scanned(home, facts)[k]),
{
    if facts.flatpak {
        let items = container_items(facts.docker, facts.flatpak);
        assert(items[items.len() - 1] == flatpak_item());
        lemma_offered(home, facts, flatpak_item());
    } else if 0 <= k < scanned(home, facts).len() && scanned(home, facts)[k].id == "containers.flatpak"@ {
        lemma_known_by_its_id(home, facts, k);
    }
}

/// A scan offers to clear unused containers where docker is installed, and else
/// nothing goes by that identifier but what cleans packages. Nothing else about the
/// system matters.
pub proof fn scans_offer_docker_where_it_is_installed(home: PathView, facts: FactsView, k: int)
    requires
        complete_facts(facts),
    ensures
        facts.docker ==> scanned(home, facts).contains(
            ItemView {
                id: "containers.docker"@,
                group: CleanupGroup::Containers,
                label: "Stopped containers, dangling images, networks, and build cache (never volumes)"@,
                estimated_bytes: 0,
                risk: Risk::Elevated,
                action: ActionView::Command {
                    program: "docker"@,
                    args: seq!["system"@, "prune"@, "-f"@],
                    requires_root: false,
                },
            },
        ),
        !facts.docker && 0 <= k < scanned(home, facts).len() && scanned(home, facts)[k].id == "containers.docker"@
            ==> facts.packages.item == Some(scanned(home, facts)[k]),
{
    if facts.docker {
        let items = container_items(facts.docker, facts.flatpak);
        assert(items[0] == docker_item());
        lemma_offered(home, facts, docker_item());
    } else if 0 <= k < scanned(home, facts).len() && scanned(home, facts)[k].id == "containers.docker"@ {
        lemma_known_by_its_id(home, facts, k);
    }
}

/// A scan offers to shrink the journal where `journalctl` is installed and the journal
/// takes up more than 200 MiB: what is above that can be had. Else nothing goes by that
/// identifier but what cleans packages.
pub proof fn scans_offer_the_journal_above_its_limit(home: PathView, facts: FactsView, k: int)
    requires
        complete_facts(facts),
    ensures
        facts.journalctl && facts.journal_bytes > 200 * 1024 * 1024 ==> scanned(home, facts).contains(
            ItemView {
                id: "system.journal"@,
                group: CleanupGroup::System,
                label: "systemd journal above 200 MiB"@,
                estimated_bytes: (facts.journal_bytes - 200 * 1024 * 1024) as u64,
                risk: Risk::Elevated,
                action: ActionView::Command {
                    program: "journalctl"@,
                    args: seq!["--vacuum-size=200M"@],
                    requires_root: true,
                },
            },
        ),
        !(facts.journalctl && facts.journal_bytes > 200 * 1024 * 1024) && 0 <= k < scanned(home, facts).len()
            && scanned(home, facts)[k].id == "system.journal"@ ==> facts.packages.item == Some(
            scanned(home, facts)[k],
        ),
{
    let items = system_items(facts.journalctl, facts.journal_bytes);
    if facts.journalctl && facts.journal_bytes > 200 * 1024 * 1024 {
        assert(items.contains(items[0]));
        lemma_offered(home, facts, items[0]);
    } else if 0 <= k < scanned(home, facts).len() && scanned(home, facts)[k].id == "system.journal"@ {
        lemma_known_by_its_id(home, facts, k);
    }
}

/// A scan offers to empty the trash where there is anything in it, and to keep the
/// directory itself. Else nothing goes by that identifier but what cleans packages.
pub proof fn scans_offer_the_trash_where_it_holds_anything(home: PathView, facts: FactsView, k: int)
    requires
        complete_facts(facts),
    ensures
        facts.trash_bytes > 0 ==> scanned(home, facts).contains(
            ItemView {
                id: "user.trash"@,
                group: CleanupGroup::User,
                label: "Trash contents"@,
                estimated_bytes: facts.trash_bytes,
                risk: Risk::Explicit,
                action: ActionView::RemovePath {
                    path: home.join(path_of(".local/share/Trash"@)),
                    contents_only: true,
                },
            },
        ),
        facts.trash_bytes == 0 && 0 <= k < scanned(home, facts).len() && scanned(home, facts)[k].id == "user.trash"@
            ==> facts.packages.item == Some(scanned(home, facts)[k]),
{
    let items = trash_items(home, facts.trash_bytes);
    if facts.trash_bytes > 0 {
        assert(items.contains(items[0]));
        lemma_offered(home, facts, items[0]);
    } else if 0 <= k < scanned(home, facts).len() && scanned(home, facts)[k].id == "user.trash"@ {
        lemma_known_by_its_id(home, facts, k);
    }
}

proof fn lemma_known_by_its_id(home: PathView, facts: FactsView, k: int)
    requires
        complete_facts(facts),
        0 <= k < scanned(home, facts).len(),
        ({
            let id = scanned(home, facts)[k].id;
            ||| id == "containers.flatpak"@ && !facts.flatpak
            ||| id == "containers.docker"@ && !facts.docker
            ||| id == "system.journal"@ && !(facts.journalctl && facts.journal_bytes > 200 * 1024 * 1024)
            ||| id == "user.trash"@ && facts.trash_bytes == 0
        }),
    ensures
        facts.packages.item == Some(scanned(home, facts)[k]),
{
    let item = scanned(home, facts)[k];
    lemma_single_ids();
    assert(scanned(home, facts).contains(item));
    lemma_offered(home, facts, item);
    if cache_items(home, CleanupGroup::User, user_caches(), facts.user_bytes).contains(item) || cache_items(
        home,
        CleanupGroup::Dev,
        dev_caches(),
        facts.dev_bytes,
    ).contains(item) {
        lemma_cache_ids(home, facts, item);
    }
}

/// A scan offers what cleans packages, where the distribution has it, exactly when its
/// program is installed.
pub proof fn scans_offer_packages_where_their_program_is_installed(home: PathView, facts: FactsView)
    ensures
        facts.packages.item is Some && facts.packages.installed ==> scanned(home, facts).contains(
            facts.packages.item->0,
        ),
        !facts.packages.installed ==> scanned(home, facts) == scanned(
            home,
            FactsView { packages: PackageView { item: None, ..facts.packages }, ..facts },
        ),
{
    if facts.packages.item is Some && facts.packages.installed {
        assert(package_items(facts.packages)[0] == facts.packages.item->0);
        lemma_offered(home, facts, facts.packages.item->0);
    }
}

/// Everything that a scan offers has a reason: it cleans packages, shrinks the journal,
/// is a known cache or the trash and takes up room, or runs docker or flatpak, which
/// are installed.
pub proof fn scans_offer_nothing_else(home: PathView, facts: FactsView, k: int)
    requires
        complete_facts(facts),
        0 <= k < scanned(home, facts).len(),
    ensures
        ({
            let item = scanned(home, facts)[k];
            ||| facts.packages.item == Some(item) && facts.packages.installed
            ||| item.id == "system.journal"@ && facts.journalctl && item.estimated_bytes + 200 * 1024 * 1024
                == facts.journal_bytes && item.estimated_bytes > 0
            ||| item.id == "user.trash"@ && item.estimated_bytes == facts.trash_bytes && facts.trash_bytes > 0
            ||| item.id == "containers.docker"@ && facts.docker
            ||| item.id == "containers.flatpak"@ && facts.flatpak
            ||| exists|i: int|
                0 <= i < 9 && item.estimated_bytes == facts.user_bytes[i] && facts.user_bytes[i] > 0 && item.label
                    == (#[trigger] user_caches()[i]).label && item.group is User && item.risk is Low && item.action
                    == (ActionView::RemovePath {
                    path: home.join(path_of(user_caches()[i].relative)),
                    contents_only: false,
                })
            ||| exists|i: int|
                0 <= i < 10 && item.estimated_bytes == facts.dev_bytes[i] && facts.dev_bytes[i] > 0 && item.label
                    == (#[trigger] dev_caches()[i]).label && item.group is Dev && item.risk is Low && item.action
                    == (ActionView::RemovePath {
                    path: home.join(path_of(dev_caches()[i].relative)),
                    contents_only: false,
                })
        }),
{
    let item = scanned(home, facts)[k];
    assert(scanned(home, facts).contains(item));
    lemma_offered(home, facts, item);
    caches_are_offered_where_they_take_up_room(home, CleanupGroup::User, user_caches(), facts.user_bytes, item);
    caches_are_offered_where_they_take_up_room(home, CleanupGroup::Dev, dev_caches(), facts.dev_bytes, item);
    if cache_items(home, CleanupGroup::User, user_caches(), facts.user_bytes).contains(item) {
        let i = choose|i: int|
            0 <= i < user_caches().len() && facts.user_bytes[i] > 0 && item == cache_item(
                home,
                CleanupGroup::User,
                #[trigger] user_caches()[i],
                facts.user_bytes[i],
            );
        assert(item.label == user_caches()[i].label);
    } else if cache_items(home, CleanupGroup::Dev, dev_caches(), facts.dev_bytes).contains(item) {
        let i = choose|i: int|
            0 <= i < dev_caches().len() && facts.dev_bytes[i] > 0 && item == cache_item(
                home,
                CleanupGroup::Dev,
                #[trigger] dev_caches()[i],
                facts.dev_bytes[i],
            );
        assert(item.label == dev_caches()[i].label);
    }
}

proof fn lemma_cache_count(home: PathView, group: CleanupGroup, caches: Seq<CacheView>, sizes: Seq<u64>)
    requires
        caches.len() <= sizes.len(),
    ensures
        cache_items(home, group, caches, sizes).len() == sizes.take(caches.len() as int).filter(
            |bytes: u64| bytes > 0,
        ).len(),
    decreases caches.len(),
{
    let n = caches.len() as int;
    let room = |bytes: u64| bytes > 0;
    reveal(Seq::filter);
    if n > 0 {
        lemma_cache_count(home, group, caches.drop_last(), sizes);
        assert(sizes.take(n).drop_last() =~= sizes.take(n - 1));
    }
}

/// A scan offers nothing twice: as many items as there are caches that take up room,
/// and one each for packages, the journal, the trash, docker and flatpak where there is
/// a reason.
pub proof fn scans_offer_nothing_twice(home: PathView, facts: FactsView)
    requires
        complete_facts(facts),
    ensures
        scanned(home, facts).len() == facts.user_bytes.filter(|bytes: u64| bytes > 0).len() + facts.dev_bytes.filter(
            |bytes: u64| bytes > 0,
        ).len() + (if facts.packages.item is Some && facts.packages.installed {
            1int
        } else {
            0
        }) + (if facts.journalctl && facts.journal_bytes > 200 * 1024 * 1024 {
            1int
        } else {
            0
        }) + (if facts.trash_bytes > 0 {
            1int
        } else {
            0
        }) + (if facts.docker {
            1int
        } else {
            0
        }) + (if facts.flatpak {
            1int
        } else {
            0
        }),
{
    broadcast use vstd::seq_lib::group_to_multiset_ensures;

    sorting_keeps_elements(offered(home, facts), order_of::<CleanupItem>());
    assert(scanned(home, facts).len() == scanned(home, facts).to_multiset().len());
    assert(offered(home, facts).len() == offered(home, facts).to_multiset().len());
    lemma_cache_count(home, CleanupGroup::User, user_caches(), facts.user_bytes);
    lemma_cache_count(home, CleanupGroup::Dev, dev_caches(), facts.dev_bytes);
    assert(facts.user_bytes.take(user_caches().len() as int) =~= facts.user_bytes);
    assert(facts.dev_bytes.take(dev_caches().len() as int) =~= facts.dev_bytes);
}

/// A report goes by the names of the groups; in a group, the larger stands first.
pub proof fn scans_list_the_largest_of_a_group_first(home: PathView, facts: FactsView, i: int, j: int)
    requires
        0 <= i < j < scanned(home, facts).len(),
    ensures
        ({
            let (a, b) = (scanned(home, facts)[i], scanned(home, facts)[j]);
            &&& text_le(group_title(a.group), group_title(b.group))
            &&& group_title(a.group) == group_title(b.group) ==> a.estimated_bytes >= b.estimated_bytes
        }),
{
    ranked_is_total_preorder::<CleanupItem>();
    sorted_is_ordered(offered(home, facts), order_of::<CleanupItem>());
    let (a, b) = (scanned(home, facts)[i], scanned(home, facts)[j]);
    assert(order_of::<CleanupItem>()(a, b));
    crate::text::text_order_is_total(group_title(a.group), group_title(b.group));
}

/// A scan warns of a package cache that takes up room and cannot be cleaned, as its
/// program is not installed; and of a distribution whose packages it does not know. It
/// warns of nothing else.
pub proof fn scans_warn_of_what_cannot_be_cleaned(family: DistroFamily, name: Seq<char>, packages: PackageView)
    ensures
        ({
            let missing = packages.item is Some && !packages.installed && packages.estimated > 0;
            let unknown = family is Unsupported;
            let program = match packages.item->0.action {
                ActionView::Command { program, .. } => program,
                ActionView::CommandSequence { commands } => commands[0].program,
                _ => warned(family, name, packages)[0],
            };
            let runs = match packages.item->0.action {
                ActionView::Command { .. } => true,
                ActionView::CommandSequence { commands } => commands.len() > 0,
                _ => false,
            };
            &&& warned(family, name, packages).len() == (if missing {
                1int
            } else {
                0
            }) + (if unknown {
                1int
            } else {
                0
            })
            &&& missing && runs ==> warned(family, name, packages)[0] == program
                + " is not installed; the package cache was measured but cannot be cleaned safely"@
            &&& unknown ==> warned(family, name, packages).last() == name
                + " is not yet supported for package cleanup; user and developer caches are still available"@
        }),
{
}

/// The sum of sizes is that of its parts.
pub proof fn sums_add_up(a: Seq<u64>, b: Seq<u64>, one: u64)
    ensures
        sum_of(a + b) == sum_of(a) + sum_of(b),
        sum_of(seq![one]) == one,
        sum_of(Seq::empty()) == 0,
    decreases b.len(),
{
    if b.len() == 0 {
        assert(a + b =~= a);
    } else {
        assert((a + b).drop_last() =~= a + b.drop_last());
        sums_add_up(a, b.drop_last(), one);
    }
    assert(seq![one].drop_last() =~= Seq::empty());
    assert(sum_of(seq![one].drop_last()) == 0);
    assert(seq![one].last() == one);
}

/// A summary tells of each group that has an item, and of no other, what its items take
/// up together: an item adds its size to its own group, and nothing to any other.
pub proof fn summaries_add_each_item_to_its_group(
    before: Map<CleanupGroup, u64>,
    after: Map<CleanupGroup, u64>,
    items: Seq<ItemView>,
    item: ItemView,
    group: CleanupGroup,
)
    requires
        tallied(before, items, group),
        tallied(after, items.push(item), group),
    ensures
        item.group == group ==> after.contains_key(group) && after[group] == item.estimated_bytes + (
        if before.contains_key(group) {
            before[group] as int
        } else {
            0
        }),
        item.group != group ==> after.contains_key(group) == before.contains_key(group) && (before.contains_key(group)
            ==> after[group] == before[group]),
{
    let all = items.push(item);
    assert(all.drop_last() =~= items);
    if has_group(items, group) {
        let i = choose|i: int| 0 <= i < items.len() && (#[trigger] items[i]).group == group;
        assert(all[i].group == group);
    } else {
        lemma_no_group(items, group);
        if has_group(all, group) {
            let i = choose|i: int| 0 <= i < all.len() && (#[trigger] all[i]).group == group;
            if i < items.len() {
                assert(items[i].group == group);
            }
        }
    }
    if item.group == group {
        assert(all[items.len() as int].group == group);
    }
}

/// A summary of nothing tells of no group.
pub proof fn summaries_of_nothing_are_empty(sums: Map<CleanupGroup, u64>, group: CleanupGroup)
    requires
        tallied(sums, Seq::empty(), group),
    ensures
        !sums.contains_key(group),
{
}

/// What the items of a group take up together: each item adds its size to its own group,
/// and nothing to any other. A summary is refused only where 64 bits do not hold the sum
/// of some group.
pub proof fn items_add_to_their_own_group(items: Seq<ItemView>, item: ItemView, group: CleanupGroup)
    ensures
        group_bytes(Seq::empty(), group) == 0,
        group_bytes(items.push(item), group) == group_bytes(items, group) + if item.group == group {
            item.estimated_bytes as nat
        } else {
            0
        },
        groups_fit(items) <==> forall|other: CleanupGroup| #[trigger]
            group_bytes(items, other) <= 0xffff_ffff_ffff_ffff,
{
    assert(items.push(item).drop_last() =~= items);
}

/// The names of the groups, as they are shown and as identifiers begin with them.
pub proof fn groups_have_these_names()
    ensures
        group_title(CleanupGroup::System) == "System"@,
        group_title(CleanupGroup::User) == "User"@,
        group_title(CleanupGroup::Dev) == "Developer"@,
        group_title(CleanupGroup::Containers) == "Containers"@,
        slug_of(CleanupGroup::System) == "system"@,
        slug_of(CleanupGroup::User) == "user"@,
        slug_of(CleanupGroup::Dev) == "dev"@,
        slug_of(CleanupGroup::Containers) == "containers"@,
{
}

/// The program that an action runs first is that of its command, or of the first one in
/// its sequence; what removes a path runs none.
pub proof fn actions_run_their_first_program(action: ActionView)
    ensures
        first_program(action) == match action {
            ActionView::Command { program, .. } => Some(program),
            ActionView::CommandSequence { commands } => if commands.len() > 0 {
                Some(commands[0].program)
            } else {
                None
            },
            ActionView::RemovePath { .. } => None,
            ActionView::RemovePersonalFile { .. } => None,
        },
{
}

} // verus!
