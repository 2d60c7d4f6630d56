//! What of a system can be cleaned up: package caches, the journal, caches of
//! programs and of development tools, the trash and unused containers.

use vstd::prelude::*;
use vstd::string::StringExecFns;

use crate::distro::{Distribution, DistroFamily};
use crate::model::{
    group_title, ActionView, CleanupAction, CleanupGroup, CleanupItem, ItemView, Risk, ScanReport, ScanView,
};
use crate::order::{
    order_of, ranked_is_total_preorder, sort, sorted_is_ordered, sorting_keeps_elements, stable_sorted, views, Ranked,
};
use crate::path::{joining_keeps_the_components, path_of, texts_without_a_root_are_relative, FilePath, PathView};
use crate::table::{Key, Table};
use crate::text::{
    chars_of, not_after, same_chars, string_of, text_le, text_order_is_antisymmetric, text_order_is_total,
    text_order_is_transitive,
};

verus! {

/// A cache that programs keep below the home directory.
#[derive(Clone, Copy, Debug, PartialEq, Eq)]
pub struct CachePath {
    pub relative: &'static str,
    pub label: &'static str,
}

/// What is known of such a cache.
pub struct CacheView {
    pub relative: Seq<char>,
    pub label: Seq<char>,
}

impl View for CachePath {
    type V = CacheView;

    open spec fn view(&self) -> CacheView {
        CacheView { relative: self.relative@, label: self.label@ }
    }
}

/// The caches of programs that users run.
pub open spec fn user_caches() -> Seq<CacheView> {
    seq![
        CacheView { relative: ".cache/yay"@, label: "yay build cache"@ },
        CacheView { relative: ".cache/paru"@, label: "paru build cache"@ },
        CacheView { relative: ".cache/thumbnails"@, label: "Desktop thumbnails"@ },
        CacheView { relative: ".cache/mozilla"@, label: "Firefox cache"@ },
        CacheView { relative: ".cache/chromium"@, label: "Chromium cache"@ },
        CacheView { relative: ".cache/google-chrome"@, label: "Google Chrome cache"@ },
        CacheView { relative: ".cache/BraveSoftware"@, label: "Brave cache"@ },
        CacheView { relative: ".cache/vivaldi"@, label: "Vivaldi cache"@ },
        CacheView { relative: ".cache/opera"@, label: "Opera cache"@ },
    ]
}

/// The caches of development tools.
pub open spec fn dev_caches() -> Seq<CacheView> {
    seq![
        CacheView { relative: ".cache/pip"@, label: "pip cache"@ },
        CacheView { relative: ".npm/_cacache"@, label: "npm content cache"@ },
        CacheView { relative: ".cache/pnpm"@, label: "pnpm cache"@ },
        CacheView { relative: ".cache/yarn"@, label: "Yarn cache"@ },
        CacheView { relative: ".cargo/registry/cache"@, label: "Cargo package cache"@ },
        CacheView { relative: ".cargo/registry/src"@, label: "Cargo unpacked registry sources"@ },
        CacheView { relative: ".cargo/git"@, label: "Cargo Git checkout cache"@ },
        CacheView { relative: "go/pkg/mod"@, label: "Go module cache"@ },
        CacheView { relative: ".gradle/caches"@, label: "Gradle cache"@ },
        CacheView { relative: ".cache/composer"@, label: "Composer cache"@ },
    ]
}

/// Lists the caches of programs that users run.
pub fn user_cache_paths() -> (caches: Vec<CachePath>)
    ensures
        views(caches@) == user_caches(),
{
    let caches = vec![
        CachePath { relative: ".cache/yay", label: "yay build cache" },
        CachePath { relative: ".cache/paru", label: "paru build cache" },
        CachePath { relative: ".cache/thumbnails", label: "Desktop thumbnails" },
        CachePath { relative: ".cache/mozilla", label: "Firefox cache" },
        CachePath { relative: ".cache/chromium", label: "Chromium cache" },
        CachePath { relative: ".cache/google-chrome", label: "Google Chrome cache" },
        CachePath { relative: ".cache/BraveSoftware", label: "Brave cache" },
        CachePath { relative: ".cache/vivaldi", label: "Vivaldi cache" },
        CachePath { relative: ".cache/opera", label: "Opera cache" },
    ];
    assert(views(caches@) =~= user_caches());
    caches
}

/// Lists the caches of development tools.
pub fn dev_cache_paths() -> (caches: Vec<CachePath>)
    ensures
        views(caches@) == dev_caches(),
{
    let caches = vec![
        CachePath { relative: ".cache/pip", label: "pip cache" },
        CachePath { relative: ".npm/_cacache", label: "npm content cache" },
        CachePath { relative: ".cache/pnpm", label: "pnpm cache" },
        CachePath { relative: ".cache/yarn", label: "Yarn cache" },
        CachePath { relative: ".cargo/registry/cache", label: "Cargo package cache" },
        CachePath { relative: ".cargo/registry/src", label: "Cargo unpacked registry sources" },
        CachePath { relative: ".cargo/git", label: "Cargo Git checkout cache" },
        CachePath { relative: "go/pkg/mod", label: "Go module cache" },
        CachePath { relative: ".gradle/caches", label: "Gradle cache" },
        CachePath { relative: ".cache/composer", label: "Composer cache" },
    ];
    assert(views(caches@) =~= dev_caches());
    caches
}

/// The word for a group in the identifiers of items.
pub open spec fn slug_of(group: CleanupGroup) -> Seq<char> {
    match group {
        CleanupGroup::System => "system"@,
        CleanupGroup::User => "user"@,
        CleanupGroup::Dev => "dev"@,
        CleanupGroup::Containers => "containers"@,
    }
}

/// The word for a group in the identifiers of items.
pub fn group_slug(group: CleanupGroup) -> (slug: &'static str)
    ensures
        slug@ == slug_of(group),
{
    match group {
        CleanupGroup::System => "system",
        CleanupGroup::User => "user",
        CleanupGroup::Dev => "dev",
        CleanupGroup::Containers => "containers",
    }
}

/// A text with a dot in place of each slash.
pub open spec fn dotted(text: Seq<char>) -> Seq<char> {
    Seq::new(
        text.len(),
        |i: int|
            if text[i] == '/' {
                '.'
            } else {
                text[i]
            },
    )
}

fn with_dots(text: &str) -> (out: String)
    ensures
        out@ == dotted(text@),
{
    let chars = chars_of(text);
    let mut out: Vec<char> = Vec::new();
    for i in 0..chars.len()
        invariant
            chars@ == text@,
            out@ == dotted(text@).take(i as int),
    {
        if chars[i] == '/' {
            out.push('.');
        } else {
            out.push(chars[i]);
        }
        assert(out@ =~= dotted(text@).take(i + 1));
    }
    assert(dotted(text@).take(text@.len() as int) =~= dotted(text@));
    string_of(out.as_slice())
}

/// What was measured of the packages: the room that their caches take up, the item
/// that cleans them, where the distribution has one, and whether the program that
/// it runs first is installed.
pub struct PackageFacts {
    pub estimated: u64,
    pub item: Option<CleanupItem>,
    pub installed: bool,
}

/// What a system was measured to hold.
pub struct ScanFacts {
    pub packages: PackageFacts,
    pub journalctl: bool,
    pub journal_bytes: u64,
    /// The room that each cache of programs takes up, in the order of their list.
    pub user_bytes: Vec<u64>,
    pub trash_bytes: u64,
    /// The room that each cache of development tools takes up, in that order.
    pub dev_bytes: Vec<u64>,
    pub docker: bool,
    pub flatpak: bool,
}

/// What is known of the packages.
pub struct PackageView {
    pub estimated: u64,
    pub item: Option<ItemView>,
    pub installed: bool,
}

/// What is known of a system.
pub struct FactsView {
    pub packages: PackageView,
    pub journalctl: bool,
    pub journal_bytes: u64,
    pub user_bytes: Seq<u64>,
    pub trash_bytes: u64,
    pub dev_bytes: Seq<u64>,
    pub docker: bool,
    pub flatpak: bool,
}

impl View for PackageFacts {
    type V = PackageView;

    open spec fn view(&self) -> PackageView {
        PackageView {
            estimated: self.estimated,
            item: match self.item {
                Some(item) => Some(item@),
                None => None,
            },
            installed: self.installed,
        }
    }
}

impl View for ScanFacts {
    type V = FactsView;

    open spec fn view(&self) -> FactsView {
        FactsView {
            packages: self.packages@,
            journalctl: self.journalctl,
            journal_bytes: self.journal_bytes,
            user_bytes: self.user_bytes@,
            trash_bytes: self.trash_bytes,
            dev_bytes: self.dev_bytes@,
            docker: self.docker,
            flatpak: self.flatpak,
        }
    }
}

/// The program that an action runs first, where it runs any.
pub open spec fn first_program(action: ActionView) -> Option<Seq<char>> {
    match action {
        ActionView::Command { program, .. } => Some(program),
        ActionView::CommandSequence { commands } => if commands.len() > 0 {
            Some(commands[0].program)
        } else {
            None
        },
        _ => None,
    }
}

/// The program that an action runs first, where it runs any.
pub fn cleanup_program<'a>(action: &'a CleanupAction) -> (program: Option<&'a str>)
    ensures
        match program {
            Some(name) => first_program(action@) == Some(name@),
            None => first_program(action@) is None,
        },
{
    match action {
        CleanupAction::Command { program, .. } => Some(program.as_str()),
        CleanupAction::CommandSequence { commands } => if commands.len() > 0 {
            Some(commands[0].program.as_str())
        } else {
            None
        },
        _ => None,
    }
}

/// Whether the item that cleans package caches, where there is one, runs a
/// program, and each known cache was measured.
pub open spec fn complete_facts(facts: FactsView) -> bool {
    &&& facts.packages.item is Some ==> first_program(facts.packages.item->0.action) is Some
    &&& facts.user_bytes.len() == user_caches().len()
    &&& facts.dev_bytes.len() == dev_caches().len()
}

/// The sum of sizes.
pub open spec fn sum_of(sizes: Seq<u64>) -> nat
    decreases sizes.len(),
{
    if sizes.len() == 0 {
        0
    } else {
        sum_of(sizes.drop_last()) + sizes.last() as nat
    }
}

proof fn lemma_sum_grows(sizes: Seq<u64>, k: int)
    requires
        0 <= k <= sizes.len(),
    ensures
        sum_of(sizes.take(k)) <= sum_of(sizes),
    decreases sizes.len() - k,
{
    if k < sizes.len() {
        lemma_sum_grows(sizes, k + 1);
        assert(sizes.take(k + 1).drop_last() =~= sizes.take(k));
    } else {
        assert(sizes.take(k) =~= sizes);
    }
}

/// The sum of sizes, none where it is no machine number.
pub fn sum_sizes(sizes: &Vec<u64>) -> (sum: Option<u64>)
    ensures
        match sum {
            Some(n) => n as nat == sum_of(sizes@),
            None => sum_of(sizes@) > u64::MAX,
        },
{
    let mut sum: u64 = 0;
    for i in 0..sizes.len()
        invariant
            sum as nat == sum_of(sizes@.take(i as int)),
    {
        proof {
            assert(sizes@.take(i + 1).drop_last() =~= sizes@.take(i as int));
            lemma_sum_grows(sizes@, i + 1);
        }
        if sum > u64::MAX - sizes[i] {
            return None;
        }
        sum = sum + sizes[i];
    }
    assert(sizes@.take(sizes@.len() as int) =~= sizes@);
    Some(sum)
}

/// The items for the packages.
pub open spec fn package_items(packages: PackageView) -> Seq<ItemView> {
    match packages.item {
        Some(item) => if packages.installed {
            seq![item]
        } else {
            Seq::empty()
        },
        None => Seq::empty(),
    }
}

/// The warnings about the packages: that their caches take up room, and the
/// program that cleans them is not there.
pub open spec fn package_warnings(packages: PackageView) -> Seq<Seq<char>> {
    match packages.item {
        Some(item) => if !packages.installed && packages.estimated > 0 {
            seq![
                first_program(item.action)->0
                    + " is not installed; the package cache was measured but cannot be cleaned safely"@,
            ]
        } else {
            Seq::empty()
        },
        None => Seq::empty(),
    }
}

/// The room that the journal may keep: 200 MiB.
pub const JOURNAL_KEPT: u64 = 209_715_200;

/// The item for the journal, where it takes up more than it may keep.
pub open spec fn system_items(journalctl: bool, journal_bytes: u64) -> Seq<ItemView> {
    if journalctl && journal_bytes > JOURNAL_KEPT {
        seq![
            ItemView {
                id: "system.journal"@,
                group: CleanupGroup::System,
                label: "systemd journal above 200 MiB"@,
                estimated_bytes: (journal_bytes - JOURNAL_KEPT) as u64,
                risk: Risk::Elevated,
                action: ActionView::Command {
                    program: "journalctl"@,
                    args: seq!["--vacuum-size=200M"@],
                    requires_root: true,
                },
            },
        ]
    } else {
        Seq::empty()
    }
}

/// The item for a cache.
pub open spec fn cache_item(home: PathView, group: CleanupGroup, cache: CacheView, bytes: u64) -> ItemView {
    ItemView {
        id: slug_of(group) + "."@ + dotted(cache.relative),
        group,
        label: cache.label,
        estimated_bytes: bytes,
        risk: Risk::Low,
        action: ActionView::RemovePath { path: home.join(path_of(cache.relative)), contents_only: false },
    }
}

/// The items for the caches that take up room, in their order.
pub open spec fn cache_items(home: PathView, group: CleanupGroup, caches: Seq<CacheView>, sizes: Seq<u64>) -> Seq<
    ItemView,
>
    decreases caches.len(),
{
    if caches.len() == 0 {
        Seq::empty()
    } else {
        let front = cache_items(home, group, caches.drop_last(), sizes);
        let bytes = sizes[caches.len() - 1];
        if bytes == 0 {
            front
        } else {
            front.push(cache_item(home, group, caches.last(), bytes))
        }
    }
}

/// The item for the trash, where there is anything in it.
pub open spec fn trash_items(home: PathView, bytes: u64) -> Seq<ItemView> {
    if bytes > 0 {
        seq![
            ItemView {
                id: "user.trash"@,
                group: CleanupGroup::User,
                label: "Trash contents"@,
                estimated_bytes: bytes,
                risk: Risk::Explicit,
                action: ActionView::RemovePath {
                    path: home.join(path_of(".local/share/Trash"@)),
                    contents_only: true,
                },
            },
        ]
    } else {
        Seq::empty()
    }
}

/// The item that runs docker.
pub open spec fn docker_item() -> ItemView {
    ItemView {
        id: "containers.docker"@,
        group: CleanupGroup::Containers,
        label: "Stopped containers, dangling images, networks, and build cache (never volumes)"@,
        estimated_bytes: 0,
        risk: Risk::Elevated,
        action: ActionView::Command {
            program: "docker"@,
            args: seq!["system"@, "prune"@, "-f"@],
            requires_root: false,
        },
    }
}

/// The item that runs flatpak.
pub open spec fn flatpak_item() -> ItemView {
    ItemView {
        id: "containers.flatpak"@,
        group: CleanupGroup::Containers,
        label: "Unused Flatpak runtimes"@,
        estimated_bytes: 0,
        risk: Risk::Elevated,
        action: ActionView::Command {
            program: "flatpak"@,
            args: seq!["uninstall"@, "--unused"@, "-y"@],
            requires_root: false,
        },
    }
}

/// The items for containers, where their programs are installed.
pub open spec fn container_items(docker: bool, flatpak: bool) -> Seq<ItemView> {
    (if docker {
        seq![docker_item()]
    } else {
        Seq::empty()
    }) + (if flatpak {
        seq![flatpak_item()]
    } else {
        Seq::empty()
    })
}

/// The items that a system offers, before they are put in order.
pub open spec fn offered(home: PathView, facts: FactsView) -> Seq<ItemView> {
    package_items(facts.packages) + system_items(facts.journalctl, facts.journal_bytes) + cache_items(
        home,
        CleanupGroup::User,
        user_caches(),
        facts.user_bytes,
    ) + trash_items(home, facts.trash_bytes) + cache_items(home, CleanupGroup::Dev, dev_caches(), facts.dev_bytes)
        + container_items(facts.docker, facts.flatpak)
}

/// The warnings about a system.
pub open spec fn warned(family: DistroFamily, name: Seq<char>, packages: PackageView) -> Seq<Seq<char>> {
    package_warnings(packages) + if family == DistroFamily::Unsupported {
        seq![
            name
                + " is not yet supported for package cleanup; user and developer caches are still available"@,
        ]
    } else {
        Seq::empty()
    }
}

impl Ranked for CleanupItem {
    /// By the name of the group; in a group, the largest first.
    open spec fn in_order(a: ItemView, b: ItemView) -> bool {
        if group_title(a.group) == group_title(b.group) {
            a.estimated_bytes >= b.estimated_bytes
        } else {
            text_le(group_title(a.group), group_title(b.group))
        }
    }

    proof fn order_is_total(a: ItemView, b: ItemView) {
        text_order_is_total(group_title(a.group), group_title(b.group));
    }

    proof fn order_is_transitive(a: ItemView, b: ItemView, c: ItemView) {
        let (x, y, z) = (group_title(a.group), group_title(b.group), group_title(c.group));
        if x != y && y != z {
            text_order_is_transitive(x, y, z);
            if x == z {
                text_order_is_antisymmetric(x, y);
            }
        }
    }

    fn may_precede(&self, other: &Self) -> (yes: bool) {
        let a = chars_of(self.group.title());
        let b = chars_of(other.group.title());
        if same_chars(a.as_slice(), b.as_slice()) {
            self.estimated_bytes >= other.estimated_bytes
        } else {
            not_after(a.as_slice(), b.as_slice())
        }
    }
}

fn words(list: Vec<&'static str>) -> (out: Vec<String>)
    ensures
        views(out@) == Seq::new(list@.len(), |i: int| list@[i]@),
{
    let mut out: Vec<String> = Vec::new();
    for i in 0..list.len()
        invariant
            out@.len() == i,
            forall|j: int| 0 <= j < i ==> (#[trigger] out@[j])@ == list@[j]@,
    {
        out.push(list[i].to_owned());
    }
    assert(views(out@) =~= Seq::new(list@.len(), |i: int| list@[i]@));
    out
}

/// Looks for what can be cleaned up on one system.
pub struct Scanner {
    pub home: FilePath,
    pub distro: Distribution,
}

impl Scanner {
    /// A scanner for that home directory and distribution.
    pub fn new(home: FilePath, distro: Distribution) -> (scanner: Scanner)
        ensures
            scanner == (Scanner { home, distro }),
    {
        Scanner { home, distro }
    }

    /// Where a cache lies.
    pub fn cache_path(&self, cache: &CachePath) -> (path: FilePath)
        ensures
            path@ == self.home@.join(path_of(cache@.relative)),
    {
        self.home.join(&FilePath::from_text(cache.relative))
    }

    /// Where the trash lies.
    pub fn trash_path(&self) -> (path: FilePath)
        ensures
            path@ == self.home@.join(path_of(".local/share/Trash"@)),
    {
        self.home.join(&FilePath::from_text(".local/share/Trash"))
    }

    /// The report on a system of which these facts were measured.
    pub fn scan(&self, facts: ScanFacts) -> (report: ScanReport)
        requires
            complete_facts(facts@),
        ensures
            report@ == (ScanView {
                distribution: self.distro.name@,
                items: stable_sorted(offered(self.home@, facts@), order_of::<CleanupItem>()),
                warnings: warned(self.distro.family, self.distro.name@, facts@.packages),
            }),
    {
        let ghost known = facts@;
        let ghost home = self.home@;
        let mut items: Vec<CleanupItem> = Vec::new();
        let mut warnings: Vec<String> = Vec::new();
        assert(views(items@) =~= Seq::empty());
        assert(views(warnings@) =~= Seq::empty());
        let ScanFacts {
            packages,
            journalctl,
            journal_bytes,
            user_bytes,
            trash_bytes,
            dev_bytes,
            docker,
            flatpak,
        } = facts;
        self.scan_packages(packages, &mut items, &mut warnings);
        self.scan_system(journalctl, journal_bytes, &mut items);
        self.scan_known_paths(&user_cache_paths(), &user_bytes, CleanupGroup::User, &mut items);
        self.scan_trash(trash_bytes, &mut items);
        self.scan_known_paths(&dev_cache_paths(), &dev_bytes, CleanupGroup::Dev, &mut items);
        self.scan_containers(docker, flatpak, &mut items);
        assert(views(items@) =~= offered(home, known));
        let ghost before = views(warnings@);
        if self.distro.family == DistroFamily::Unsupported {
            let mut warning = self.distro.name.as_str().to_owned();
            warning.append(
                " is not yet supported for package cleanup; user and developer caches are still available",
            );
            warnings.push(warning);
            assert(views(warnings@) =~= before.push(warning@));
        }
        assert(views(warnings@) =~= warned(self.distro.family, self.distro.name@, known.packages));
        ScanReport::from_items(self.distro.name.as_str().to_owned(), sort(items), warnings)
    }

    fn scan_packages(&self, packages: PackageFacts, items: &mut Vec<CleanupItem>, warnings: &mut Vec<String>)
        requires
            packages@.item is Some ==> first_program(packages@.item->0.action) is Some,
        ensures
            views(final(items)@) == views(old(items)@) + package_items(packages@),
            views(final(warnings)@) == views(old(warnings)@) + package_warnings(packages@),
    {
        let ghost items_before = views(items@);
        let ghost warnings_before = views(warnings@);
        let ghost known = packages@;
        match packages.item {
            Some(item) => {
                if packages.installed {
                    items.push(item);
                    assert(views(items@) =~= items_before + seq![item@]);
                } else if packages.estimated > 0 {
                    if let Some(program) = cleanup_program(&item.action) {
                        let mut warning = program.to_owned();
                        warning.append(
                            " is not installed; the package cache was measured but cannot be cleaned safely",
                        );
                        warnings.push(warning);
                        assert(views(warnings@) =~= warnings_before + seq![warning@]);
                    }
                }
            },
            None => {},
        }
        assert(views(items@) =~= items_before + package_items(known));
        assert(views(warnings@) =~= warnings_before + package_warnings(known));
    }

    fn scan_system(&self, journalctl: bool, journal_bytes: u64, items: &mut Vec<CleanupItem>)
        ensures
            views(final(items)@) == views(old(items)@) + system_items(journalctl, journal_bytes),
    {
        let ghost before = views(items@);
        if journalctl && journal_bytes > JOURNAL_KEPT {
            let item = CleanupItem {
                id: "system.journal".to_owned(),
                group: CleanupGroup::System,
                label: "systemd journal above 200 MiB".to_owned(),
                estimated_bytes: journal_bytes - JOURNAL_KEPT,
                risk: Risk::Elevated,
                action: CleanupAction::Command {
                    program: "journalctl".to_owned(),
                    args: words(vec!["--vacuum-size=200M"]),
                    requires_root: true,
                },
            };
            items.push(item);
            assert(item@.action =~= (ActionView::Command {
                program: "journalctl"@,
                args: seq!["--vacuum-size=200M"@],
                requires_root: true,
            }));
            assert(views(items@) =~= before + seq![item@]);
        } else {
            assert(views(items@) =~= before + Seq::empty());
        }
    }

    fn scan_known_paths(
        &self,
        caches: &Vec<CachePath>,
        sizes: &Vec<u64>,
        group: CleanupGroup,
        items: &mut Vec<CleanupItem>,
    )
        requires
            caches@.len() == sizes@.len(),
        ensures
            views(final(items)@) == views(old(items)@) + cache_items(self.home@, group, views(caches@), sizes@),
    {
        let ghost start = views(items@);
        let ghost all = views(caches@);
        assert(views(items@) =~= start + cache_items(self.home@, group, all.take(0), sizes@));
        for i in 0..caches.len()
            invariant
                caches@.len() == sizes@.len(),
                all == views(caches@),
                views(items@) == start + cache_items(self.home@, group, all.take(i as int), sizes@),
        {
            let ghost before = views(items@);
            assert(all.take(i + 1).drop_last() =~= all.take(i as int));
            assert(all.take(i + 1).last() == caches@[i as int]@);
            if sizes[i] != 0 {
                let cache = &caches[i];
                let mut id = group_slug(group).to_owned();
                id.append(".");
                id.append(with_dots(cache.relative).as_str());
                let item = CleanupItem {
                    id,
                    group,
                    label: cache.label.to_owned(),
                    estimated_bytes: sizes[i],
                    risk: Risk::Low,
                    action: CleanupAction::RemovePath { path: self.cache_path(cache), contents_only: false },
                };
                items.push(item);
                assert(item@ =~= cache_item(self.home@, group, cache@, sizes@[i as int]));
                assert(views(items@) =~= before.push(item@));
            }
            assert(views(items@) =~= start + cache_items(self.home@, group, all.take(i + 1), sizes@));
        }
        assert(all.take(all.len() as int) =~= all);
    }

    fn scan_trash(&self, bytes: u64, items: &mut Vec<CleanupItem>)
        ensures
            views(final(items)@) == views(old(items)@) + trash_items(self.home@, bytes),
    {
        let ghost before = views(items@);
        if bytes > 0 {
            let item = CleanupItem {
                id: "user.trash".to_owned(),
                group: CleanupGroup::User,
                label: "Trash contents".to_owned(),
                estimated_bytes: bytes,
                risk: Risk::Explicit,
                action: CleanupAction::RemovePath { path: self.trash_path(), contents_only: true },
            };
            items.push(item);
            assert(views(items@) =~= before + seq![item@]);
        } else {
            assert(views(items@) =~= before + Seq::empty());
        }
    }

    fn scan_containers(&self, docker: bool, flatpak: bool, items: &mut Vec<CleanupItem>)
        ensures
            views(final(items)@) == views(old(items)@) + container_items(docker, flatpak),
    {
        let ghost before = views(items@);
        if docker {
            let item = CleanupItem {
                id: "containers.docker".to_owned(),
                group: CleanupGroup::Containers,
                label: "Stopped containers, dangling images, networks, and build cache (never volumes)".to_owned(),
                estimated_bytes: 0,
                risk: Risk::Elevated,
                action: CleanupAction::Command {
                    program: "docker".to_owned(),
                    args: words(vec!["system", "prune", "-f"]),
                    requires_root: false,
                },
            };
            assert(item@.action =~= docker_item().action);
            items.push(item);
            assert(views(items@) =~= before + seq![docker_item()]);
        }
        let ghost middle = views(items@);
        if flatpak {
            let item = CleanupItem {
                id: "containers.flatpak".to_owned(),
                group: CleanupGroup::Containers,
                label: "Unused Flatpak runtimes".to_owned(),
                estimated_bytes: 0,
                risk: Risk::Elevated,
                action: CleanupAction::Command {
                    program: "flatpak".to_owned(),
                    args: words(vec!["uninstall", "--unused", "-y"]),
                    requires_root: false,
                },
            };
            assert(item@.action =~= flatpak_item().action);
            items.push(item);
            assert(views(items@) =~= middle + seq![flatpak_item()]);
        }
        assert(views(items@) =~= before + container_items(docker, flatpak));
    }
}

/// The room that the items of a group take up together.
pub open spec fn group_bytes(items: Seq<ItemView>, group: CleanupGroup) -> nat
    decreases items.len(),
{
    if items.len() == 0 {
        0
    } else {
        group_bytes(items.drop_last(), group) + if items.last().group == group {
            items.last().estimated_bytes as nat
        } else {
            0
        }
    }
}

/// Whether there is an item of a group.
pub open spec fn has_group(items: Seq<ItemView>, group: CleanupGroup) -> bool {
    exists|i: int| 0 <= i < items.len() && (#[trigger] items[i]).group == group
}

/// Whether the sums of all groups are machine numbers.
pub open spec fn groups_fit(items: Seq<ItemView>) -> bool {
    forall|group: CleanupGroup| #[trigger] group_bytes(items, group) <= u64::MAX
}

proof fn lemma_group_grows(items: Seq<ItemView>, group: CleanupGroup, k: int)
    requires
        0 <= k <= items.len(),
    ensures
        group_bytes(items.take(k), group) <= group_bytes(items, group),
    decreases items.len() - k,
{
    if k < items.len() {
        lemma_group_grows(items, group, k + 1);
        assert(items.take(k + 1).drop_last() =~= items.take(k));
    } else {
        assert(items.take(k) =~= items);
    }
}

/// Whether a table says of a group what the items make up.
pub open spec fn tallied(sums: Map<CleanupGroup, u64>, items: Seq<ItemView>, group: CleanupGroup) -> bool {
    &&& sums.contains_key(group) == has_group(items, group)
    &&& sums.contains_key(group) ==> sums[group] as nat == group_bytes(items, group)
}

/// What has no item in a group takes up nothing there.
pub proof fn lemma_no_group(items: Seq<ItemView>, group: CleanupGroup)
    requires
        !has_group(items, group),
    ensures
        group_bytes(items, group) == 0,
    decreases items.len(),
{
    if items.len() > 0 {
        assert(items[items.len() - 1].group != group);
        if has_group(items.drop_last(), group) {
            let j = choose|j: int|
                0 <= j < items.drop_last().len() && (#[trigger] items.drop_last()[j]).group == group;
            assert(items[j].group == group);
        }
        lemma_no_group(items.drop_last(), group);
    }
}

proof fn lemma_one_more(before: Seq<ItemView>, item: ItemView, group: CleanupGroup)
    ensures
        group_bytes(before.push(item), group) == group_bytes(before, group) + if item.group == group {
            item.estimated_bytes as nat
        } else {
            0
        },
        has_group(before.push(item), group) == (has_group(before, group) || item.group == group),
{
    let after = before.push(item);
    assert(after.drop_last() =~= before);
    if has_group(before, group) {
        let j = choose|j: int| 0 <= j < before.len() && (#[trigger] before[j]).group == group;
        assert(after[j].group == group);
    } else if item.group == group {
        assert(after[before.len() as int].group == group);
    } else if has_group(after, group) {
        let j = choose|j: int| 0 <= j < after.len() && (#[trigger] after[j]).group == group;
        assert(before[j].group == group);
    }
}

fn summed(items: &Vec<CleanupItem>) -> (sums: Option<Table<CleanupGroup, u64>>)
    ensures
        match sums {
            Some(table) => {
                &&& groups_fit(views(items@))
                &&& forall|group: CleanupGroup| #[trigger] tallied(table@, views(items@), group)
            },
            None => !groups_fit(views(items@)),
        },
{
    let ghost all = views(items@);
    let mut sums: Table<CleanupGroup, u64> = Table::new();
    let mut i: usize = 0;
    while i < items.len()
        invariant
            i <= items@.len(),
            all == views(items@),
            groups_fit(all.take(i as int)),
            forall|group: CleanupGroup| #[trigger] tallied(sums@, all.take(i as int), group),
        decreases items@.len() - i,
    {
        let group = items[i].group;
        let bytes = items[i].estimated_bytes;
        let ghost before = all.take(i as int);
        let ghost item = all[i as int];
        proof {
            assert(all.take(i + 1) =~= before.push(item));
            lemma_group_grows(all, group, i + 1);
            lemma_one_more(before, item, group);
            assert(tallied(sums@, before, group));
            if !has_group(before, group) {
                lemma_no_group(before, group);
            }
        }
        let so_far: u64 = match sums.get(&group) {
            Some(sum) => *sum,
            None => 0,
        };
        assert(so_far as nat == group_bytes(before, group));
        if so_far > u64::MAX - bytes {
            assert(group_bytes(all, group) > u64::MAX);
            return None;
        }
        let ghost old_sums = sums@;
        sums.insert(group, so_far + bytes);
        proof {
            assert forall|g: CleanupGroup| #[trigger] group_bytes(before.push(item), g) <= u64::MAX by {
                lemma_one_more(before, item, g);
                assert(group_bytes(before, g) <= u64::MAX);
            }
            assert forall|g: CleanupGroup| #[trigger] tallied(sums@, before.push(item), g) by {
                lemma_one_more(before, item, g);
                assert(tallied(old_sums, before, g));
            }
        }
        i = i + 1;
    }
    assert(all.take(all.len() as int) =~= all);
    Some(sums)
}

/// Tests whether the sums of all groups are machine numbers.
pub fn can_summarize(items: &Vec<CleanupItem>) -> (yes: bool)
    ensures
        yes == groups_fit(views(items@)),
{
    summed(items).is_some()
}

/// The room that the items of each group take up, for the groups that have any.
pub fn summarize_by_group(items: &Vec<CleanupItem>) -> (sums: Table<CleanupGroup, u64>)
    requires
        groups_fit(views(items@)),
    ensures
        forall|group: CleanupGroup| #[trigger] tallied(sums@, views(items@), group),
{
    match summed(items) {
        Some(sums) => sums,
        None => Table::new(),
    }
}

/// A scan offers a cache exactly where it takes up room.
pub proof fn caches_are_offered_where_they_take_up_room(
    home: PathView,
    group: CleanupGroup,
    caches: Seq<CacheView>,
    sizes: Seq<u64>,
    item: ItemView,
)
    ensures
        cache_items(home, group, caches, sizes).contains(item) <==> exists|i: int|
            0 <= i < caches.len() && sizes[i] > 0 && item == cache_item(home, group, #[trigger] caches[i], sizes[i]),
    decreases caches.len(),
{
    if caches.len() > 0 {
        let front = caches.drop_last();
        let before = cache_items(home, group, front, sizes);
        let all = cache_items(home, group, caches, sizes);
        let last = caches.len() - 1;
        caches_are_offered_where_they_take_up_room(home, group, front, sizes, item);
        if all.contains(item) {
            let k = choose|k: int| 0 <= k < all.len() && all[k] == item;
            if k < before.len() {
                assert(before[k] == item);
                let i = choose|i: int|
                    0 <= i < front.len() && sizes[i] > 0 && item == cache_item(
                        home,
                        group,
                        #[trigger] front[i],
                        sizes[i],
                    );
                assert(caches[i] == front[i]);
            } else {
                assert(item == cache_item(home, group, caches[last], sizes[last]));
            }
        }
        if exists|i: int|
            0 <= i < caches.len() && sizes[i] > 0 && item == cache_item(home, group, #[trigger] caches[i], sizes[i]) {
            let i = choose|i: int|
                0 <= i < caches.len() && sizes[i] > 0 && item == cache_item(
                    home,
                    group,
                    #[trigger] caches[i],
                    sizes[i],
                );
            if i < last {
                assert(front[i] == caches[i]);
                let k = choose|k: int| 0 <= k < before.len() && before[k] == item;
                assert(all[k] == item);
            } else {
                assert(all[all.len() - 1] == item);
            }
        }
    }
}

proof fn lemma_caches_are_relative()
    ensures
        forall|i: int|
            0 <= i < user_caches().len() ==> (#[trigger] user_caches()[i]).relative.len() > 0
                && user_caches()[i].relative[0] != '/',
        forall|i: int|
            0 <= i < dev_caches().len() ==> (#[trigger] dev_caches()[i]).relative.len() > 0
                && dev_caches()[i].relative[0] != '/',
{
    reveal_strlit(".cache/yay");
    reveal_strlit(".cache/paru");
    reveal_strlit(".cache/thumbnails");
    reveal_strlit(".cache/mozilla");
    reveal_strlit(".cache/chromium");
    reveal_strlit(".cache/google-chrome");
    reveal_strlit(".cache/BraveSoftware");
    reveal_strlit(".cache/vivaldi");
    reveal_strlit(".cache/opera");
    reveal_strlit(".cache/pip");
    reveal_strlit(".npm/_cacache");
    reveal_strlit(".cache/pnpm");
    reveal_strlit(".cache/yarn");
    reveal_strlit(".cargo/registry/cache");
    reveal_strlit(".cargo/registry/src");
    reveal_strlit(".cargo/git");
    reveal_strlit("go/pkg/mod");
    reveal_strlit(".gradle/caches");
    reveal_strlit(".cache/composer");
}

/// Whether what an item removes, if it removes a path, begins with the components of
/// a directory.
pub open spec fn begins_with_home(item: ItemView, home: PathView) -> bool {
    match item.action {
        ActionView::RemovePath { path, .. } => path.starts_with(home),
        ActionView::RemovePersonalFile { path } => path.starts_with(home),
        _ => true,
    }
}

proof fn lemma_cache_items_begin_with_home(home: PathView, group: CleanupGroup, caches: Seq<CacheView>, sizes: Seq<u64>)
    requires
        forall|i: int|
            0 <= i < caches.len() ==> (#[trigger] caches[i]).relative.len() > 0 && caches[i].relative[0] != '/',
    ensures
        forall|i: int|
            0 <= i < cache_items(home, group, caches, sizes).len() ==> begins_with_home(
                #[trigger] cache_items(home, group, caches, sizes)[i],
                home,
            ),
    decreases caches.len(),
{
    if caches.len() > 0 {
        let front = caches.drop_last();
        assert forall|i: int| 0 <= i < front.len() implies (#[trigger] front[i]).relative.len() > 0
            && front[i].relative[0] != '/' by {
            assert(front[i] == caches[i]);
        }
        lemma_cache_items_begin_with_home(home, group, front, sizes);
        let last = caches[caches.len() - 1];
        assert(last.relative.len() > 0 && last.relative[0] != '/');
        texts_without_a_root_are_relative(last.relative);
        joining_keeps_the_components(home, path_of(last.relative));
        let before = cache_items(home, group, front, sizes);
        let all = cache_items(home, group, caches, sizes);
        assert forall|i: int| 0 <= i < all.len() implies begins_with_home(#[trigger] all[i], home) by {
            if i < before.len() {
                assert(all[i] == before[i]);
            }
        }
    }
}

/// A scan offers to remove only paths that begin with the components of the home
/// directory; all else that it offers runs a program.
pub proof fn removals_begin_with_home(home: PathView, facts: FactsView)
    requires
        complete_facts(facts),
    ensures
        forall|i: int| 0 <= i < offered(home, facts).len() ==> begins_with_home(#[trigger] offered(home, facts)[i], home),
{
    let user = cache_items(home, CleanupGroup::User, user_caches(), facts.user_bytes);
    let dev = cache_items(home, CleanupGroup::Dev, dev_caches(), facts.dev_bytes);
    let trash = trash_items(home, facts.trash_bytes);
    let packages = package_items(facts.packages);
    let system = system_items(facts.journalctl, facts.journal_bytes);
    let containers = container_items(facts.docker, facts.flatpak);
    reveal_strlit(".local/share/Trash");
    lemma_caches_are_relative();
    lemma_cache_items_begin_with_home(home, CleanupGroup::User, user_caches(), facts.user_bytes);
    lemma_cache_items_begin_with_home(home, CleanupGroup::Dev, dev_caches(), facts.dev_bytes);
    texts_without_a_root_are_relative(".local/share/Trash"@);
    joining_keeps_the_components(home, path_of(".local/share/Trash"@));
    let all = offered(home, facts);
    let to_system = packages.len() + system.len();
    let to_user = to_system + user.len();
    let to_trash = to_user + trash.len();
    let to_dev = to_trash + dev.len();
    assert forall|i: int| 0 <= i < all.len() implies begins_with_home(#[trigger] all[i], home) by {
        if i < packages.len() {
            assert(all[i] == packages[i]);
        } else if i < to_system {
            assert(all[i] == system[i - packages.len()]);
        } else if i < to_user {
            assert(all[i] == user[i - to_system]);
        } else if i < to_trash {
            assert(all[i] == trash[i - to_user]);
        } else if i < to_dev {
            assert(all[i] == dev[i - to_trash]);
        } else {
            assert(all[i] == containers[i - to_dev]);
        }
    }
}

/// A report stands in order: by the name of the group, and in a group with the
/// largest first.
pub proof fn scans_stand_in_order(home: PathView, facts: FactsView)
    ensures
        ({
            let items = stable_sorted(offered(home, facts), order_of::<CleanupItem>());
            forall|i: int, j: int|
                0 <= i < j < items.len() ==> CleanupItem::in_order(#[trigger] items[i], #[trigger] items[j])
        }),
{
    let items = stable_sorted(offered(home, facts), order_of::<CleanupItem>());
    ranked_is_total_preorder::<CleanupItem>();
    sorted_is_ordered(offered(home, facts), order_of::<CleanupItem>());
    assert forall|i: int, j: int| 0 <= i < j < items.len() implies CleanupItem::in_order(
        #[trigger] items[i],
        #[trigger] items[j],
    ) by {
        assert(order_of::<CleanupItem>()(items[i], items[j]));
    }
}

/// A report offers what the scan found, each item as often as it was found.
pub proof fn scans_report_what_they_found(home: PathView, facts: FactsView)
    ensures
        stable_sorted(offered(home, facts), order_of::<CleanupItem>()).to_multiset() == offered(
            home,
            facts,
        ).to_multiset(),
{
    sorting_keeps_elements(offered(home, facts), order_of::<CleanupItem>());
}

} // verus!
