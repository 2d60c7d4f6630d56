//! Walks through directory trees that add up the sizes of files and pick out the
//! large ones.
//!
//! A walk does not read directories itself. It hands out the directories that
//! are to be listed, one by one, and takes in what each of them holds, in any
//! order. It never follows symbolic links: what is one is passed over.

use vstd::multiset::Multiset;
use vstd::prelude::*;
use vstd::utf8::encode_utf8;

use crate::order::views;
use crate::path::{is_name, path_of, spells, Components, FilePath, PathView, Route};

verus! {

/// What a walk reads of a regular file: its size, and the second since the Unix
/// epoch in which it was last changed.
#[derive(Clone, Copy, Debug, PartialEq, Eq, Structural)]
pub struct FileMetadata {
    pub size: u64,
    pub modified_unix: Option<u64>,
}

/// What an entry of a directory is, the entry itself, not what it may point to.
#[derive(Clone, Copy, Debug, PartialEq, Eq)]
pub enum EntryKind {
    Symlink,
    Directory,
    File(FileMetadata),
    /// A regular file whose metadata cannot be read.
    UnreadableFile,
    /// A socket, a device or the like.
    Other,
    /// An entry of which not even the kind can be read.
    Unknown,
}

/// An entry of a directory.
#[derive(Clone, Debug, PartialEq, Eq)]
pub struct DirectoryEntry {
    pub name: Vec<u8>,
    pub kind: EntryKind,
}

/// What a directory says of an entry.
pub struct EntryView {
    pub name: Seq<u8>,
    pub kind: EntryKind,
}

impl View for DirectoryEntry {
    type V = EntryView;

    open spec fn view(&self) -> EntryView {
        EntryView { name: self.name@, kind: self.kind }
    }
}

/// A file that takes up much room.
#[derive(Clone, Debug, PartialEq, Eq)]
pub struct LargeFile {
    pub path: FilePath,
    pub size: u64,
    pub modified_unix: Option<u64>,
    pub app_data: bool,
}

/// What is known of a large file.
#[verifier::ext_equal]
pub struct LargeFileView {
    pub path: PathView,
    pub size: u64,
    pub modified_unix: Option<u64>,
    pub app_data: bool,
}

impl View for LargeFile {
    type V = LargeFileView;

    open spec fn view(&self) -> LargeFileView {
        LargeFileView {
            path: self.path@,
            size: self.size,
            modified_unix: self.modified_unix,
            app_data: self.app_data,
        }
    }
}

/// Which files count as large: those below `root` of at least that size.
pub struct LargeFileRule {
    pub root: FilePath,
    pub minimum_size: u64,
}

/// What such a rule says.
pub struct LargeFileRuleView {
    pub root: PathView,
    pub minimum_size: u64,
}

impl View for LargeFileRule {
    type V = LargeFileRuleView;

    open spec fn view(&self) -> LargeFileRuleView {
        LargeFileRuleView { root: self.root@, minimum_size: self.minimum_size }
    }
}

/// How a walk goes: whether it passes over version control and package
/// directories, how deep it goes, and which large files it picks out.
pub struct WalkRules {
    pub skip_known: bool,
    pub max_depth: usize,
    pub large: Option<LargeFileRule>,
}

/// What the rules of a walk say.
pub struct WalkRulesView {
    pub skip_known: bool,
    pub max_depth: nat,
    pub large: Option<LargeFileRuleView>,
}

impl View for WalkRules {
    type V = WalkRulesView;

    open spec fn view(&self) -> WalkRulesView {
        WalkRulesView {
            skip_known: self.skip_known,
            max_depth: self.max_depth as nat,
            large: match self.large {
                Some(rule) => Some(rule@),
                None => None,
            },
        }
    }
}

/// The directories of version control and of node packages.
pub open spec fn skipped_name(name: Seq<u8>) -> bool {
    name == encode_utf8(".git"@) || name == encode_utf8("node_modules"@)
}

/// Whether a directory of that name is passed over.
pub fn should_skip_name(name: &Vec<u8>) -> (yes: bool)
    ensures
        yes == skipped_name(name@),
{
    spells(name, ".git") || spells(name, "node_modules")
}

/// A name that begins with a dot.
pub open spec fn hidden_part(part: Seq<u8>) -> bool {
    is_name(part) && part.len() > 0 && part[0] == 46u8
}

/// Whether a component is a name that begins with a dot.
pub fn is_hidden_component(part: &Vec<u8>) -> (yes: bool)
    ensures
        yes == hidden_part(part@),
{
    if spells(part, ".") || spells(part, "..") {
        return false;
    }
    part.len() > 0 && part[0] == 46u8
}

/// Caches and the like, whose files are not for the user to judge.
pub open spec fn excluded_tree(relative: Route) -> bool {
    ||| relative.starts_with(path_of(".cache"@).route())
    ||| relative.starts_with(path_of(".local/share/Trash"@).route())
    ||| relative.starts_with(path_of(".cargo"@).route())
    ||| relative.starts_with(path_of(".npm"@).route())
    ||| relative.starts_with(path_of("go/pkg"@).route())
    ||| relative.starts_with(path_of(".local/share/flatpak"@).route())
    ||| relative.starts_with(path_of(".local/share/docker"@).route())
}

fn begins_with(relative: &Components, tree: &str) -> (yes: bool)
    ensures
        yes == relative@.starts_with(path_of(tree@).route()),
{
    relative.starts_with(&FilePath::from_text(tree).components())
}

/// Whether a path, seen from the home directory, lies in a cache or the like.
pub fn is_excluded_large_file(relative: &Components) -> (yes: bool)
    ensures
        yes == excluded_tree(relative@),
{
    begins_with(relative, ".cache")
        || begins_with(relative, ".local/share/Trash")
        || begins_with(relative, ".cargo")
        || begins_with(relative, ".npm")
        || begins_with(relative, "go/pkg")
        || begins_with(relative, ".local/share/flatpak")
        || begins_with(relative, ".local/share/docker")
}

/// The large file at `path`, where it is one.
pub open spec fn large_file(rule: LargeFileRuleView, path: PathView, metadata: FileMetadata) -> Option<LargeFileView> {
    if metadata.size < rule.minimum_size {
        None
    } else {
        match path.strip_prefix(rule.root) {
            None => None,
            Some(relative) => if excluded_tree(relative) {
                None
            } else {
                Some(
                    LargeFileView {
                        path,
                        size: metadata.size,
                        modified_unix: metadata.modified_unix,
                        app_data: exists|i: int|
                            0 <= i < relative.parts.len() && hidden_part(#[trigger] relative.parts[i]),
                    },
                )
            },
        }
    }
}

/// Decides whether the file at `path` is a large one.
pub fn check_large_file(rule: &LargeFileRule, path: &FilePath, metadata: &FileMetadata) -> (found: Option<LargeFile>)
    ensures
        match found {
            Some(file) => large_file(rule@, path@, *metadata) == Some(file@),
            None => large_file(rule@, path@, *metadata) is None,
        },
{
    if metadata.size < rule.minimum_size {
        return None;
    }
    let relative = match path.strip_prefix(&rule.root) {
        Some(relative) => relative,
        None => return None,
    };
    if is_excluded_large_file(&relative) {
        return None;
    }
    let mut app_data = false;
    for i in 0..relative.parts.len()
        invariant
            app_data == exists|j: int| 0 <= j < i && hidden_part(#[trigger] relative@.parts[j]),
    {
        assert(relative@.parts[i as int] == relative.parts@[i as int]@);
        if is_hidden_component(&relative.parts[i]) {
            app_data = true;
        }
    }
    Some(LargeFile { path: path.clone(), size: metadata.size, modified_unix: metadata.modified_unix, app_data })
}

/// What a walk brings home.
#[verifier::ext_equal]
pub struct Harvest {
    pub bytes: nat,
    pub files: nat,
    pub skipped: nat,
    pub large: Multiset<LargeFileView>,
}

impl Harvest {
    /// Nothing.
    pub open spec fn nothing() -> Harvest {
        Harvest { bytes: 0, files: 0, skipped: 0, large: Multiset::empty() }
    }

    /// One entry that could not be read.
    pub open spec fn one_skipped() -> Harvest {
        Harvest { bytes: 0, files: 0, skipped: 1, large: Multiset::empty() }
    }

    /// Both together.
    pub open spec fn plus(self, other: Harvest) -> Harvest {
        Harvest {
            bytes: self.bytes + other.bytes,
            files: self.files + other.files,
            skipped: self.skipped + other.skipped,
            large: self.large.add(other.large),
        }
    }
}

/// What a regular file brings.
pub open spec fn file_harvest(rules: WalkRulesView, path: PathView, metadata: FileMetadata) -> Harvest {
    Harvest {
        bytes: metadata.size as nat,
        files: 1,
        skipped: 0,
        large: match rules.large {
            Some(rule) => match large_file(rule, path, metadata) {
                Some(file) => Multiset::singleton(file),
                None => Multiset::empty(),
            },
            None => Multiset::empty(),
        },
    }
}

/// A tree of directories: what each of those that can be read holds.
pub type Tree = Map<PathView, Seq<EntryView>>;

/// What the directory `dir` brings, `depth` levels down.
pub open spec fn harvest_dir(tree: Tree, rules: WalkRulesView, dir: PathView, depth: nat) -> Harvest
    decreases rules.max_depth + 1 - depth, 1int, 0nat,
{
    if depth > rules.max_depth {
        Harvest::nothing()
    } else if !tree.contains_key(dir) {
        Harvest::one_skipped()
    } else {
        harvest_entries(tree, rules, dir, depth, tree[dir])
    }
}

/// What entries of the directory `dir` bring.
pub open spec fn harvest_entries(
    tree: Tree,
    rules: WalkRulesView,
    dir: PathView,
    depth: nat,
    entries: Seq<EntryView>,
) -> Harvest
    decreases rules.max_depth + 1 - depth, 0int, entries.len(),
{
    if entries.len() == 0 {
        Harvest::nothing()
    } else {
        let front = harvest_entries(tree, rules, dir, depth, entries.drop_last());
        let entry = entries.last();
        let path = dir.child(entry.name);
        if rules.skip_known && skipped_name(entry.name) {
            front
        } else {
            match entry.kind {
                EntryKind::Symlink | EntryKind::Other => front,
                EntryKind::UnreadableFile | EntryKind::Unknown => front.plus(Harvest::one_skipped()),
                EntryKind::File(metadata) => front.plus(file_harvest(rules, path, metadata)),
                EntryKind::Directory => if depth < rules.max_depth {
                    front.plus(harvest_dir(tree, rules, path, depth + 1))
                } else {
                    front
                },
            }
        }
    }
}

/// A directory that is still to be listed.
#[derive(Clone, Debug, PartialEq, Eq)]
pub struct PendingDir {
    pub path: FilePath,
    pub depth: usize,
}

/// What is known of such a directory.
pub struct DirView {
    pub path: PathView,
    pub depth: nat,
}

impl View for PendingDir {
    type V = DirView;

    open spec fn view(&self) -> DirView {
        DirView { path: self.path@, depth: self.depth as nat }
    }
}

/// Where a walk stands: what it is still to list, and what it has gathered.
#[verifier::ext_equal]
pub struct WalkView {
    pub rules: WalkRulesView,
    pub pending: Seq<DirView>,
    pub bytes: nat,
    pub files: nat,
    pub skipped: nat,
    pub large: Seq<LargeFileView>,
}

impl WalkView {
    /// A walk that has nothing to do.
    pub open spec fn idle(rules: WalkRulesView) -> WalkView {
        WalkView { rules, pending: Seq::empty(), bytes: 0, files: 0, skipped: 0, large: Seq::empty() }
    }

    /// With `dir` to be listed, unless it lies too deep.
    pub open spec fn with_dir(self, dir: DirView) -> WalkView {
        if dir.depth <= self.rules.max_depth {
            WalkView { pending: self.pending.push(dir), ..self }
        } else {
            self
        }
    }

    /// With one more entry that could not be read.
    pub open spec fn with_skipped(self) -> WalkView {
        WalkView { skipped: self.skipped + 1, ..self }
    }

    /// With one more regular file.
    pub open spec fn with_file(self, path: PathView, metadata: FileMetadata) -> WalkView {
        let found = match self.rules.large {
            Some(rule) => large_file(rule, path, metadata),
            None => None,
        };
        WalkView {
            bytes: self.bytes + metadata.size as nat,
            files: self.files + 1,
            large: match found {
                Some(file) => self.large.push(file),
                None => self.large,
            },
            ..self
        }
    }

    /// With one more entry of the directory `dir`.
    pub open spec fn with_entry(self, dir: DirView, entry: EntryView) -> WalkView {
        let path = dir.path.child(entry.name);
        if self.rules.skip_known && skipped_name(entry.name) {
            self
        } else {
            match entry.kind {
                EntryKind::Symlink | EntryKind::Other => self,
                EntryKind::UnreadableFile | EntryKind::Unknown => self.with_skipped(),
                EntryKind::File(metadata) => self.with_file(path, metadata),
                EntryKind::Directory => self.with_dir(DirView { path, depth: dir.depth + 1 }),
            }
        }
    }

    /// With entries of the directory `dir`.
    pub open spec fn with_entries(self, dir: DirView, entries: Seq<EntryView>) -> WalkView
        decreases entries.len(),
    {
        if entries.len() == 0 {
            self
        } else {
            self.with_entries(dir, entries.drop_last()).with_entry(dir, entries.last())
        }
    }

    /// With what the directory `dir` holds; nothing is known of it where it could
    /// not be read.
    pub open spec fn absorbed(self, dir: DirView, listing: Option<Seq<EntryView>>) -> WalkView {
        match listing {
            Some(entries) => self.with_entries(dir, entries),
            None => self.with_skipped(),
        }
    }

    /// Without the directory that was handed out last.
    pub open spec fn handed_out(self) -> WalkView {
        WalkView { pending: self.pending.drop_last(), ..self }
    }

    /// With nothing left to do.
    pub open spec fn cancelled(self) -> WalkView {
        WalkView { pending: Seq::empty(), ..self }
    }

    /// Without the large files, which have been taken.
    pub open spec fn without_large(self) -> WalkView {
        WalkView { large: Seq::empty(), ..self }
    }

    /// Whether the sums fit in machine numbers.
    pub open spec fn fits(self) -> bool {
        self.bytes <= u64::MAX && self.files <= u64::MAX && self.skipped <= u64::MAX
    }
}

/// What entries say, where a directory could be read.
pub open spec fn listing_view(listing: Option<Vec<DirectoryEntry>>) -> Option<Seq<EntryView>> {
    match listing {
        Some(entries) => Some(views(entries@)),
        None => None,
    }
}

/// A walk through a directory tree.
pub struct TreeWalk {
    rules: WalkRules,
    pending: Vec<PendingDir>,
    bytes: u64,
    files: u64,
    skipped: u64,
    large: Vec<LargeFile>,
}

impl View for TreeWalk {
    type V = WalkView;

    closed spec fn view(&self) -> WalkView {
        WalkView {
            rules: self.rules@,
            pending: views(self.pending@),
            bytes: self.bytes as nat,
            files: self.files as nat,
            skipped: self.skipped as nat,
            large: views(self.large@),
        }
    }
}

proof fn lemma_entries_grow(walk: WalkView, dir: DirView, entries: Seq<EntryView>, k: int)
    requires
        0 <= k <= entries.len(),
    ensures
        walk.with_entries(dir, entries.take(k)).bytes <= walk.with_entries(dir, entries).bytes,
        walk.with_entries(dir, entries.take(k)).files <= walk.with_entries(dir, entries).files,
        walk.with_entries(dir, entries.take(k)).skipped <= walk.with_entries(dir, entries).skipped,
    decreases entries.len() - k,
{
    if k < entries.len() {
        lemma_entries_grow(walk, dir, entries, k + 1);
        assert(entries.take(k + 1).drop_last() =~= entries.take(k));
    } else {
        assert(entries.take(k) =~= entries);
    }
}

proof fn lemma_entries_rules(walk: WalkView, dir: DirView, entries: Seq<EntryView>)
    ensures
        walk.with_entries(dir, entries).rules == walk.rules,
    decreases entries.len(),
{
    if entries.len() > 0 {
        lemma_entries_rules(walk, dir, entries.drop_last());
    }
}

impl TreeWalk {
    /// A walk that has nothing to do yet.
    pub fn idle(rules: WalkRules) -> (walk: TreeWalk)
        ensures
            walk@ == WalkView::idle(rules@),
    {
        let walk = TreeWalk { rules, pending: Vec::new(), bytes: 0, files: 0, skipped: 0, large: Vec::new() };
        assert(walk@ =~= WalkView::idle(rules@));
        walk
    }

    /// A walk through the directory at `path`, which lies one level down.
    pub fn through(path: FilePath, rules: WalkRules) -> (walk: TreeWalk)
        ensures
            walk@ == WalkView::idle(rules@).with_dir(DirView { path: path@, depth: 1 }),
    {
        let mut walk = TreeWalk::idle(rules);
        let ghost before = walk@;
        if 1 <= walk.rules.max_depth {
            walk.pending.push(PendingDir { path, depth: 1 });
            assert(walk@ =~= before.with_dir(DirView { path: path@, depth: 1 }));
        }
        walk
    }

    /// A walk that consists of the one regular file at `path`.
    pub fn of_file(path: &FilePath, metadata: &FileMetadata, rules: WalkRules) -> (walk: TreeWalk)
        ensures
            walk@ == WalkView::idle(rules@).with_file(path@, *metadata),
    {
        let mut walk = TreeWalk::idle(rules);
        walk.add_file(path, metadata);
        walk
    }

    fn add_file(&mut self, path: &FilePath, metadata: &FileMetadata)
        requires
            old(self)@.with_file(path@, *metadata).fits(),
        ensures
            final(self)@ == old(self)@.with_file(path@, *metadata),
    {
        let ghost before = self@;
        self.bytes = self.bytes + metadata.size;
        self.files = self.files + 1;
        if let Some(rule) = &self.rules.large {
            if let Some(file) = check_large_file(rule, path, metadata) {
                self.large.push(file);
                assert(views(self.large@) =~= before.large.push(file@));
            }
        }
        assert(self@ =~= before.with_file(path@, *metadata));
    }

    fn add_entry(&mut self, dir: &PendingDir, entry: &DirectoryEntry)
        requires
            old(self)@.with_entry(dir@, entry@).fits(),
        ensures
            final(self)@ == old(self)@.with_entry(dir@, entry@),
    {
        let ghost before = self@;
        if self.rules.skip_known && should_skip_name(&entry.name) {
            return;
        }
        match entry.kind {
            EntryKind::Symlink | EntryKind::Other => {},
            EntryKind::UnreadableFile | EntryKind::Unknown => {
                self.skipped = self.skipped + 1;
                assert(self@ =~= before.with_skipped());
            },
            EntryKind::File(metadata) => {
                let path = dir.path.child(&entry.name);
                self.add_file(&path, &metadata);
            },
            EntryKind::Directory => {
                if dir.depth < self.rules.max_depth {
                    let child = PendingDir { path: dir.path.child(&entry.name), depth: dir.depth + 1 };
                    self.pending.push(child);
                    assert(views(self.pending@) =~= before.pending.push(child@));
                    assert(self@ =~= before.with_dir(child@));
                }
            },
        }
    }

    /// Whether the sums stay machine numbers when `listing` is taken in.
    pub fn can_absorb(&self, dir: &PendingDir, listing: &Option<Vec<DirectoryEntry>>) -> (yes: bool)
        ensures
            yes == self@.absorbed(dir@, listing_view(*listing)).fits(),
    {
        match listing {
            None => self.skipped < u64::MAX,
            Some(entries) => {
                let ghost all = views(entries@);
                let mut bytes: u64 = self.bytes;
                let mut files: u64 = self.files;
                let mut skipped: u64 = self.skipped;
                for i in 0..entries.len()
                    invariant
                        all == views(entries@),
                        listing_view(*listing) == Some(all),
                        bytes == self@.with_entries(dir@, all.take(i as int)).bytes,
                        files == self@.with_entries(dir@, all.take(i as int)).files,
                        skipped == self@.with_entries(dir@, all.take(i as int)).skipped,
                {
                    let entry = &entries[i];
                    let ghost before = self@.with_entries(dir@, all.take(i as int));
                    proof {
                        assert(all.take(i + 1).drop_last() =~= all.take(i as int));
                        assert(all.take(i + 1).last() == entry@);
                        lemma_entries_rules(self@, dir@, all.take(i as int));
                        lemma_entries_grow(self@, dir@, all, i + 1);
                    }
                    if !(self.rules.skip_known && should_skip_name(&entry.name)) {
                        match entry.kind {
                            EntryKind::Symlink | EntryKind::Other | EntryKind::Directory => {},
                            EntryKind::UnreadableFile | EntryKind::Unknown => {
                                if skipped == u64::MAX {
                                    return false;
                                }
                                skipped = skipped + 1;
                            },
                            EntryKind::File(metadata) => {
                                if files == u64::MAX || bytes > u64::MAX - metadata.size {
                                    return false;
                                }
                                files = files + 1;
                                bytes = bytes + metadata.size;
                            },
                        }
                    }
                }
                assert(all.take(all.len() as int) =~= all);
                true
            },
        }
    }

    /// Takes in what the directory `dir` holds.
    pub fn absorb(&mut self, dir: &PendingDir, listing: &Option<Vec<DirectoryEntry>>)
        requires
            old(self)@.absorbed(dir@, listing_view(*listing)).fits(),
        ensures
            final(self)@ == old(self)@.absorbed(dir@, listing_view(*listing)),
    {
        let ghost start = self@;
        match listing {
            None => {
                self.skipped = self.skipped + 1;
                assert(self@ =~= start.with_skipped());
            },
            Some(entries) => {
                let ghost all = views(entries@);
                for i in 0..entries.len()
                    invariant
                        all == views(entries@),
                        self@ == start.with_entries(dir@, all.take(i as int)),
                        start.with_entries(dir@, all).fits(),
                {
                    let entry = &entries[i];
                    proof {
                        assert(all.take(i + 1).drop_last() =~= all.take(i as int));
                        assert(all.take(i + 1).last() == entry@);
                        lemma_entries_grow(start, dir@, all, i + 1);
                    }
                    self.add_entry(dir, entry);
                }
                assert(all.take(all.len() as int) =~= all);
            },
        }
    }

    /// Takes in what the directory `dir` holds, unless a sum would be no machine
    /// number; tells whether it did.
    pub fn try_absorb(&mut self, dir: &PendingDir, listing: &Option<Vec<DirectoryEntry>>) -> (done: bool)
        ensures
            done == old(self)@.absorbed(dir@, listing_view(*listing)).fits(),
            final(self)@ == if done {
                old(self)@.absorbed(dir@, listing_view(*listing))
            } else {
                old(self)@
            },
    {
        if self.can_absorb(dir, listing) {
            self.absorb(dir, listing);
            true
        } else {
            false
        }
    }

    /// Hands out a directory that is to be listed; none where there is none left,
    /// or where the walk is cancelled, which leaves it with nothing to do.
    pub fn next_dir(&mut self, cancelled: bool) -> (dir: Option<PendingDir>)
        ensures
            cancelled ==> dir is None && final(self)@ == old(self)@.cancelled(),
            !cancelled ==> match dir {
                Some(d) => old(self)@.pending.len() > 0 && d@ == old(self)@.pending.last() && final(self)@ == old(
                    self,
                )@.handed_out(),
                None => old(self)@.pending.len() == 0 && final(self)@ == old(self)@,
            },
    {
        let ghost before = self@;
        if cancelled {
            self.pending = Vec::new();
            assert(self@ =~= before.cancelled());
            return None;
        }
        assert(views(self.pending@).len() == self.pending@.len());
        let ghost listed = self.pending@;
        let dir = self.pending.pop();
        if dir.is_some() {
            assert(views(listed).last() == listed.last()@);
            assert(views(self.pending@) =~= views(listed).drop_last());
            assert(self@ =~= before.handed_out());
        }
        dir
    }

    /// The bytes of the files gathered so far.
    pub fn bytes(&self) -> (bytes: u64)
        ensures
            bytes as nat == self@.bytes,
    {
        self.bytes
    }

    /// The number of files gathered so far.
    pub fn files(&self) -> (files: u64)
        ensures
            files as nat == self@.files,
    {
        self.files
    }

    /// The number of entries that could not be read so far.
    pub fn skipped(&self) -> (skipped: u64)
        ensures
            skipped as nat == self@.skipped,
    {
        self.skipped
    }

    /// Takes the large files that were found since they were last taken.
    pub fn take_large_files(&mut self) -> (files: Vec<LargeFile>)
        ensures
            views(files@) == old(self)@.large,
            final(self)@ == old(self)@.without_large(),
    {
        let ghost before = self@;
        let mut files: Vec<LargeFile> = Vec::new();
        std::mem::swap(&mut files, &mut self.large);
        assert(self@ =~= before.without_large());
        files
    }
}

} // verus!
