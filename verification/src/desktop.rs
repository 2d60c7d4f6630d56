//! Desktop entry files: which files are ones, and the application that one
//! describes.

use vstd::prelude::*;
use vstd::utf8::encode_utf8;

use crate::order::views;
use crate::path::{bytes_of, FilePath, PathView};
use crate::text::{
    chars_of, lines, lines_of, lower, same_ignoring_case, same_text, slices, split_at_first, split_once, string_of,
    trim, trimmed,
};

verus! {

/// An application that a desktop entry file describes.
pub struct DesktopApplication {
    pub name: String,
    pub path: FilePath,
}

/// What is known of such an application.
pub struct DesktopView {
    pub name: Seq<char>,
    pub path: PathView,
}

impl View for DesktopApplication {
    type V = DesktopView;

    open spec fn view(&self) -> DesktopView {
        DesktopView { name: self.name@, path: self.path@ }
    }
}

/// What the lines read so far say of the application.
pub struct EntryState {
    pub in_entry: bool,
    pub name: Option<Seq<char>>,
    pub application: bool,
    pub visible: bool,
}

/// What one more line, trimmed, adds.
pub open spec fn entry_line(state: EntryState, line: Seq<char>) -> EntryState {
    if "["@.is_prefix_of(line) {
        EntryState { in_entry: line == "[Desktop Entry]"@, ..state }
    } else if !state.in_entry || "#"@.is_prefix_of(line) {
        state
    } else {
        match split_at_first(line, "="@) {
            None => state,
            Some((key, value)) => {
                if key == "Name"@ && trimmed(value).len() > 0 {
                    EntryState { name: Some(trimmed(value)), ..state }
                } else if key == "Type"@ {
                    EntryState { application: trimmed(value) == "Application"@, ..state }
                } else if (key == "Hidden"@ || key == "NoDisplay"@) && lower(trimmed(value)) == lower("true"@) {
                    EntryState { visible: false, ..state }
                } else {
                    state
                }
            },
        }
    }
}

/// What the lines of a desktop entry file say. An entry is a visible application
/// until it says otherwise.
pub open spec fn entry_state(file: Seq<Seq<char>>) -> EntryState
    decreases file.len(),
{
    if file.len() == 0 {
        EntryState { in_entry: false, name: None, application: true, visible: true }
    } else {
        entry_line(entry_state(file.drop_last()), trimmed(file.last()))
    }
}

/// The name of the application, where the file describes a visible one.
pub open spec fn desktop_name(content: Seq<char>) -> Option<Seq<char>> {
    let state = entry_state(lines_of(content));
    if state.application && state.visible {
        state.name
    } else {
        None
    }
}

/// Whether a line begins a group.
pub open spec fn begins_group(line: Seq<char>) -> bool {
    "["@.is_prefix_of(trimmed(line))
}

/// Whether the last group that begins among these lines is that of the entry.
pub open spec fn in_entry_group(file: Seq<Seq<char>>) -> bool {
    exists|h: int|
        {
            &&& 0 <= h < file.len()
            &&& trimmed(#[trigger] file[h]) == "[Desktop Entry]"@
            &&& forall|k: int| h < k < file.len() ==> !begins_group(#[trigger] file[k])
        }
}

/// What line `i` sets `key` to, where it does, in the group of the entry.
pub open spec fn setting(file: Seq<Seq<char>>, i: int, key: Seq<char>) -> Option<Seq<char>> {
    let line = trimmed(file[i]);
    if begins_group(file[i]) || "#"@.is_prefix_of(line) || !in_entry_group(file.take(i)) {
        None
    } else {
        match split_at_first(line, "="@) {
            Some((name, value)) => if name == key {
                Some(trimmed(value))
            } else {
                None
            },
            None => None,
        }
    }
}

/// Whether line `i` gives the entry a name.
pub open spec fn names(file: Seq<Seq<char>>, i: int) -> bool {
    match setting(file, i, "Name"@) {
        Some(name) => name.len() > 0,
        None => false,
    }
}

/// Whether line `i` hides the entry.
pub open spec fn hides(file: Seq<Seq<char>>, i: int) -> bool {
    ||| setting(file, i, "Hidden"@) matches Some(value) && lower(value) == lower("true"@)
    ||| setting(file, i, "NoDisplay"@) matches Some(value) && lower(value) == lower("true"@)
}

/// Whether line `i` is the last to give the entry a name.
pub open spec fn last_to_name(file: Seq<Seq<char>>, i: int) -> bool {
    &&& 0 <= i < file.len()
    &&& names(file, i)
    &&& forall|j: int| i < j < file.len() ==> !#[trigger] names(file, j)
}

/// Whether line `i` is the last to give the entry a type.
pub open spec fn last_to_type(file: Seq<Seq<char>>, i: int) -> bool {
    &&& 0 <= i < file.len()
    &&& setting(file, i, "Type"@) is Some
    &&& forall|j: int| i < j < file.len() ==> (#[trigger] setting(file, j, "Type"@)) is None
}

proof fn lemma_front(file: Seq<Seq<char>>)
    requires
        file.len() > 0,
    ensures
        forall|i: int, key: Seq<char>|
            0 <= i < file.drop_last().len() ==> #[trigger] setting(file.drop_last(), i, key) == setting(file, i, key),
        forall|i: int| 0 <= i < file.drop_last().len() ==> #[trigger] names(file.drop_last(), i) == names(file, i),
        forall|i: int| 0 <= i < file.drop_last().len() ==> #[trigger] hides(file.drop_last(), i) == hides(file, i),
{
    let front = file.drop_last();
    assert forall|i: int, key: Seq<char>| 0 <= i < front.len() implies #[trigger] setting(front, i, key) == setting(
        file,
        i,
        key,
    ) by {
        assert(front[i] == file[i]);
        assert(front.take(i) =~= file.take(i));
    }
    assert forall|i: int| 0 <= i < front.len() implies #[trigger] names(front, i) == names(file, i) by {
        assert(setting(front, i, "Name"@) == setting(file, i, "Name"@));
    }
    assert forall|i: int| 0 <= i < front.len() implies #[trigger] hides(front, i) == hides(file, i) by {
        assert(setting(front, i, "Hidden"@) == setting(file, i, "Hidden"@));
        assert(setting(front, i, "NoDisplay"@) == setting(file, i, "NoDisplay"@));
    }
}

proof fn lemma_group(file: Seq<Seq<char>>)
    ensures
        entry_state(file).in_entry == in_entry_group(file),
    decreases file.len(),
{
    if file.len() > 0 {
        let front = file.drop_last();
        let last = file.len() - 1;
        lemma_group(front);
        reveal_strlit("[");
        reveal_strlit("[Desktop Entry]");
        if begins_group(file[last]) {
            if trimmed(file[last]) == "[Desktop Entry]"@ {
                assert(in_entry_group(file));
            }
        } else {
            if in_entry_group(front) {
                let h = choose|h: int|
                    {
                        &&& 0 <= h < front.len()
                        &&& trimmed(#[trigger] front[h]) == "[Desktop Entry]"@
                        &&& forall|k: int| h < k < front.len() ==> !begins_group(#[trigger] front[k])
                    };
                assert(trimmed(file[h]) == "[Desktop Entry]"@);
                assert forall|k: int| h < k < file.len() implies !begins_group(#[trigger] file[k]) by {
                    if k < last {
                        assert(front[k] == file[k]);
                    }
                }
            }
            if in_entry_group(file) {
                let h = choose|h: int|
                    {
                        &&& 0 <= h < file.len()
                        &&& trimmed(#[trigger] file[h]) == "[Desktop Entry]"@
                        &&& forall|k: int| h < k < file.len() ==> !begins_group(#[trigger] file[k])
                    };
                assert("[Desktop Entry]"@.subrange(0, 1) =~= "["@);
                assert(h < last);
                assert(trimmed(front[h]) == "[Desktop Entry]"@);
                assert forall|k: int| h < k < front.len() implies !begins_group(#[trigger] front[k]) by {
                    assert(front[k] == file[k]);
                }
            }
        }
    }
}

/// What a desktop entry file says of the application. Its name is the one that the
/// last line sets which sets any but a blank one. It is an application unless the
/// last line that sets a type sets another. It is visible unless a line hides it.
/// Only lines in the group of the entry count, and no comments.
pub proof fn entries_say_what_their_last_lines_set(file: Seq<Seq<char>>)
    ensures
        match entry_state(file).name {
            Some(name) => exists|i: int| #[trigger] last_to_name(file, i) && setting(file, i, "Name"@) == Some(name),
            None => forall|i: int| 0 <= i < file.len() ==> !#[trigger] names(file, i),
        },
        entry_state(file).application <==> {
            ||| forall|i: int| 0 <= i < file.len() ==> (#[trigger] setting(file, i, "Type"@)) is None
            ||| exists|i: int| #[trigger]
                last_to_type(file, i) && setting(file, i, "Type"@) == Some("Application"@)
        },
        entry_state(file).visible <==> forall|i: int| 0 <= i < file.len() ==> !#[trigger] hides(file, i),
    decreases file.len(),
{
    if file.len() > 0 {
        let front = file.drop_last();
        let last = file.len() - 1;
        entries_say_what_their_last_lines_set(front);
        lemma_front(file);
        lemma_group(front);
        assert(file.take(last) =~= front);
        reveal_strlit("Name");
        reveal_strlit("Type");
        reveal_strlit("Hidden");
        reveal_strlit("NoDisplay");
        assert("Name"@.len() == 4 && "Type"@.len() == 4 && "Hidden"@.len() == 6 && "NoDisplay"@.len() == 9);
        assert("Name"@[0] != "Type"@[0]);
        lemma_names(file);
        lemma_types(file);
        let before = entry_state(front);
        let now = entry_state(file);
        assert(now.visible == (before.visible && !hides(file, last)));
        if now.visible {
            assert forall|i: int| 0 <= i < file.len() implies !#[trigger] hides(file, i) by {
                if i < last {
                    assert(!hides(front, i));
                }
            }
        } else if before.visible {
            assert(hides(file, last));
        } else {
            let i = choose|i: int| 0 <= i < front.len() && #[trigger] hides(front, i);
            assert(hides(file, i));
        }
    }
}

proof fn lemma_names(file: Seq<Seq<char>>)
    requires
        file.len() > 0,
        match entry_state(file.drop_last()).name {
            Some(name) => exists|i: int| #[trigger]
                last_to_name(file.drop_last(), i) && setting(file.drop_last(), i, "Name"@) == Some(name),
            None => forall|i: int| 0 <= i < file.drop_last().len() ==> !#[trigger] names(file.drop_last(), i),
        },
    ensures
        match entry_state(file).name {
            Some(name) => exists|i: int| #[trigger] last_to_name(file, i) && setting(file, i, "Name"@) == Some(name),
            None => forall|i: int| 0 <= i < file.len() ==> !#[trigger] names(file, i),
        },
{
    let front = file.drop_last();
    let last = file.len() - 1;
    let before = entry_state(front);
    lemma_front(file);
    lemma_group(front);
    assert(file.take(last) =~= front);
    reveal_strlit("Name");
    reveal_strlit("Type");
    if names(file, last) {
        assert(last_to_name(file, last));
    } else {
        assert(entry_state(file).name == before.name);
        match before.name {
            Some(name) => {
                let i = choose|i: int| #[trigger] last_to_name(front, i) && setting(front, i, "Name"@) == Some(name);
                assert(names(front, i));
                assert forall|j: int| i < j < file.len() implies !#[trigger] names(file, j) by {
                    if j < last {
                        assert(!names(front, j));
                    }
                }
                assert(setting(front, i, "Name"@) == setting(file, i, "Name"@));
                assert(last_to_name(file, i));
            },
            None => {
                assert forall|i: int| 0 <= i < file.len() implies !#[trigger] names(file, i) by {
                    if i < last {
                        assert(!names(front, i));
                    }
                }
            },
        }
    }
}

proof fn lemma_types(file: Seq<Seq<char>>)
    requires
        file.len() > 0,
        entry_state(file.drop_last()).application <==> {
            ||| forall|i: int|
                0 <= i < file.drop_last().len() ==> (#[trigger] setting(file.drop_last(), i, "Type"@)) is None
            ||| exists|i: int| #[trigger]
                last_to_type(file.drop_last(), i) && setting(file.drop_last(), i, "Type"@) == Some("Application"@)
        },
    ensures
        entry_state(file).application <==> {
            ||| forall|i: int| 0 <= i < file.len() ==> (#[trigger] setting(file, i, "Type"@)) is None
            ||| exists|i: int| #[trigger]
                last_to_type(file, i) && setting(file, i, "Type"@) == Some("Application"@)
        },
{
    let front = file.drop_last();
    let last = file.len() - 1;
    lemma_front(file);
    lemma_group(front);
    assert(file.take(last) =~= front);
    reveal_strlit("Name");
    reveal_strlit("Type");
    assert("Name"@[0] != "Type"@[0]);
    if setting(file, last, "Type"@) is Some {
        assert(last_to_type(file, last));
        assert(entry_state(file).application == (setting(file, last, "Type"@) == Some("Application"@)));
        assert forall|i: int| #[trigger] last_to_type(file, i) implies i == last by {
            if i < last {
                assert(setting(file, last, "Type"@) is None);
            }
        }
    } else {
        assert(entry_state(file).application == entry_state(front).application);
        assert forall|i: int| #[trigger] last_to_type(file, i) implies last_to_type(front, i) by {
            assert(i < last);
            assert(setting(front, i, "Type"@) == setting(file, i, "Type"@));
            assert forall|j: int| i < j < front.len() implies (#[trigger] setting(front, j, "Type"@)) is None by {
                assert(setting(file, j, "Type"@) is None);
            }
        }
        assert forall|i: int| #[trigger] last_to_type(front, i) implies last_to_type(file, i) by {
            assert(setting(front, i, "Type"@) == setting(file, i, "Type"@));
            assert forall|j: int| i < j < file.len() implies (#[trigger] setting(file, j, "Type"@)) is None by {
                if j < last {
                    assert(setting(front, j, "Type"@) is None);
                }
            }
        }
        if forall|i: int| 0 <= i < front.len() ==> (#[trigger] setting(front, i, "Type"@)) is None {
            assert forall|i: int| 0 <= i < file.len() implies (#[trigger] setting(file, i, "Type"@)) is None by {
                if i < last {
                    assert(setting(front, i, "Type"@) is None);
                }
            }
        }
        if forall|i: int| 0 <= i < file.len() ==> (#[trigger] setting(file, i, "Type"@)) is None {
            assert forall|i: int| 0 <= i < front.len() implies (#[trigger] setting(front, i, "Type"@)) is None by {
                assert(setting(file, i, "Type"@) is None);
            }
        }
        if exists|i: int| #[trigger] last_to_type(front, i) && setting(front, i, "Type"@) == Some("Application"@) {
            let i = choose|i: int| #[trigger]
                last_to_type(front, i) && setting(front, i, "Type"@) == Some("Application"@);
            assert(last_to_type(file, i));
            assert(setting(front, i, "Type"@) == setting(file, i, "Type"@));
        }
        if exists|i: int| #[trigger] last_to_type(file, i) && setting(file, i, "Type"@) == Some("Application"@) {
            let i = choose|i: int| #[trigger]
                last_to_type(file, i) && setting(file, i, "Type"@) == Some("Application"@);
            assert(last_to_type(front, i));
            assert(setting(front, i, "Type"@) == setting(file, i, "Type"@));
        }
    }
}

/// The name of the application that the content of a desktop entry file
/// describes; none where it is hidden or no application.
pub fn parse_desktop_name(content: &str) -> (name: Option<String>)
    ensures
        match name {
            Some(text) => desktop_name(content@) == Some(text@),
            None => desktop_name(content@) is None,
        },
{
    let chars = chars_of(content);
    let file = lines(chars.as_slice());
    let mut in_entry = false;
    let mut name: Option<String> = None;
    let mut application = true;
    let mut visible = true;
    let ghost all = slices(file@);
    proof {
        reveal_strlit("[");
        reveal_strlit("#");
    }
    for i in 0..file.len()
        invariant
            all == slices(file@),
            ({
                let state = entry_state(all.take(i as int));
                &&& state.in_entry == in_entry
                &&& state.application == application
                &&& state.visible == visible
                &&& match name {
                    Some(text) => state.name == Some(text@),
                    None => state.name is None,
                }
            }),
    {
        proof {
            assert(all.take(i + 1).drop_last() =~= all.take(i as int));
            assert(all.take(i + 1).last() == file@[i as int]@);
        }
        let line = trim(file[i]);
        if crate::text::starts_with(line, "[") {
            in_entry = same_text(line, "[Desktop Entry]");
        } else if in_entry && !crate::text::starts_with(line, "#") {
            if let Some((key, value)) = split_once(line, "=") {
                let value = trim(value);
                if same_text(key, "Name") && value.len() > 0 {
                    name = Some(string_of(value));
                } else if same_text(key, "Type") {
                    application = same_text(value, "Application");
                } else if (same_text(key, "Hidden") || same_text(key, "NoDisplay")) && same_ignoring_case(
                    value,
                    "true",
                ) {
                    visible = false;
                }
            }
        }
    }
    assert(all.take(all.len() as int) =~= all);
    if application && visible {
        name
    } else {
        None
    }
}

/// A file name with the extension `desktop`: the name has something before its
/// last dot, and that word behind it.
pub open spec fn desktop_file_name(name: Seq<u8>) -> bool {
    name.len() > 8 && encode_utf8(".desktop"@).is_suffix_of(name)
}

/// A path to a file that is named as desktop entry files are.
pub open spec fn is_desktop_path(path: PathView) -> bool {
    match path.file_name() {
        Some(name) => desktop_file_name(name),
        None => false,
    }
}

/// Whether `path` is named as desktop entry files are.
pub fn is_desktop_file(path: &FilePath) -> (yes: bool)
    ensures
        yes == is_desktop_path(path@),
{
    match path.file_name() {
        None => false,
        Some(name) => {
            let suffix = bytes_of(chars_of(".desktop").as_slice());
            if name.len() <= 8 || suffix.len() > name.len() {
                return false;
            }
            let start = name.len() - suffix.len();
            for i in 0..suffix.len()
                invariant
                    start + suffix@.len() == name.len(),
                    name@.len() > 8,
                    path@.file_name() == Some(name@),
                    suffix@ == encode_utf8(".desktop"@),
                    forall|j: int| 0 <= j < i ==> suffix@[j] == name@[start + j],
            {
                if suffix[i] != name[start + i] {
                    assert(name@.subrange(start as int, name@.len() as int)[i as int] != suffix@[i as int]);
                    return false;
                }
            }
            assert(suffix@ =~= name@.subrange(start as int, name@.len() as int));
            true
        },
    }
}

/// How many levels below their directory desktop entries lie at most.
pub const DESKTOP_DEPTH: usize = 2;

/// A file below a directory of desktop entries: its path, how many levels down it
/// lies, whether it is a regular file, and its content where that is a readable
/// text.
pub struct DesktopCandidate {
    pub path: FilePath,
    pub depth: usize,
    pub is_file: bool,
    pub content: Option<String>,
}

/// What is known of such a file.
pub struct CandidateView {
    pub path: PathView,
    pub depth: nat,
    pub is_file: bool,
    pub content: Option<Seq<char>>,
}

impl View for DesktopCandidate {
    type V = CandidateView;

    open spec fn view(&self) -> CandidateView {
        CandidateView {
            path: self.path@,
            depth: self.depth as nat,
            is_file: self.is_file,
            content: match self.content {
                Some(text) => Some(text@),
                None => None,
            },
        }
    }
}

/// The application that a file describes, if it does not lie too deep.
pub open spec fn candidate_entry(candidate: CandidateView) -> Option<DesktopView> {
    if candidate.depth <= DESKTOP_DEPTH && candidate.is_file && is_desktop_path(candidate.path) {
        match candidate.content {
            Some(content) => match desktop_name(content) {
                Some(name) => Some(DesktopView { name, path: candidate.path }),
                None => None,
            },
            None => None,
        }
    } else {
        None
    }
}

/// The applications that files describe, in the order of the files.
pub open spec fn entries_of(candidates: Seq<CandidateView>) -> Seq<DesktopView>
    decreases candidates.len(),
{
    if candidates.len() == 0 {
        Seq::empty()
    } else {
        let front = entries_of(candidates.drop_last());
        match candidate_entry(candidates.last()) {
            Some(entry) => front.push(entry),
            None => front,
        }
    }
}

/// The applications that the files found below the desktop entry directories
/// describe.
pub fn discover_desktop_entries(candidates: &Vec<DesktopCandidate>) -> (entries: Vec<DesktopApplication>)
    ensures
        views(entries@) == entries_of(views(candidates@)),
{
    let mut entries: Vec<DesktopApplication> = Vec::new();
    let ghost all = views(candidates@);
    assert(views(entries@) =~= entries_of(all.take(0)));
    for i in 0..candidates.len()
        invariant
            all == views(candidates@),
            views(entries@) == entries_of(all.take(i as int)),
    {
        let ghost done = views(entries@);
        let candidate = &candidates[i];
        proof {
            assert(all.take(i + 1).drop_last() =~= all.take(i as int));
            assert(all.take(i + 1).last() == candidate@);
        }
        if candidate.depth <= DESKTOP_DEPTH && candidate.is_file && is_desktop_file(&candidate.path) {
            if let Some(content) = &candidate.content {
                if let Some(name) = parse_desktop_name(content.as_str()) {
                    let entry = DesktopApplication { name, path: candidate.path.clone() };
                    entries.push(entry);
                    assert(views(entries@) =~= done.push(entry@));
                }
            }
        }
    }
    assert(all.take(all.len() as int) =~= all);
    entries
}

} // verus!
