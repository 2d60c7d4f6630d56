//! What desktop entry files say, line by line, and which files are ones.

use vstd::prelude::*;
use vstd::utf8::encode_utf8;

use crate::desktop::{
    candidate_entry, desktop_name, entries_of, entries_say_what_their_last_lines_set, entry_state, hides,
    in_entry_group, is_desktop_path, last_to_name, last_to_type, names, setting, CandidateView, DesktopView,
};
use crate::path::PathView;
use crate::text::{lines_of, lower, trimmed};
use crate::text_laws::single_separators_part;

verus! {

/// A line sets a key where it stands in the group of the entry, is no comment and begins
/// no group: what stands before its first equals sign is the key, and what stands behind
/// it, without white space around, the value. It stands in the group of the entry where
/// the line `[Desktop Entry]` comes before it, and none that begins with a bracket in
/// between.
pub proof fn lines_set_keys_in_their_group(file: Seq<Seq<char>>, i: int, h: int, key: Seq<char>, value: Seq<char>)
    requires
        0 <= h < i < file.len(),
        trimmed(file[h]) == "[Desktop Entry]"@,
        forall|k: int|
            h < k <= i ==> !(trimmed(#[trigger] file[k]).len() > 0 && trimmed(file[k])[0] == '['),
        !key.contains('='),
        !(key.len() > 0 && key[0] == '#'),
        trimmed(file[i]) == key + seq!['='] + value,
    ensures
        setting(file, i, key) == Some(trimmed(value)),
        forall|other: Seq<char>| other != key ==> setting(file, i, other) is None,
{
    reveal_strlit("[");
    reveal_strlit("#");
    reveal_strlit("=");
    assert("="@ =~= seq!['=']);
    single_separators_part(key, '=', value);
    let line = trimmed(file[i]);
    let front = file.take(i);
    assert(front[h] == file[h]);
    assert forall|k: int| h < k < front.len() implies !crate::desktop::begins_group(#[trigger] front[k]) by {
        assert(front[k] == file[k]);
        lemma_begins(trimmed(file[k]), '[', "["@);
    }
    assert(in_entry_group(front));
    lemma_begins(line, '[', "["@);
    lemma_begins(line, '#', "#"@);
    if line[0] == '#' {
        if key.len() > 0 {
            assert(line[0] == key[0]);
        } else {
            assert(line[0] == '=');
        }
    }
}

proof fn lemma_begins(line: Seq<char>, c: char, text: Seq<char>)
    requires
        text.len() == 1,
        text[0] == c,
    ensures
        text.is_prefix_of(line) <==> line.len() > 0 && line[0] == c,
{
    if line.len() > 0 && line[0] == c {
        assert(text =~= line.subrange(0, 1));
    }
    if text.is_prefix_of(line) {
        assert(line.subrange(0, 1)[0] == text[0]);
    }
}

/// A line that stands in no group of an entry, is a comment, or begins a group, sets
/// nothing.
pub proof fn other_lines_set_nothing(file: Seq<Seq<char>>, i: int, key: Seq<char>)
    requires
        0 <= i < file.len(),
        ({
            let line = trimmed(file[i]);
            ||| line.len() > 0 && (line[0] == '[' || line[0] == '#')
            ||| !line.contains('=')
            ||| forall|h: int|
                0 <= h < i && trimmed(#[trigger] file[h]) == "[Desktop Entry]"@ ==> exists|k: int|
                    h < k < i && trimmed(#[trigger] file[k]).len() > 0 && trimmed(file[k])[0] == '['
        }),
    ensures
        setting(file, i, key) is None,
{
    reveal_strlit("[");
    reveal_strlit("#");
    reveal_strlit("=");
    assert("="@ =~= seq!['=']);
    let line = trimmed(file[i]);
    lemma_begins(line, '[', "["@);
    lemma_begins(line, '#', "#"@);
    if !line.contains('=') {
        single_separators_part(line, '=', Seq::empty());
    }
    let front = file.take(i);
    if in_entry_group(front) {
        let h = choose|h: int|
            {
                &&& 0 <= h < front.len()
                &&& trimmed(#[trigger] front[h]) == "[Desktop Entry]"@
                &&& forall|k: int| h < k < front.len() ==> !crate::desktop::begins_group(#[trigger] front[k])
            };
        assert(trimmed(file[h]) == "[Desktop Entry]"@);
        if exists|k: int| h < k < i && trimmed(#[trigger] file[k]).len() > 0 && trimmed(file[k])[0] == '[' {
            let k = choose|k: int| h < k < i && trimmed(#[trigger] file[k]).len() > 0 && trimmed(file[k])[0] == '[';
            assert(front[k] == file[k]);
            lemma_begins(trimmed(front[k]), '[', "["@);
        }
    }
}

/// A desktop entry has a name exactly where its file sets one that is not blank, does not
/// set another type than that of an application last, and sets neither `Hidden` nor
/// `NoDisplay` to true, in whatever case. The name is the last that is set and not blank.
pub proof fn visible_applications_have_the_name_set_last(content: Seq<char>, i: int)
    ensures
        ({
            let file = lines_of(content);
            let hidden = exists|k: int|
                0 <= k < file.len() && {
                    ||| #[trigger] setting(file, k, "Hidden"@) matches Some(value) && lower(value) == lower("true"@)
                    ||| setting(file, k, "NoDisplay"@) matches Some(value) && lower(value) == lower("true"@)
                };
            let other_type = exists|k: int|
                0 <= k < file.len() && (#[trigger] setting(file, k, "Type"@)) is Some && setting(file, k, "Type"@)
                    != Some("Application"@) && forall|l: int|
                    k < l < file.len() ==> (#[trigger] setting(file, l, "Type"@)) is None;
            let named = |k: int| setting(file, k, "Name"@) is Some && setting(file, k, "Name"@)->0.len() > 0;
            &&& hidden || other_type ==> desktop_name(content) is None
            &&& (forall|k: int| 0 <= k < file.len() ==> !#[trigger] named(k)) ==> desktop_name(content) is None
            &&& !hidden && !other_type && 0 <= i < file.len() && named(i) && (forall|k: int|
                i < k < file.len() ==> !#[trigger] named(k)) ==> desktop_name(content) == setting(file, i, "Name"@)
        }),
{
    let file = lines_of(content);
    let state = entry_state(file);
    entries_say_what_their_last_lines_set(file);
    let named = |k: int| setting(file, k, "Name"@) is Some && setting(file, k, "Name"@)->0.len() > 0;
    let hidden = exists|k: int|
        0 <= k < file.len() && {
            ||| #[trigger] setting(file, k, "Hidden"@) matches Some(value) && lower(value) == lower("true"@)
            ||| setting(file, k, "NoDisplay"@) matches Some(value) && lower(value) == lower("true"@)
        };
    let other_type = exists|k: int|
        0 <= k < file.len() && (#[trigger] setting(file, k, "Type"@)) is Some && setting(file, k, "Type"@) != Some(
            "Application"@,
        ) && forall|l: int| k < l < file.len() ==> (#[trigger] setting(file, l, "Type"@)) is None;
    assert(hidden == !state.visible) by {
        if hidden {
            let k = choose|k: int|
                0 <= k < file.len() && {
                    ||| #[trigger] setting(file, k, "Hidden"@) matches Some(value) && lower(value) == lower("true"@)
                    ||| setting(file, k, "NoDisplay"@) matches Some(value) && lower(value) == lower("true"@)
                };
            assert(hides(file, k));
        }
        if !state.visible {
            let k = choose|k: int| 0 <= k < file.len() && #[trigger] hides(file, k);
            let shown = setting(file, k, "Hidden"@);
        }
    }
    assert(other_type == !state.application) by {
        if other_type {
            let k = choose|k: int|
                0 <= k < file.len() && (#[trigger] setting(file, k, "Type"@)) is Some && setting(file, k, "Type"@)
                    != Some("Application"@) && forall|l: int|
                    k < l < file.len() ==> (#[trigger] setting(file, l, "Type"@)) is None;
            if state.application {
                let l = choose|l: int| #[trigger]
                    last_to_type(file, l) && setting(file, l, "Type"@) == Some("Application"@);
                assert(setting(file, l, "Type"@) is Some);
                assert(setting(file, k, "Type"@) is Some);
            }
        }
        if !state.application {
            let k = lemma_last_type(file, file.len() as int);
            assert(last_to_type(file, k));
        }
    }
    assert forall|k: int| 0 <= k < file.len() implies #[trigger] named(k) == names(file, k) by {}
    if let Some(name) = state.name {
        let k = choose|k: int| #[trigger] last_to_name(file, k) && setting(file, k, "Name"@) == Some(name);
        assert(names(file, k));
        assert(named(k));
        if 0 <= i < file.len() && named(i) && (forall|l: int| i < l < file.len() ==> !#[trigger] named(l)) {
            if k < i {
                assert(!names(file, i));
            }
        }
    } else {
        if 0 <= i < file.len() && named(i) {
            assert(!names(file, i));
        }
    }
}

proof fn lemma_last_type(file: Seq<Seq<char>>, n: int) -> (k: int)
    requires
        0 <= n <= file.len(),
        exists|k: int| 0 <= k < n && (#[trigger] setting(file, k, "Type"@)) is Some,
        forall|l: int| n <= l < file.len() ==> (#[trigger] setting(file, l, "Type"@)) is None,
    ensures
        last_to_type(file, k),
    decreases n,
{
    if setting(file, n - 1, "Type"@) is Some {
        n - 1
    } else {
        lemma_last_type(file, n - 1)
    }
}

/// Desktop entry files are those whose names end in `.desktop` and have something before
/// that.
pub proof fn desktop_files_are_told_by_their_names(path: PathView, stem: Seq<u8>)
    ensures
        path.file_name() == Some(stem + encode_utf8(".desktop"@)) ==> (is_desktop_path(path) <==> stem.len() > 0),
        is_desktop_path(path) ==> path.file_name() is Some && path.file_name()->0.len() > 8 && path.file_name()->0.skip(
            path.file_name()->0.len() - 8,
        ) == encode_utf8(".desktop"@),
{
    reveal_strlit(".desktop");
    assert(vstd::utf8::is_ascii_chars(".desktop"@));
    vstd::utf8::is_ascii_chars_encode_utf8(".desktop"@);
    let suffix = encode_utf8(".desktop"@);
    assert(suffix.len() == 8);
    let name = stem + suffix;
    assert(suffix =~= name.subrange(name.len() - 8, name.len() as int));
    if is_desktop_path(path) {
        let own = path.file_name()->0;
        assert(own.skip(own.len() - 8) =~= own.subrange(own.len() - 8, own.len() as int));
    }
}

/// Every desktop entry file becomes an entry, in the order of the files: a regular file,
/// at most two levels down, that is named as such, and whose content is known and gives
/// it a name. Nothing else does.
pub proof fn every_desktop_file_becomes_an_entry(front: Seq<CandidateView>, file: CandidateView)
    ensures
        entries_of(Seq::empty()).len() == 0,
        entries_of(front.push(file)) == entries_of(front) + if file.is_file && file.depth <= 2 && is_desktop_path(
            file.path,
        ) && file.content is Some && desktop_name(file.content->0) is Some {
            seq![DesktopView { name: desktop_name(file.content->0)->0, path: file.path }]
        } else {
            Seq::empty()
        },
{
    assert(front.push(file).drop_last() =~= front);
    let before = entries_of(front);
    assert(before + Seq::<DesktopView>::empty() =~= before);
    if let Some(entry) = candidate_entry(file) {
        assert(before.push(entry) =~= before + seq![entry]);
    }
}

} // verus!
