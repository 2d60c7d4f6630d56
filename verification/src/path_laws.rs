//! What holds of paths, byte by byte: which components they have, and how they are
//! put together.

use vstd::prelude::*;

use crate::order::lexicographic;
use crate::path::{
    byte_before, bytes_le, entry_name, is_name, lemma_components_behind, lemma_segments, lemma_segments_around,
    part_before, path_le, segments, single_components, single_segments, PathView, Route,
};
use crate::text::lossy_text;

verus! {

proof fn lemma_dots()
    ensures
        vstd::utf8::encode_utf8("."@) == seq![46u8],
        vstd::utf8::encode_utf8(".."@) == seq![46u8, 46u8],
{
    reveal_strlit(".");
    reveal_strlit("..");
    assert(vstd::utf8::is_ascii_chars("."@));
    assert(vstd::utf8::is_ascii_chars(".."@));
    vstd::utf8::is_ascii_chars_encode_utf8("."@);
    vstd::utf8::is_ascii_chars_encode_utf8(".."@);
    assert(vstd::utf8::encode_utf8("."@) =~= seq![46u8]);
    assert(vstd::utf8::encode_utf8(".."@) =~= seq![46u8, 46u8]);
}

/// A path of one segment has that segment as its component; the empty path has none.
pub proof fn single_segments_are_components(bytes: Seq<u8>)
    requires
        !bytes.contains(47u8),
    ensures
        (PathView { bytes }).route() == (Route {
            absolute: false,
            parts: if bytes.len() == 0 {
                Seq::empty()
            } else {
                seq![bytes]
            },
        }),
{
    single_segments(bytes);
    single_components(bytes, false);
    if bytes.len() > 0 {
        assert(bytes[0] != 47u8);
    }
}

/// What stands behind the last separator of a path is one more component, but for
/// nothing at all and for a dot, which add none. A path that begins with a separator
/// starts at the root, and no other does.
pub proof fn separators_part_components(front: Seq<u8>, back: Seq<u8>)
    requires
        !back.contains(47u8),
    ensures
        (PathView { bytes: front.push(47u8) + back }).route() == (Route {
            absolute: front.len() == 0 || front[0] == 47u8,
            parts: if back.len() == 0 || back == seq![46u8] {
                (PathView { bytes: front }).route().parts
            } else {
                (PathView { bytes: front }).route().parts.push(back)
            },
        }),
{
    let path = PathView { bytes: front.push(47u8) + back };
    let dir = PathView { bytes: front };
    lemma_dots();
    lemma_segments_around(front, back);
    lemma_segments(front);
    lemma_components_behind(segments(front), segments(back), path.absolute());
    single_segments(back);
    single_components(back, true);
    assert(path.bytes[0] == if front.len() == 0 {
        47u8
    } else {
        front[0]
    });
    if front.len() == 0 {
        assert(front =~= Seq::empty());
        single_segments(front);
        single_components(front, true);
        single_components(front, false);
    }
    let parts = dir.route().parts;
    assert(parts + Seq::<Seq<u8>>::empty() =~= parts);
    assert(parts + seq![back] =~= parts.push(back));
}

/// The name of a file is what stands behind the last separator of its path, however
/// the path begins. There is none where that is a dot, or two.
pub proof fn names_stand_behind_the_last_separator(dir: Seq<u8>, name: Seq<u8>)
    requires
        name.len() > 0,
        !name.contains(47u8),
        name != seq![46u8],
    ensures
        (PathView { bytes: dir.push(47u8) + name }).file_name() == if name == seq![46u8, 46u8] {
            None
        } else {
            Some(name)
        },
        (PathView { bytes: name }).file_name() == (PathView { bytes: dir.push(47u8) + name }).file_name(),
{
    lemma_dots();
    separators_part_components(dir, name);
    single_segments_are_components(name);
}

/// Separators and dots at the end of a path change nothing about its name.
pub proof fn what_ends_in_a_separator_keeps_its_name(path: Seq<u8>)
    ensures
        (PathView { bytes: path.push(47u8) }).file_name() == (PathView { bytes: path }).file_name(),
        (PathView { bytes: path.push(47u8).push(46u8) }).file_name() == (PathView { bytes: path }).file_name(),
{
    separators_part_components(path, Seq::empty());
    assert(path.push(47u8) + Seq::<u8>::empty() =~= path.push(47u8));
    separators_part_components(path, seq![46u8]);
    assert(path.push(47u8) + seq![46u8] =~= path.push(47u8).push(46u8));
}

/// An entry of a directory is written as the directory, a separator and its name;
/// the separator is not repeated where the directory ends in one, and there is none
/// where the directory is the empty path.
pub proof fn entries_are_written_behind_their_directory(dir: PathView, name: Seq<u8>)
    requires
        !name.contains(47u8),
    ensures
        dir.bytes.len() == 0 ==> dir.child(name).bytes == name,
        dir.bytes.len() > 0 && dir.bytes.last() == 47u8 ==> dir.child(name).bytes == dir.bytes + name,
        dir.bytes.len() > 0 && dir.bytes.last() != 47u8 ==> dir.child(name).bytes == dir.bytes + seq![47u8] + name,
{
    if name.len() > 0 {
        assert(name[0] != 47u8);
    }
    assert(dir.bytes.push(47u8) =~= dir.bytes + seq![47u8]);
}

/// A relative path that is seen from a directory is written behind it, with one
/// separator between them. A path that starts at the root stays as it is.
pub proof fn relative_paths_are_written_behind_their_directory(dir: PathView, other: PathView)
    ensures
        other.bytes.len() > 0 && other.bytes[0] == 47u8 ==> dir.join(other) == other,
        dir.bytes.len() == 0 ==> dir.join(other) == other,
        dir.bytes.len() > 0 && dir.bytes.last() == 47u8 && !(other.bytes.len() > 0 && other.bytes[0] == 47u8)
            ==> dir.join(other).bytes == dir.bytes + other.bytes,
        dir.bytes.len() > 0 && dir.bytes.last() != 47u8 && !(other.bytes.len() > 0 && other.bytes[0] == 47u8)
            ==> dir.join(other).bytes == dir.bytes + seq![47u8] + other.bytes,
{
    assert(dir.bytes.push(47u8) =~= dir.bytes + seq![47u8]);
}

/// A path begins with another where its components are those of the other and some
/// behind them; what follows are these. Both start at the root, or neither does; the
/// empty path begins any.
pub proof fn prefixes_are_told_by_components(path: PathView, root: PathView, rest: Seq<Seq<u8>>)
    ensures
        ({
            let (whole, front) = (path.route(), root.route());
            let fits = front.absolute == whole.absolute || !front.absolute && front.parts.len() == 0;
            &&& fits && whole.parts == front.parts + rest ==> path.starts_with(root) && path.strip_prefix(root) == Some(
                Route { absolute: whole.absolute && !front.absolute, parts: rest },
            )
            &&& path.starts_with(root) ==> fits && whole.parts == front.parts + path.strip_prefix(root)->0.parts
            &&& path.strip_prefix(root) is Some <==> path.starts_with(root)
        }),
{
    let (whole, front) = (path.route(), root.route());
    if whole.parts == front.parts + rest {
        assert(whole.parts.subrange(0, front.parts.len() as int) =~= front.parts);
        assert(whole.parts.skip(front.parts.len() as int) =~= rest);
    }
    if path.starts_with(root) {
        assert(whole.parts =~= front.parts + whole.parts.skip(front.parts.len() as int));
    }
}

/// Byte strings are ordered as in a dictionary: the first bytes that differ decide.
pub proof fn bytes_are_ordered_by_their_first_difference(common: Seq<u8>, a: Seq<u8>, b: Seq<u8>)
    ensures
        bytes_le(common, common + a),
        a.len() > 0 ==> !bytes_le(common + a, common),
        a.len() > 0 && b.len() > 0 && a[0] != b[0] ==> (bytes_le(common + a, common + b) <==> a[0] < b[0]),
    decreases common.len(),
{
    if common.len() == 0 {
        assert(common + a =~= a);
        assert(common + b =~= b);
        if a.len() > 0 && b.len() > 0 {
            assert(byte_before()(a[0], b[0]) == (a[0] < b[0]));
        }
    } else {
        let rest = common.drop_first();
        bytes_are_ordered_by_their_first_difference(rest, a, b);
        assert((common + a).drop_first() =~= rest + a);
        assert((common + b).drop_first() =~= rest + b);
        assert((common + a)[0] == common[0]);
        assert((common + b)[0] == common[0]);
    }
}

proof fn lemma_part_order(common: Seq<Seq<u8>>, a: Seq<Seq<u8>>, b: Seq<Seq<u8>>)
    ensures
        lexicographic(common, common + a, part_before()),
        a.len() > 0 ==> !lexicographic(common + a, common, part_before()),
        a.len() > 0 && b.len() > 0 && a[0] != b[0] ==> (lexicographic(common + a, common + b, part_before())
            <==> part_before()(a[0], b[0])),
    decreases common.len(),
{
    if common.len() == 0 {
        assert(common + a =~= a);
        assert(common + b =~= b);
    } else {
        let rest = common.drop_first();
        lemma_part_order(rest, a, b);
        assert((common + a).drop_first() =~= rest + a);
        assert((common + b).drop_first() =~= rest + b);
        assert((common + a)[0] == common[0]);
        assert((common + b)[0] == common[0]);
        assert(!part_before()(common[0], common[0]));
    }
}

/// Paths are ordered by their components: a directory comes before what lies in it, and
/// the first components that differ decide, names by their bytes.
pub proof fn paths_are_ordered_by_their_first_difference(
    a: PathView,
    b: PathView,
    common: Seq<Seq<u8>>,
    x: Seq<Seq<u8>>,
    y: Seq<Seq<u8>>,
)
    requires
        a.route() == (Route { absolute: b.route().absolute, parts: common + x }),
        b.route().parts == common + y,
    ensures
        x.len() == 0 ==> path_le(a, b),
        x.len() > 0 && y.len() == 0 ==> !path_le(a, b),
        x.len() > 0 && y.len() > 0 && x[0] != y[0] && is_name(x[0]) && is_name(y[0]) ==> (path_le(a, b) <==> bytes_le(
            x[0],
            y[0],
        )),
{
    lemma_part_order(common, x, y);
    lemma_part_order(common, y, x);
    if x.len() == 0 {
        assert(common + x =~= common);
    }
    if y.len() == 0 {
        assert(common + y =~= common);
    }
}

/// A path is shown as the text that its bytes encode.
pub proof fn paths_are_shown_as_they_are_written(path: PathView)
    ensures
        path.display() == lossy_text(path.bytes),
{
}

/// Entries of directories have names that are not empty, hold no separator, and are
/// neither one dot nor two.
pub proof fn entries_have_names(name: Seq<u8>)
    ensures
        entry_name(name) <==> name.len() > 0 && !name.contains(47u8) && name != seq![46u8] && name != seq![46u8, 46u8],
{
    lemma_dots();
}

/// Names are all components but one dot and two.
pub proof fn dots_are_names_of_none(part: Seq<u8>)
    ensures
        is_name(part) <==> part != seq![46u8] && part != seq![46u8, 46u8],
{
    lemma_dots();
}

} // verus!
