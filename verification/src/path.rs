//! File paths as the bytes that write them, and the components that the file
//! system sees in them.
//!
//! A path is kept as it was given: it is shown, and handed to commands, byte for
//! byte. Two paths are the same where their components are: repeated separators,
//! one at the end and `.` components make no difference, except for a `.` that a
//! relative path begins with.

use vstd::prelude::*;
use vstd::utf8::{char_u32_cast, decode_first_scalar, encode_utf8, encode_utf8_first_scalar};

use crate::order::{
    lexicographic, lexicographic_is_antisymmetric, lexicographic_is_total, lexicographic_is_transitive, strict_total,
    views,
};
use crate::text::{chars_of, from_utf8_lossy, lossy_text, string_of};

verus! {

/// A path, as it is written.
#[derive(Debug)]
pub struct FilePath {
    pub bytes: Vec<u8>,
}

/// What a path is written as.
#[verifier::ext_equal]
pub struct PathView {
    pub bytes: Seq<u8>,
}

impl View for FilePath {
    type V = PathView;

    open spec fn view(&self) -> PathView {
        PathView { bytes: self.bytes@ }
    }
}

/// The components of a path: whether it starts at the root, and what follows.
#[derive(Debug, PartialEq, Eq)]
pub struct Components {
    pub absolute: bool,
    pub parts: Vec<Vec<u8>>,
}

/// What the components of a path are.
#[verifier::ext_equal]
pub struct Route {
    pub absolute: bool,
    pub parts: Seq<Seq<u8>>,
}

impl View for Components {
    type V = Route;

    open spec fn view(&self) -> Route {
        Route { absolute: self.absolute, parts: views(self.parts@) }
    }
}

/// Whether two byte strings are the same.
pub fn same_bytes(a: &Vec<u8>, b: &Vec<u8>) -> (yes: bool)
    ensures
        yes == (a@ == b@),
{
    if a.len() != b.len() {
        return false;
    }
    for i in 0..a.len()
        invariant
            a@.len() == b@.len(),
            forall|j: int| 0 <= j < i ==> a@[j] == b@[j],
    {
        if a[i] != b[i] {
            return false;
        }
    }
    assert(a@ =~= b@);
    true
}

/// A copy of a byte string.
pub fn copy_bytes(bytes: &Vec<u8>) -> (out: Vec<u8>)
    ensures
        out@ == bytes@,
{
    let mut out: Vec<u8> = Vec::new();
    for i in 0..bytes.len()
        invariant
            out@ == bytes@.take(i as int),
    {
        out.push(bytes[i]);
    }
    assert(out@ =~= bytes@);
    out
}

impl Clone for FilePath {
    fn clone(&self) -> (out: Self)
        ensures
            out@ == self@,
    {
        FilePath { bytes: copy_bytes(&self.bytes) }
    }
}

/// The bytes that write the text `s`.
pub fn bytes_of(s: &[char]) -> (bytes: Vec<u8>)
    ensures
        bytes@ == encode_utf8(s@),
{
    let text = string_of(s);
    let encoded = text.as_str().as_bytes();
    let mut bytes: Vec<u8> = Vec::new();
    for i in 0..encoded.len()
        invariant
            bytes@ == encoded@.take(i as int),
    {
        bytes.push(encoded[i]);
    }
    assert(bytes@ =~= encoded@);
    bytes
}

/// What stands between the separators.
pub open spec fn segments(bytes: Seq<u8>) -> Seq<Seq<u8>>
    decreases bytes.len(),
{
    if bytes.len() == 0 {
        seq![Seq::empty()]
    } else {
        let front = segments(bytes.drop_last());
        if bytes.last() == 47u8 {
            front.push(Seq::empty())
        } else {
            front.drop_last().push(front.last().push(bytes.last()))
        }
    }
}

/// Whether segment `i` of a path is one of its components.
pub open spec fn is_component(segment: Seq<u8>, i: int, absolute: bool) -> bool {
    segment.len() > 0 && (segment == encode_utf8("."@) ==> i == 0 && !absolute)
}

/// The components among the segments of a path.
pub open spec fn components(segments: Seq<Seq<u8>>, absolute: bool) -> Seq<Seq<u8>>
    decreases segments.len(),
{
    if segments.len() == 0 {
        Seq::empty()
    } else {
        let front = components(segments.drop_last(), absolute);
        if is_component(segments.last(), segments.len() - 1, absolute) {
            front.push(segments.last())
        } else {
            front
        }
    }
}

/// The path that a text writes.
pub open spec fn path_of(text: Seq<char>) -> PathView {
    PathView { bytes: encode_utf8(text) }
}

impl Route {
    /// Whether there are no components, not even a root.
    pub open spec fn is_empty(self) -> bool {
        !self.absolute && self.parts.len() == 0
    }

    /// Whether these components begin with those of `prefix`; any begin with none.
    pub open spec fn starts_with(self, prefix: Route) -> bool {
        (self.absolute == prefix.absolute || prefix.is_empty()) && prefix.parts.is_prefix_of(self.parts)
    }

    /// What follows the components of `root`, if these begin with them.
    pub open spec fn strip_prefix(self, root: Route) -> Option<Route> {
        if self.starts_with(root) {
            Some(
                Route {
                    absolute: self.absolute && !root.absolute,
                    parts: self.parts.skip(root.parts.len() as int),
                },
            )
        } else {
            None
        }
    }

    /// The last component, where it is a name.
    pub open spec fn file_name(self) -> Option<Seq<u8>> {
        if self.parts.len() > 0 && is_name(self.parts.last()) {
            Some(self.parts.last())
        } else {
            None
        }
    }
}

impl PathView {
    /// Whether the path starts at the root.
    pub open spec fn absolute(self) -> bool {
        self.bytes.len() > 0 && self.bytes[0] == 47u8
    }

    /// The components of the path.
    pub open spec fn route(self) -> Route {
        Route { absolute: self.absolute(), parts: components(segments(self.bytes), self.absolute()) }
    }

    /// The entry of that name in this directory.
    pub open spec fn child(self, name: Seq<u8>) -> PathView {
        self.join(PathView { bytes: name })
    }

    /// `other` as seen from this directory: put behind it, with one separator
    /// between them.
    pub open spec fn join(self, other: PathView) -> PathView {
        if other.absolute() || self.bytes.len() == 0 {
            other
        } else if self.bytes.last() == 47u8 {
            PathView { bytes: self.bytes + other.bytes }
        } else {
            PathView { bytes: self.bytes.push(47u8) + other.bytes }
        }
    }

    /// Whether the components of this path begin with those of `prefix`.
    pub open spec fn starts_with(self, prefix: PathView) -> bool {
        self.route().starts_with(prefix.route())
    }

    /// What follows the components of `root` in this path, if it begins with them.
    pub open spec fn strip_prefix(self, root: PathView) -> Option<Route> {
        self.route().strip_prefix(root.route())
    }

    /// The last component, where it is a name.
    pub open spec fn file_name(self) -> Option<Seq<u8>> {
        self.route().file_name()
    }

    /// The path as a text to show.
    pub open spec fn display(self) -> Seq<char> {
        lossy_text(self.bytes)
    }
}

/// Whether a component names an entry, and does not point to this or the
/// parent directory.
pub open spec fn is_name(part: Seq<u8>) -> bool {
    part != encode_utf8("."@) && part != encode_utf8(".."@)
}

/// The names that entries of a directory can have.
pub open spec fn entry_name(name: Seq<u8>) -> bool {
    name.len() > 0 && is_name(name) && !name.contains(47u8)
}

/// A path has at least one segment.
pub proof fn lemma_segments(bytes: Seq<u8>)
    ensures
        segments(bytes).len() > 0,
    decreases bytes.len(),
{
    if bytes.len() > 0 {
        lemma_segments(bytes.drop_last());
    }
}

/// A separator parts the segments before it from those behind it.
pub proof fn lemma_segments_around(a: Seq<u8>, b: Seq<u8>)
    ensures
        segments(a.push(47u8) + b) == segments(a) + segments(b),
    decreases b.len(),
{
    let whole = a.push(47u8) + b;
    if b.len() == 0 {
        assert(whole =~= a.push(47u8));
        assert(a.push(47u8).drop_last() =~= a);
        assert(segments(a).push(Seq::empty()) =~= segments(a) + segments(b));
    } else {
        assert(whole.drop_last() =~= a.push(47u8) + b.drop_last());
        lemma_segments_around(a, b.drop_last());
        lemma_segments(b.drop_last());
        let front = segments(b.drop_last());
        assert((segments(a) + front).last() == front.last());
        assert((segments(a) + front).drop_last() =~= segments(a) + front.drop_last());
        assert(segments(whole) =~= segments(a) + segments(b));
    }
}

/// What holds no separator is one segment.
pub proof fn single_segments(bytes: Seq<u8>)
    requires
        !bytes.contains(47u8),
    ensures
        segments(bytes) == seq![bytes],
    decreases bytes.len(),
{
    if bytes.len() > 0 {
        let front = bytes.drop_last();
        assert(!front.contains(47u8)) by {
            if front.contains(47u8) {
                let i = choose|i: int| 0 <= i < front.len() && front[i] == 47u8;
                assert(bytes[i] == 47u8);
            }
        }
        assert(bytes[bytes.len() - 1] != 47u8);
        single_segments(front);
        assert(front.push(bytes.last()) =~= bytes);
        assert(segments(bytes) =~= seq![bytes]);
    } else {
        assert(bytes =~= Seq::empty());
    }
}

/// One segment is one component, or none.
pub proof fn single_components(segment: Seq<u8>, absolute: bool)
    ensures
        components(seq![segment], absolute) == if is_component(segment, 0, absolute) {
            seq![segment]
        } else {
            Seq::empty()
        },
{
    let alone = seq![segment];
    assert(alone.drop_last() =~= Seq::empty());
    assert(components(alone.drop_last(), absolute) =~= Seq::empty());
    assert(alone.last() == segment);
    assert(Seq::<Seq<u8>>::empty().push(segment) =~= alone);
}

proof fn lemma_no_components(path: PathView)
    requires
        path.bytes.len() == 0,
    ensures
        path.route() == (Route { absolute: false, parts: Seq::empty() }),
{
    single_components(Seq::empty(), false);
}

/// What follows the first segments of a path adds its components behind theirs.
pub proof fn lemma_components_behind(first: Seq<Seq<u8>>, then_come: Seq<Seq<u8>>, absolute: bool)
    requires
        first.len() > 0,
    ensures
        components(first + then_come, absolute) == components(first, absolute) + components(then_come, true),
    decreases then_come.len(),
{
    let all = first + then_come;
    if then_come.len() == 0 {
        assert(all =~= first);
        assert(components(first, absolute) + components(then_come, true) =~= components(first, absolute));
    } else {
        assert(all.drop_last() =~= first + then_come.drop_last());
        lemma_components_behind(first, then_come.drop_last(), absolute);
        assert(components(all, absolute) =~= components(first, absolute) + components(then_come, true));
    }
}

/// The components of a relative path that is seen from a directory: those of the
/// directory, and behind them its own, without a leading `.`.
pub proof fn joining_puts_components_behind(dir: PathView, relative: PathView)
    requires
        !relative.absolute(),
        dir.bytes.len() > 0,
    ensures
        dir.join(relative).route() == (Route {
            absolute: dir.absolute(),
            parts: dir.route().parts + components(segments(relative.bytes), true),
        }),
{
    let whole = dir.join(relative).bytes;
    let tail = segments(relative.bytes);
    if dir.bytes.last() == 47u8 {
        let front = dir.bytes.drop_last();
        assert(front.push(47u8) =~= dir.bytes);
        lemma_segments_around(front, relative.bytes);
        lemma_segments(front);
        lemma_components_behind(segments(front), tail, dir.absolute());
        assert(segments(dir.bytes).drop_last() =~= segments(front));
    } else {
        lemma_segments_around(dir.bytes, relative.bytes);
        lemma_segments(dir.bytes);
        lemma_components_behind(segments(dir.bytes), tail, dir.absolute());
    }
    assert(whole[0] == dir.bytes[0]);
}

/// The components of an entry of a directory: those of the directory, and its
/// name.
pub proof fn entries_have_one_more_component(dir: PathView, name: Seq<u8>)
    requires
        entry_name(name),
    ensures
        dir.child(name).route() == (Route { absolute: dir.absolute(), parts: dir.route().parts.push(name) }),
{
    let relative = PathView { bytes: name };
    single_segments(name);
    assert(name[0] != 47u8);
    let alone = seq![name];
    single_components(name, true);
    single_components(name, false);
    if dir.bytes.len() > 0 {
        joining_puts_components_behind(dir, relative);
        assert(dir.route().parts + alone =~= dir.route().parts.push(name));
    } else {
        lemma_no_components(dir);
        assert(dir.route().parts.push(name) =~= alone);
    }
}

/// A relative path that is seen from a directory begins with the components of the
/// directory. Only the components are compared: a `..` behind them leads out of it
/// all the same.
pub proof fn joining_keeps_the_components(dir: PathView, relative: PathView)
    requires
        !relative.absolute(),
    ensures
        dir.join(relative).starts_with(dir),
{
    if dir.bytes.len() > 0 {
        joining_puts_components_behind(dir, relative);
        assert(dir.route().parts.is_prefix_of(dir.join(relative).route().parts));
    } else {
        lemma_no_components(dir);
        assert(dir.route().parts.is_prefix_of(relative.route().parts));
    }
}

/// Components that begin with some begin with those that these begin with.
pub proof fn prefixes_are_transitive(a: Route, b: Route, c: Route)
    requires
        c.starts_with(b),
        b.starts_with(a),
    ensures
        c.starts_with(a),
{
    assert(c.parts.take(a.parts.len() as int) =~= a.parts);
    assert(a.parts.is_prefix_of(c.parts));
}

/// A text that does not begin with a separator writes a relative path.
pub proof fn texts_without_a_root_are_relative(text: Seq<char>)
    requires
        text.len() > 0 ==> text[0] != '/',
    ensures
        !path_of(text).absolute(),
{
    if text.len() > 0 && path_of(text).absolute() {
        encode_utf8_first_scalar(text);
        let first = encode_utf8(text)[0];
        assert(first & 0x80u8 == 0 && (first & 0x7Fu8) as u32 == 47u32) by (bit_vector)
            requires
                first == 47u8,
        ;
        assert(decode_first_scalar(encode_utf8(text)) == 47);
        char_u32_cast(text[0], 47);
        char_u32_cast('/', 47);
    }
}

/// The order of bytes.
pub open spec fn byte_before() -> spec_fn(u8, u8) -> bool {
    |a: u8, b: u8| a < b
}

/// `a` comes before `b` byte by byte, or is `b`.
pub open spec fn bytes_le(a: Seq<u8>, b: Seq<u8>) -> bool {
    lexicographic(a, b, byte_before())
}

/// The kinds of components in their order: `.`, then `..`, then names.
pub open spec fn part_rank(part: Seq<u8>) -> int {
    if part == encode_utf8("."@) {
        0
    } else if part == encode_utf8(".."@) {
        1
    } else {
        2
    }
}

/// The strict order of components: by kind, names by their bytes.
pub open spec fn part_before() -> spec_fn(Seq<u8>, Seq<u8>) -> bool {
    |a: Seq<u8>, b: Seq<u8>|
        part_rank(a) < part_rank(b) || (part_rank(a) == part_rank(b) && a != b && bytes_le(a, b))
}

/// The order of components: one after the other, the root before any other.
pub open spec fn route_le(a: Route, b: Route) -> bool {
    if a.absolute == b.absolute {
        lexicographic(a.parts, b.parts, part_before())
    } else if a.absolute {
        b.parts.len() > 0
    } else {
        a.parts.len() == 0
    }
}

/// The order of paths, which is that of their components.
pub open spec fn path_le(a: PathView, b: PathView) -> bool {
    route_le(a.route(), b.route())
}

proof fn lemma_part_order()
    ensures
        strict_total(part_before()),
{
    let lt = part_before();
    assert forall|a: Seq<u8>, b: Seq<u8>, c: Seq<u8>| #[trigger] lt(a, b) && #[trigger] lt(b, c) implies lt(a, c) by {
        if part_rank(a) == part_rank(c) {
            lexicographic_is_transitive(a, b, c, byte_before());
            if a == c {
                lexicographic_is_antisymmetric(a, b, byte_before());
            }
        }
    }
    assert forall|a: Seq<u8>, b: Seq<u8>| a != b implies #[trigger] lt(a, b) || lt(b, a) by {
        lexicographic_is_total(a, b, byte_before());
    }
}

/// The order of paths is total.
pub proof fn path_order_is_total(a: PathView, b: PathView)
    ensures
        path_le(a, b) || path_le(b, a),
{
    lemma_part_order();
    lexicographic_is_total(a.route().parts, b.route().parts, part_before());
}

/// The order of paths is transitive.
pub proof fn path_order_is_transitive(a: PathView, b: PathView, c: PathView)
    requires
        path_le(a, b),
        path_le(b, c),
    ensures
        path_le(a, c),
{
    lemma_part_order();
    if a.absolute() == b.absolute() && b.absolute() == c.absolute() {
        lexicographic_is_transitive(a.route().parts, b.route().parts, c.route().parts, part_before());
    }
}

/// Paths that come before each other have the same components.
pub proof fn path_order_is_antisymmetric(a: PathView, b: PathView)
    requires
        path_le(a, b),
        path_le(b, a),
    ensures
        a.route() == b.route(),
{
    lemma_part_order();
    if a.absolute() == b.absolute() {
        lexicographic_is_antisymmetric(a.route().parts, b.route().parts, part_before());
    }
}

fn bytes_not_after(a: &Vec<u8>, b: &Vec<u8>) -> (yes: bool)
    ensures
        yes == bytes_le(a@, b@),
{
    let mut i: usize = 0;
    assert(a@.skip(0) =~= a@);
    assert(b@.skip(0) =~= b@);
    loop
        invariant
            i <= a@.len(),
            i <= b@.len(),
            bytes_le(a@, b@) == bytes_le(a@.skip(i as int), b@.skip(i as int)),
        decreases a@.len() - i,
    {
        if i == a.len() {
            return true;
        }
        if i == b.len() {
            return false;
        }
        assert(a@.skip(i as int).drop_first() =~= a@.skip(i + 1));
        assert(b@.skip(i as int).drop_first() =~= b@.skip(i + 1));
        if a[i] < b[i] {
            return true;
        }
        if a[i] != b[i] {
            return false;
        }
        i = i + 1;
    }
}

/// Whether the byte string writes `text`.
pub fn spells(bytes: &Vec<u8>, text: &str) -> (yes: bool)
    ensures
        yes == (bytes@ == encode_utf8(text@)),
{
    let other = bytes_of(chars_of(text).as_slice());
    same_bytes(bytes, &other)
}

fn rank_of(part: &Vec<u8>) -> (rank: u8)
    ensures
        rank == part_rank(part@),
{
    if spells(part, ".") {
        0
    } else if spells(part, "..") {
        1
    } else {
        2
    }
}

fn part_precedes(a: &Vec<u8>, b: &Vec<u8>) -> (yes: bool)
    ensures
        yes == part_before()(a@, b@),
{
    let rank_a = rank_of(a);
    let rank_b = rank_of(b);
    rank_a < rank_b || (rank_a == rank_b && !same_bytes(a, b) && bytes_not_after(a, b))
}

impl Components {
    fn same(&self, other: &Components) -> (yes: bool)
        ensures
            yes == (self@ == other@),
    {
        if self.absolute != other.absolute || self.parts.len() != other.parts.len() {
            if self.parts.len() != other.parts.len() {
                assert(self@.parts.len() != other@.parts.len());
            }
            return false;
        }
        for i in 0..self.parts.len()
            invariant
                self.parts@.len() == other.parts@.len(),
                forall|j: int| 0 <= j < i ==> self@.parts[j] == other@.parts[j],
        {
            if !same_bytes(&self.parts[i], &other.parts[i]) {
                assert(self@.parts[i as int] != other@.parts[i as int]);
                return false;
            }
        }
        assert(self@.parts =~= other@.parts);
        true
    }

    /// Whether these components begin with those of `prefix`.
    pub fn starts_with(&self, prefix: &Components) -> (yes: bool)
        ensures
            yes == self@.starts_with(prefix@),
    {
        if !prefix.absolute && prefix.parts.len() == 0 {
            assert(prefix@.parts =~= self@.parts.subrange(0, 0));
            return true;
        }
        if self.absolute != prefix.absolute || prefix.parts.len() > self.parts.len() {
            return false;
        }
        for i in 0..prefix.parts.len()
            invariant
                prefix.parts@.len() <= self.parts@.len(),
                forall|j: int| 0 <= j < i ==> self@.parts[j] == prefix@.parts[j],
        {
            if !same_bytes(&self.parts[i], &prefix.parts[i]) {
                assert(self@.parts.subrange(0, prefix@.parts.len() as int)[i as int] != prefix@.parts[i as int]);
                return false;
            }
        }
        assert(prefix@.parts =~= self@.parts.subrange(0, prefix@.parts.len() as int));
        true
    }

    /// What follows the components of `root`, if these begin with them.
    pub fn strip_prefix(&self, root: &Components) -> (relative: Option<Components>)
        ensures
            match relative {
                Some(path) => self@.strip_prefix(root@) == Some(path@),
                None => self@.strip_prefix(root@) is None,
            },
    {
        if !self.starts_with(root) {
            return None;
        }
        let start = root.parts.len();
        let mut parts: Vec<Vec<u8>> = Vec::new();
        let ghost tail = self@.parts.skip(start as int);
        for i in start..self.parts.len()
            invariant
                start <= self.parts@.len(),
                tail == self@.parts.skip(start as int),
                views(parts@) == tail.take(i - start),
        {
            let ghost before = views(parts@);
            parts.push(copy_bytes(&self.parts[i]));
            assert(views(parts@) =~= before.push(tail[i - start]));
            assert(views(parts@) =~= tail.take(i - start + 1));
        }
        assert(tail.take(tail.len() as int) =~= tail);
        Some(Components { absolute: self.absolute && !root.absolute, parts })
    }

    /// The last component, where it is a name.
    pub fn file_name(&self) -> (name: Option<Vec<u8>>)
        ensures
            match name {
                Some(bytes) => self@.file_name() == Some(bytes@),
                None => self@.file_name() is None,
            },
    {
        if self.parts.len() == 0 {
            return None;
        }
        let last = &self.parts[self.parts.len() - 1];
        if spells(last, ".") || spells(last, "..") {
            None
        } else {
            Some(copy_bytes(last))
        }
    }

    fn not_after(&self, other: &Components) -> (yes: bool)
        ensures
            yes == route_le(self@, other@),
    {
        if self.absolute != other.absolute {
            return if self.absolute {
                other.parts.len() > 0
            } else {
                self.parts.len() == 0
            };
        }
        let ghost a = self@.parts;
        let ghost b = other@.parts;
        let ghost lt = part_before();
        let mut i: usize = 0;
        assert(a.skip(0) =~= a);
        assert(b.skip(0) =~= b);
        loop
            invariant
                a == self@.parts,
                b == other@.parts,
                lt == part_before(),
                i <= a.len(),
                i <= b.len(),
                lexicographic(a, b, lt) == lexicographic(a.skip(i as int), b.skip(i as int), lt),
                self.absolute == other.absolute,
            decreases a.len() - i,
        {
            if i == self.parts.len() {
                return true;
            }
            if i == other.parts.len() {
                return false;
            }
            assert(a.skip(i as int).drop_first() =~= a.skip(i + 1));
            assert(b.skip(i as int).drop_first() =~= b.skip(i + 1));
            if part_precedes(&self.parts[i], &other.parts[i]) {
                return true;
            }
            if !same_bytes(&self.parts[i], &other.parts[i]) {
                return false;
            }
            i = i + 1;
        }
    }
}

fn segments_of(bytes: &Vec<u8>) -> (out: Vec<Vec<u8>>)
    ensures
        views(out@) == segments(bytes@),
{
    let mut out: Vec<Vec<u8>> = Vec::new();
    let mut current: Vec<u8> = Vec::new();
    assert(views(out@).push(current@) =~= segments(bytes@.take(0)));
    for i in 0..bytes.len()
        invariant
            views(out@).push(current@) == segments(bytes@.take(i as int)),
    {
        let ghost front = views(out@).push(current@);
        let ghost upto = bytes@.take(i + 1);
        assert(upto.drop_last() =~= bytes@.take(i as int));
        assert(upto.last() == bytes@[i as int]);
        assert(front.drop_last() =~= views(out@));
        if bytes[i] == 47u8 {
            let ghost before = views(out@);
            out.push(current);
            assert(views(out@) =~= front);
            current = Vec::new();
            assert(current@ =~= Seq::empty());
        } else {
            current.push(bytes[i]);
        }
    }
    assert(bytes@.take(bytes@.len() as int) =~= bytes@);
    let ghost before = views(out@);
    out.push(current);
    assert(views(out@) =~= before.push(current@));
    out
}

impl FilePath {
    /// The path that `text` writes.
    pub fn from_chars(text: &[char]) -> (path: FilePath)
        ensures
            path@ == path_of(text@),
    {
        FilePath { bytes: bytes_of(text) }
    }

    /// The path that `text` writes.
    pub fn from_text(text: &str) -> (path: FilePath)
        ensures
            path@ == path_of(text@),
    {
        let chars = chars_of(text);
        FilePath::from_chars(chars.as_slice())
    }

    fn is_absolute(&self) -> (yes: bool)
        ensures
            yes == self@.absolute(),
    {
        self.bytes.len() > 0 && self.bytes[0] == 47u8
    }

    /// The components of the path.
    pub fn components(&self) -> (out: Components)
        ensures
            out@ == self@.route(),
    {
        let absolute = self.is_absolute();
        let segments = segments_of(&self.bytes);
        let ghost all = views(segments@);
        let mut parts: Vec<Vec<u8>> = Vec::new();
        assert(views(parts@) =~= components(all.take(0), absolute));
        for i in 0..segments.len()
            invariant
                all == views(segments@),
                views(parts@) == components(all.take(i as int), absolute),
        {
            let segment = &segments[i];
            let ghost done = views(parts@);
            let ghost upto = all.take(i + 1);
            assert(upto.drop_last() =~= all.take(i as int));
            assert(upto.last() == segment@);
            if segment.len() > 0 && (!spells(segment, ".") || (i == 0 && !absolute)) {
                parts.push(copy_bytes(segment));
                assert(views(parts@) =~= done.push(segment@));
            }
        }
        assert(all.take(all.len() as int) =~= all);
        Components { absolute, parts }
    }

    /// Whether both have the same components.
    pub fn same(&self, other: &FilePath) -> (yes: bool)
        ensures
            yes == (self@.route() == other@.route()),
    {
        self.components().same(&other.components())
    }

    /// The entry of that name in this directory.
    pub fn child(&self, name: &Vec<u8>) -> (path: FilePath)
        ensures
            path@ == self@.child(name@),
    {
        self.join(&FilePath { bytes: copy_bytes(name) })
    }

    /// `other` as seen from this directory.
    pub fn join(&self, other: &FilePath) -> (path: FilePath)
        ensures
            path@ == self@.join(other@),
    {
        if other.is_absolute() || self.bytes.len() == 0 {
            return other.clone();
        }
        let mut bytes = copy_bytes(&self.bytes);
        if bytes[bytes.len() - 1] != 47u8 {
            bytes.push(47u8);
        }
        let ghost front = bytes@;
        for i in 0..other.bytes.len()
            invariant
                bytes@ == front + other.bytes@.take(i as int),
        {
            bytes.push(other.bytes[i]);
            assert(bytes@ =~= front + other.bytes@.take(i + 1));
        }
        assert(bytes@ =~= front + other.bytes@);
        FilePath { bytes }
    }

    /// Whether the components of this path begin with those of `prefix`.
    pub fn starts_with(&self, prefix: &FilePath) -> (yes: bool)
        ensures
            yes == self@.starts_with(prefix@),
    {
        self.components().starts_with(&prefix.components())
    }

    /// What follows the components of `root` in this path, if it begins with them.
    pub fn strip_prefix(&self, root: &FilePath) -> (relative: Option<Components>)
        ensures
            match relative {
                Some(route) => self@.strip_prefix(root@) == Some(route@),
                None => self@.strip_prefix(root@) is None,
            },
    {
        self.components().strip_prefix(&root.components())
    }

    /// The last component, where it is a name.
    pub fn file_name(&self) -> (name: Option<Vec<u8>>)
        ensures
            match name {
                Some(bytes) => self@.file_name() == Some(bytes@),
                None => self@.file_name() is None,
            },
    {
        self.components().file_name()
    }

    /// The path as a text to show.
    pub fn display(&self) -> (text: String)
        ensures
            text@ == self@.display(),
    {
        from_utf8_lossy(self.bytes.as_slice())
    }

    /// Whether this path comes before `other`, or has the same components.
    pub fn not_after(&self, other: &FilePath) -> (yes: bool)
        ensures
            yes == path_le(self@, other@),
    {
        self.components().not_after(&other.components())
    }
}

/// Paths are equal where their components are.
impl PartialEq for FilePath {
    fn eq(&self, other: &FilePath) -> (yes: bool) {
        self.same(other)
    }
}

impl vstd::std_specs::cmp::PartialEqSpecImpl for FilePath {
    open spec fn obeys_eq_spec() -> bool {
        true
    }

    open spec fn eq_spec(&self, other: &FilePath) -> bool {
        self@.route() == other@.route()
    }
}

impl Eq for FilePath {

}

} // verus!
