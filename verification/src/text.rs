//! Text as sequences of characters: trimming, searching, splitting, comparing
//! and reading decimal numbers.
//!
//! The functions work on character slices, so that parts of a text are taken
//! without copying it.

use vstd::prelude::*;
use vstd::slice::slice_subrange;
use vstd::utf8::{decode_utf8, valid_utf8};

verus! {

/// `String::push` puts one character behind the text.
pub assume_specification[ String::push ](text: &mut String, c: char)
    ensures
        final(text)@ == old(text)@.push(c),
;

/// What `String::from_utf8_lossy` makes of a byte string: the text that it
/// encodes, with a replacement character for what is not UTF-8.
pub uninterp spec fn lossy_text(bytes: Seq<u8>) -> Seq<char>;

/// `String::from_utf8_lossy`, as an owned text. The result depends on the bytes
/// alone; bytes that are UTF-8 are decoded as they stand. Which text replaces
/// invalid bytes is left unsaid.
#[verifier::external_body]
pub(crate) fn from_utf8_lossy(bytes: &[u8]) -> (text: String)
    ensures
        text@ == lossy_text(bytes@),
        valid_utf8(bytes@) ==> text@ == decode_utf8(bytes@),
{
    String::from_utf8_lossy(bytes).into_owned()
}

/// The characters of `text`.
pub fn chars_of(text: &str) -> (chars: Vec<char>)
    ensures
        chars@ == text@,
{
    let mut chars: Vec<char> = Vec::new();
    for c in iter: text.chars()
        invariant
            chars@ == iter.seq().take(iter.index() as int),
            iter.seq() == text@,
    {
        chars.push(c);
    }
    chars
}

/// The text that `chars` spells.
pub fn string_of(chars: &[char]) -> (text: String)
    ensures
        text@ == chars@,
{
    let mut text = String::new();
    for i in 0..chars.len()
        invariant
            text@ == chars@.take(i as int),
    {
        text.push(chars[i]);
    }
    text
}

/// The Unicode property `White_Space`.
pub open spec fn is_white_space(c: char) -> bool {
    ||| '\u{9}' <= c <= '\u{d}'
    ||| c == ' '
    ||| c == '\u{85}'
    ||| c == '\u{a0}'
    ||| c == '\u{1680}'
    ||| '\u{2000}' <= c <= '\u{200a}'
    ||| c == '\u{2028}'
    ||| c == '\u{2029}'
    ||| c == '\u{202f}'
    ||| c == '\u{205f}'
    ||| c == '\u{3000}'
}

/// Whether `c` is white space.
pub fn white_space(c: char) -> (yes: bool)
    ensures
        yes == is_white_space(c),
{
    ('\u{9}' <= c && c <= '\u{d}') || c == ' ' || c == '\u{85}' || c == '\u{a0}' || c == '\u{1680}' || (
    '\u{2000}' <= c && c <= '\u{200a}') || c == '\u{2028}' || c == '\u{2029}' || c == '\u{202f}' || c == '\u{205f}'
        || c == '\u{3000}'
}

/// `s` without leading white space.
pub open spec fn trim_start(s: Seq<char>) -> Seq<char>
    decreases s.len(),
{
    if s.len() > 0 && is_white_space(s[0]) {
        trim_start(s.drop_first())
    } else {
        s
    }
}

/// `s` without trailing white space.
pub open spec fn trim_end(s: Seq<char>) -> Seq<char>
    decreases s.len(),
{
    if s.len() > 0 && is_white_space(s.last()) {
        trim_end(s.drop_last())
    } else {
        s
    }
}

/// `s` without white space at either end.
pub open spec fn trimmed(s: Seq<char>) -> Seq<char> {
    trim_end(trim_start(s))
}

/// The part of `s` without white space at either end.
pub fn trim<'a>(s: &'a [char]) -> (out: &'a [char])
    ensures
        out@ == trimmed(s@),
{
    let mut start: usize = 0;
    assert(s@.skip(0) =~= s@);
    while start < s.len() && white_space(s[start])
        invariant
            start <= s@.len(),
            trim_start(s@) == trim_start(s@.skip(start as int)),
        decreases s.len() - start,
    {
        assert(s@.skip(start as int).drop_first() =~= s@.skip(start + 1));
        start = start + 1;
    }
    let ghost body = s@.skip(start as int);
    assert(trim_start(s@) == body);
    let mut end: usize = s.len();
    assert(s@.subrange(start as int, end as int) =~= body);
    while end > start && white_space(s[end - 1])
        invariant
            start <= end <= s@.len(),
            trim_end(body) == trim_end(s@.subrange(start as int, end as int)),
        decreases end,
    {
        assert(s@.subrange(start as int, end as int).drop_last() =~= s@.subrange(start as int, end - 1));
        end = end - 1;
    }
    slice_subrange(s, start, end)
}

/// Whether `a` spells the text `b`.
pub fn same_text(a: &[char], b: &str) -> (yes: bool)
    ensures
        yes == (a@ == b@),
{
    let other = chars_of(b);
    same_chars(a, other.as_slice())
}

/// Whether `a` and `b` hold the same characters.
pub fn same_chars(a: &[char], b: &[char]) -> (yes: bool)
    ensures
        yes == (a@ == b@),
{
    if a.len() != b.len() {
        return false;
    }
    for i in 0..a.len()
        invariant
            a@.len() == b@.len(),
            forall|j: int| 0 <= j < i ==> a@[j] == b@[j],
    {
        if a[i] != b[i] {
            return false;
        }
    }
    assert(a@ =~= b@);
    true
}

/// Whether `pattern` stands in `s` at position `i`.
pub open spec fn matches_at(s: Seq<char>, pattern: Seq<char>, i: int) -> bool {
    &&& 0 <= i
    &&& i + pattern.len() <= s.len()
    &&& s.subrange(i, i + pattern.len()) == pattern
}

/// The first position from `i` on at which `pattern` stands in `s`.
pub open spec fn find_from(s: Seq<char>, pattern: Seq<char>, i: int) -> Option<int>
    decreases s.len() - i + 1,
{
    if i + pattern.len() > s.len() {
        None
    } else if matches_at(s, pattern, i) {
        Some(i)
    } else {
        find_from(s, pattern, i + 1)
    }
}

/// The first position at which `pattern` stands in `s`.
pub open spec fn find(s: Seq<char>, pattern: Seq<char>) -> Option<int> {
    find_from(s, pattern, 0)
}

/// The last position up to `i` at which `pattern` stands in `s`.
pub open spec fn rfind_to(s: Seq<char>, pattern: Seq<char>, i: int) -> Option<int>
    decreases i + 1,
{
    if i < 0 {
        None
    } else if matches_at(s, pattern, i) {
        Some(i)
    } else {
        rfind_to(s, pattern, i - 1)
    }
}

/// The last position at which `pattern` stands in `s`.
pub open spec fn rfind(s: Seq<char>, pattern: Seq<char>) -> Option<int> {
    rfind_to(s, pattern, s.len() - pattern.len())
}

/// The first match is one, and none stands before it.
pub proof fn find_is_first(s: Seq<char>, pattern: Seq<char>, from: int)
    requires
        0 <= from,
    ensures
        match find_from(s, pattern, from) {
            Some(i) => from <= i && matches_at(s, pattern, i) && forall|j: int|
                from <= j < i ==> !#[trigger] matches_at(s, pattern, j),
            None => forall|j: int| from <= j ==> !#[trigger] matches_at(s, pattern, j),
        },
    decreases s.len() - from + 1,
{
    if from + pattern.len() <= s.len() && !matches_at(s, pattern, from) {
        find_is_first(s, pattern, from + 1);
    }
}

fn stands_at(s: &[char], pattern: &[char], i: usize) -> (yes: bool)
    requires
        i + pattern@.len() <= s@.len(),
    ensures
        yes == matches_at(s@, pattern@, i as int),
{
    let count = s.len();
    assert(i + pattern@.len() <= count);
    let part = slice_subrange(s, i, i + pattern.len());
    same_chars(part, pattern)
}

fn find_chars(s: &[char], pattern: &[char]) -> (at: Option<usize>)
    ensures
        match at {
            Some(i) => find(s@, pattern@) == Some(i as int) && i + pattern@.len() <= s@.len(),
            None => find(s@, pattern@) is None,
        },
{
    if pattern.len() > s.len() {
        return None;
    }
    let last = s.len() - pattern.len();
    let mut i: usize = 0;
    while i <= last
        invariant
            i <= last + 1,
            last + pattern@.len() == s@.len(),
            find(s@, pattern@) == find_from(s@, pattern@, i as int),
        decreases last + 1 - i,
    {
        if stands_at(s, pattern, i) {
            return Some(i);
        }
        if i == last {
            assert(find_from(s@, pattern@, i + 1) is None);
            return None;
        }
        i = i + 1;
    }
    None
}

/// `s` parted at the first `pattern`.
pub open spec fn split_at_first(s: Seq<char>, pattern: Seq<char>) -> Option<(Seq<char>, Seq<char>)> {
    match find(s, pattern) {
        Some(i) => Some((s.take(i), s.skip(i + pattern.len()))),
        None => None,
    }
}

/// `s` parted at the last `pattern`.
pub open spec fn split_at_last(s: Seq<char>, pattern: Seq<char>) -> Option<(Seq<char>, Seq<char>)> {
    match rfind(s, pattern) {
        Some(i) => Some((s.take(i), s.skip(i + pattern.len()))),
        None => None,
    }
}

/// The parts of `s` around the first `pattern`, if there is one.
pub fn split_once<'a>(s: &'a [char], pattern: &str) -> (parts: Option<(&'a [char], &'a [char])>)
    ensures
        match parts {
            Some((front, back)) => split_at_first(s@, pattern@) == Some((front@, back@)),
            None => split_at_first(s@, pattern@) is None,
        },
{
    let needle = chars_of(pattern);
    match find_chars(s, needle.as_slice()) {
        Some(i) => {
            let front = slice_subrange(s, 0, i);
            let end = s.len();
            let back = slice_subrange(s, i + needle.len(), end);
            assert(front@ =~= s@.take(i as int));
            assert(back@ =~= s@.skip(i + needle@.len()));
            Some((front, back))
        },
        None => None,
    }
}

/// The parts of `s` around the last `pattern`, if there is one.
pub fn rsplit_once<'a>(s: &'a [char], pattern: &str) -> (parts: Option<(&'a [char], &'a [char])>)
    ensures
        match parts {
            Some((front, back)) => split_at_last(s@, pattern@) == Some((front@, back@)),
            None => split_at_last(s@, pattern@) is None,
        },
{
    let needle = chars_of(pattern);
    if needle.len() > s.len() {
        return None;
    }
    let mut i: usize = s.len() - needle.len();
    loop
        invariant
            needle@ == pattern@,
            i + needle@.len() <= s@.len(),
            rfind(s@, pattern@) == rfind_to(s@, pattern@, i as int),
        decreases i,
    {
        if stands_at(s, needle.as_slice(), i) {
            let front = slice_subrange(s, 0, i);
            let end = s.len();
            let back = slice_subrange(s, i + needle.len(), end);
            assert(front@ =~= s@.take(i as int));
            assert(back@ =~= s@.skip(i + needle@.len()));
            return Some((front, back));
        }
        if i == 0 {
            assert(rfind_to(s@, pattern@, -1) is None);
            return None;
        }
        i = i - 1;
    }
}

/// The parts of `s` between the occurrences of `pattern`, from left to right.
pub open spec fn fields(s: Seq<char>, pattern: Seq<char>) -> Seq<Seq<char>>
    decreases s.len(),
{
    match find(s, pattern) {
        Some(i) => if pattern.len() > 0 && 0 <= i && i + pattern.len() <= s.len() {
            seq![s.take(i)] + fields(s.skip(i + pattern.len()), pattern)
        } else {
            seq![s]
        },
        None => seq![s],
    }
}

/// The texts that a list of character slices spells.
pub open spec fn slices(parts: Seq<&[char]>) -> Seq<Seq<char>> {
    Seq::new(parts.len(), |i: int| parts[i]@)
}

/// Splits `s` at every `pattern`.
pub fn split<'a>(s: &'a [char], pattern: &str) -> (parts: Vec<&'a [char]>)
    requires
        pattern@.len() > 0,
    ensures
        slices(parts@) == fields(s@, pattern@),
        parts@.len() > 0,
{
    let needle = chars_of(pattern);
    let mut parts: Vec<&'a [char]> = Vec::new();
    let mut rest = s;
    loop
        invariant
            needle@ == pattern@,
            pattern@.len() > 0,
            fields(s@, pattern@) == slices(parts@) + fields(rest@, pattern@),
        decreases rest@.len(),
    {
        let ghost done = slices(parts@);
        match find_chars(rest, needle.as_slice()) {
            Some(i) => {
                let front = slice_subrange(rest, 0, i);
                let end = rest.len();
                let back = slice_subrange(rest, i + needle.len(), end);
                assert(front@ =~= rest@.take(i as int));
                assert(back@ =~= rest@.skip(i + needle@.len()));
                parts.push(front);
                assert(slices(parts@) =~= done + seq![front@]);
                assert(done + (seq![front@] + fields(back@, pattern@)) =~= slices(parts@) + fields(
                    back@,
                    pattern@,
                ));
                rest = back;
            },
            None => {
                parts.push(rest);
                assert(slices(parts@) =~= done + seq![rest@]);
                return parts;
            },
        }
    }
}

/// `s` without a carriage return at its end.
pub open spec fn without_return(s: Seq<char>) -> Seq<char> {
    if s.len() > 0 && s.last() == '\r' {
        s.drop_last()
    } else {
        s
    }
}

/// The lines of `s`: each ends at a line feed, or a carriage return and a line
/// feed, which are not part of it; the last line may lack that ending.
pub open spec fn lines_of(s: Seq<char>) -> Seq<Seq<char>>
    decreases s.len(),
{
    if s.len() == 0 {
        Seq::empty()
    } else {
        match find(s, "\n"@) {
            Some(i) => if 0 <= i < s.len() {
                seq![without_return(s.take(i))] + lines_of(s.skip(i + 1))
            } else {
                seq![s]
            },
            None => seq![s],
        }
    }
}

/// Splits `s` into its lines.
pub fn lines<'a>(s: &'a [char]) -> (parts: Vec<&'a [char]>)
    ensures
        slices(parts@) == lines_of(s@),
{
    let needle = chars_of("\n");
    proof {
        reveal_strlit("\n");
    }
    let mut parts: Vec<&'a [char]> = Vec::new();
    let mut rest = s;
    assert(slices(parts@) =~= Seq::empty());
    while rest.len() > 0
        invariant
            needle@ == "\n"@,
            needle@.len() == 1,
            lines_of(s@) == slices(parts@) + lines_of(rest@),
        decreases rest@.len(),
    {
        let ghost done = slices(parts@);
        match find_chars(rest, needle.as_slice()) {
            Some(i) => {
                let end = if i > 0 && rest[i - 1] == '\r' {
                    i - 1
                } else {
                    i
                };
                let line = slice_subrange(rest, 0, end);
                let back = slice_subrange(rest, i + 1, rest.len());
                assert(line@ =~= without_return(rest@.take(i as int)));
                assert(back@ =~= rest@.skip(i + 1));
                parts.push(line);
                assert(slices(parts@) =~= done + seq![line@]);
                assert(done + (seq![line@] + lines_of(back@)) =~= slices(parts@) + lines_of(back@));
                rest = back;
            },
            None => {
                parts.push(rest);
                assert(slices(parts@) =~= done + seq![rest@]);
                return parts;
            },
        }
    }
    assert(slices(parts@) + lines_of(rest@) =~= slices(parts@));
    parts
}

/// The characters of `s` up to the first white space.
pub open spec fn word_prefix(s: Seq<char>) -> Seq<char>
    decreases s.len(),
{
    if s.len() == 0 || is_white_space(s[0]) {
        Seq::empty()
    } else {
        seq![s[0]] + word_prefix(s.drop_first())
    }
}

/// The first run of characters that are no white space.
pub open spec fn first_word_of(s: Seq<char>) -> Option<Seq<char>> {
    let body = trim_start(s);
    if body.len() == 0 {
        None
    } else {
        Some(word_prefix(body))
    }
}

/// The first word of `s`, if it has one.
pub fn first_word<'a>(s: &'a [char]) -> (word: Option<&'a [char]>)
    ensures
        match word {
            Some(w) => first_word_of(s@) == Some(w@),
            None => first_word_of(s@) is None,
        },
{
    let mut start: usize = 0;
    assert(s@.skip(0) =~= s@);
    while start < s.len() && white_space(s[start])
        invariant
            start <= s@.len(),
            trim_start(s@) == trim_start(s@.skip(start as int)),
        decreases s.len() - start,
    {
        assert(s@.skip(start as int).drop_first() =~= s@.skip(start + 1));
        start = start + 1;
    }
    let ghost body = s@.skip(start as int);
    assert(trim_start(s@) == body);
    if start == s.len() {
        return None;
    }
    let mut end: usize = start;
    assert(s@.subrange(start as int, end as int) + word_prefix(s@.skip(end as int)) =~= word_prefix(body));
    while end < s.len() && !white_space(s[end])
        invariant
            start <= end <= s@.len(),
            word_prefix(body) == s@.subrange(start as int, end as int) + word_prefix(s@.skip(end as int)),
        decreases s.len() - end,
    {
        assert(s@.skip(end as int).drop_first() =~= s@.skip(end + 1));
        assert(s@.subrange(start as int, end as int) + (seq![s@[end as int]] + word_prefix(s@.skip(end + 1)))
            =~= s@.subrange(start as int, end + 1) + word_prefix(s@.skip(end + 1)));
        end = end + 1;
    }
    assert(word_prefix(s@.skip(end as int)) =~= Seq::empty());
    assert(s@.subrange(start as int, end as int) + Seq::<char>::empty() =~= s@.subrange(start as int, end as int));
    Some(slice_subrange(s, start, end))
}

/// Whether `s` begins with the text `prefix`.
pub fn starts_with(s: &[char], prefix: &str) -> (yes: bool)
    ensures
        yes == prefix@.is_prefix_of(s@),
{
    let p = chars_of(prefix);
    if p.len() > s.len() {
        return false;
    }
    let front = slice_subrange(s, 0, p.len());
    same_chars(front, p.as_slice())
}

/// Whether `s` ends with the text `suffix`.
pub fn ends_with(s: &[char], suffix: &str) -> (yes: bool)
    ensures
        yes == suffix@.is_suffix_of(s@),
{
    let p = chars_of(suffix);
    if p.len() > s.len() {
        return false;
    }
    let back = slice_subrange(s, s.len() - p.len(), s.len());
    same_chars(back, p.as_slice())
}

/// `c` as a lower case letter, where it is an ASCII letter.
pub open spec fn lower_char(c: char) -> char {
    if 'A' <= c <= 'Z' {
        (c as u32 + 32) as char
    } else {
        c
    }
}

/// `c` as an upper case letter, where it is an ASCII letter.
pub open spec fn upper_char(c: char) -> char {
    if 'a' <= c <= 'z' {
        (c as u32 - 32) as char
    } else {
        c
    }
}

/// `s` with its ASCII letters in lower case.
pub open spec fn lower(s: Seq<char>) -> Seq<char> {
    Seq::new(s.len(), |i: int| lower_char(s[i]))
}

/// `s` with its ASCII letters in upper case.
pub open spec fn upper(s: Seq<char>) -> Seq<char> {
    Seq::new(s.len(), |i: int| upper_char(s[i]))
}

/// `s` with its ASCII letters in lower case.
pub fn to_lower(s: &[char]) -> (out: Vec<char>)
    ensures
        out@ == lower(s@),
{
    let mut out: Vec<char> = Vec::new();
    for i in 0..s.len()
        invariant
            out@ == lower(s@).take(i as int),
    {
        let c = s[i];
        if 'A' <= c && c <= 'Z' {
            out.push((c as u8 + 32) as char);
        } else {
            out.push(c);
        }
        assert(out@ =~= lower(s@).take(i + 1));
    }
    assert(out@ =~= lower(s@));
    out
}

/// `s` with its ASCII letters in upper case.
pub fn to_upper(s: &[char]) -> (out: Vec<char>)
    ensures
        out@ == upper(s@),
{
    let mut out: Vec<char> = Vec::new();
    for i in 0..s.len()
        invariant
            out@ == upper(s@).take(i as int),
    {
        let c = s[i];
        if 'a' <= c && c <= 'z' {
            out.push((c as u8 - 32) as char);
        } else {
            out.push(c);
        }
        assert(out@ =~= upper(s@).take(i + 1));
    }
    assert(out@ =~= upper(s@));
    out
}

/// Whether `s` and `text` differ at most in the case of ASCII letters.
pub fn same_ignoring_case(s: &[char], text: &str) -> (yes: bool)
    ensures
        yes == (lower(s@) == lower(text@)),
{
    let other = chars_of(text);
    let a = to_lower(s);
    let b = to_lower(other.as_slice());
    same_chars(a.as_slice(), b.as_slice())
}

/// The order of characters by code point.
pub open spec fn char_before() -> spec_fn(char, char) -> bool {
    |a: char, b: char| a < b
}

/// `a` comes before `b` by code points, or is `b`.
pub open spec fn text_le(a: Seq<char>, b: Seq<char>) -> bool {
    crate::order::lexicographic(a, b, char_before())
}

/// The order of texts is total.
pub proof fn text_order_is_total(a: Seq<char>, b: Seq<char>)
    ensures
        text_le(a, b) || text_le(b, a),
{
    crate::order::lexicographic_is_total(a, b, char_before());
}

/// The order of texts is transitive.
pub proof fn text_order_is_transitive(a: Seq<char>, b: Seq<char>, c: Seq<char>)
    requires
        text_le(a, b),
        text_le(b, c),
    ensures
        text_le(a, c),
{
    crate::order::lexicographic_is_transitive(a, b, c, char_before());
}

/// Texts that come before each other are the same.
pub proof fn text_order_is_antisymmetric(a: Seq<char>, b: Seq<char>)
    requires
        text_le(a, b),
        text_le(b, a),
    ensures
        a == b,
{
    crate::order::lexicographic_is_antisymmetric(a, b, char_before());
}

/// Whether `a` comes before `b` by code points, or is `b`.
pub fn not_after(a: &[char], b: &[char]) -> (yes: bool)
    ensures
        yes == text_le(a@, b@),
{
    let mut i: usize = 0;
    assert(a@.skip(0) =~= a@);
    assert(b@.skip(0) =~= b@);
    loop
        invariant
            i <= a@.len(),
            i <= b@.len(),
            text_le(a@, b@) == text_le(a@.skip(i as int), b@.skip(i as int)),
        decreases a@.len() - i,
    {
        if i == a.len() {
            return true;
        }
        if i == b.len() {
            return false;
        }
        assert(a@.skip(i as int).drop_first() =~= a@.skip(i + 1));
        assert(b@.skip(i as int).drop_first() =~= b@.skip(i + 1));
        if a[i] < b[i] {
            return true;
        }
        if a[i] != b[i] {
            return false;
        }
        i = i + 1;
    }
}

/// Whether `c` is a decimal digit.
pub open spec fn is_digit(c: char) -> bool {
    '0' <= c <= '9'
}

/// The number that a string of decimal digits writes.
pub open spec fn decimal_value(s: Seq<char>) -> nat
    decreases s.len(),
{
    if s.len() == 0 {
        0
    } else {
        10 * decimal_value(s.drop_last()) + (s.last() as nat - '0' as nat) as nat
    }
}

/// `s` without a leading plus sign.
pub open spec fn without_plus(s: Seq<char>) -> Seq<char> {
    if s.len() > 0 && s[0] == '+' {
        s.drop_first()
    } else {
        s
    }
}

/// The number that `s` writes: decimal digits, at least one, perhaps behind a
/// plus sign; none where it does not fit in 64 bits.
pub open spec fn decimal_u64(s: Seq<char>) -> Option<u64> {
    let digits = without_plus(s);
    if digits.len() > 0 && (forall|i: int| 0 <= i < digits.len() ==> is_digit(#[trigger] digits[i]))
        && decimal_value(digits) <= u64::MAX {
        Some(decimal_value(digits) as u64)
    } else {
        None
    }
}

proof fn lemma_decimal_grows(s: Seq<char>, k: int)
    requires
        0 <= k <= s.len(),
        forall|i: int| 0 <= i < s.len() ==> is_digit(#[trigger] s[i]),
    ensures
        decimal_value(s.take(k)) <= decimal_value(s),
    decreases s.len() - k,
{
    if k < s.len() {
        assert(s.take(k + 1).drop_last() =~= s.take(k));
        lemma_decimal_grows(s, k + 1);
    } else {
        assert(s.take(k) =~= s);
    }
}

/// Reads an unsigned decimal number.
pub fn parse_u64(s: &[char]) -> (number: Option<u64>)
    ensures
        number == decimal_u64(s@),
{
    let start: usize = if s.len() > 0 && s[0] == '+' {
        1
    } else {
        0
    };
    let digits = slice_subrange(s, start, s.len());
    assert(digits@ =~= without_plus(s@));
    if digits.len() == 0 {
        return None;
    }
    let mut all = true;
    for i in 0..digits.len()
        invariant
            all == (forall|j: int| 0 <= j < i ==> is_digit(#[trigger] digits@[j])),
    {
        let c = digits[i];
        if !('0' <= c && c <= '9') {
            all = false;
        }
    }
    if !all {
        return None;
    }
    let mut value: u64 = 0;
    for i in 0..digits.len()
        invariant
            digits@ == without_plus(s@),
            digits@.len() > 0,
            forall|j: int| 0 <= j < digits@.len() ==> is_digit(#[trigger] digits@[j]),
            value == decimal_value(digits@.take(i as int)),
    {
        let c = digits[i];
        let digit = (c as u8 - '0' as u8) as u64;
        proof {
            assert(digits@.take(i + 1).drop_last() =~= digits@.take(i as int));
            lemma_decimal_grows(digits@, i + 1);
            assert(is_digit(digits@[i as int]));
        }
        let scaled = match value.checked_mul(10) {
            Some(n) => n,
            None => return None,
        };
        value = match scaled.checked_add(digit) {
            Some(n) => n,
            None => return None,
        };
    }
    assert(digits@.take(digits@.len() as int) =~= digits@);
    Some(value)
}

/// The product, or the largest number where it does not fit.
pub open spec fn saturating_product(a: u64, b: u64) -> u64 {
    if a * b <= u64::MAX {
        (a * b) as u64
    } else {
        u64::MAX
    }
}

/// Multiplies, stopping at the largest number.
pub fn saturating_mul(a: u64, b: u64) -> (product: u64)
    ensures
        product == saturating_product(a, b),
{
    match a.checked_mul(b) {
        Some(n) => n,
        None => u64::MAX,
    }
}

} // verus!
