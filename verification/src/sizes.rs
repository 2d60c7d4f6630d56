//! Sizes as package managers report them.

use vstd::prelude::*;
use vstd::slice::slice_subrange;

use crate::text::{chars_of, ends_with, string_of, to_upper, upper, upper_char};

verus! {

/// The size that a package manager reports.
#[derive(Debug, PartialEq, Eq)]
pub enum ReportedSize {
    /// A number of bytes.
    Bytes(u64),
    /// A decimal number, as it was written, of so many bytes.
    Scaled { number: String, multiplier: u64 },
    /// Any other text, reduced to the characters that sizes are written with.
    Text(String),
}

/// What a reported size says.
pub enum SizeView {
    Bytes(u64),
    Scaled { number: Seq<char>, multiplier: u64 },
    Text(Seq<char>),
}

impl View for ReportedSize {
    type V = SizeView;

    open spec fn view(&self) -> SizeView {
        match *self {
            ReportedSize::Bytes(n) => SizeView::Bytes(n),
            ReportedSize::Scaled { number, multiplier } => SizeView::Scaled { number: number@, multiplier },
            ReportedSize::Text(text) => SizeView::Text(text@),
        }
    }
}

impl ReportedSize {
    /// The same size again.
    pub fn copied(&self) -> (size: ReportedSize)
        ensures
            size@ == self@,
    {
        match self {
            ReportedSize::Bytes(n) => ReportedSize::Bytes(*n),
            ReportedSize::Scaled { number, multiplier } => ReportedSize::Scaled {
                number: number.clone(),
                multiplier: *multiplier,
            },
            ReportedSize::Text(text) => ReportedSize::Text(text.clone()),
        }
    }
}

/// The characters that sizes are written with: ASCII digits and letters and the
/// decimal point.
pub open spec fn is_size_char(c: char) -> bool {
    ||| '0' <= c <= '9'
    ||| 'a' <= c <= 'z'
    ||| 'A' <= c <= 'Z'
    ||| c == '.'
}

/// `c`, a decimal comma as a decimal point.
pub open spec fn point_for_comma(c: char) -> char {
    if c == ',' {
        '.'
    } else {
        c
    }
}

/// `s` with decimal points for commas, and without all characters that sizes are
/// not written with.
pub open spec fn size_text(s: Seq<char>) -> Seq<char>
    decreases s.len(),
{
    if s.len() == 0 {
        Seq::empty()
    } else {
        let front = size_text(s.drop_last());
        let c = point_for_comma(s.last());
        if is_size_char(c) {
            front.push(c)
        } else {
            front
        }
    }
}

/// `text` without its last two characters, to be counted in units of
/// `multiplier` bytes.
pub open spec fn scaled(text: Seq<char>, multiplier: u64) -> SizeView {
    SizeView::Scaled { number: text.take(text.len() - 2), multiplier }
}

/// The size that `value` reports: a number with a decimal unit, in any case, or
/// the text of another size.
pub open spec fn reported_size(value: Seq<char>) -> SizeView {
    let text = size_text(value);
    if "KB"@.is_suffix_of(upper(text)) {
        scaled(text, 1_000)
    } else if "MB"@.is_suffix_of(upper(text)) {
        scaled(text, 1_000_000)
    } else if "GB"@.is_suffix_of(upper(text)) {
        scaled(text, 1_000_000_000)
    } else if "TB"@.is_suffix_of(upper(text)) {
        scaled(text, 1_000_000_000_000)
    } else {
        SizeView::Text(text)
    }
}

fn size_chars(s: &[char]) -> (out: Vec<char>)
    ensures
        out@ == size_text(s@),
{
    let mut out: Vec<char> = Vec::new();
    assert(out@ =~= size_text(s@.take(0)));
    for i in 0..s.len()
        invariant
            out@ == size_text(s@.take(i as int)),
    {
        assert(s@.take(i + 1).drop_last() =~= s@.take(i as int));
        let c = if s[i] == ',' {
            '.'
        } else {
            s[i]
        };
        if ('0' <= c && c <= '9') || ('a' <= c && c <= 'z') || ('A' <= c && c <= 'Z') || c == '.' {
            out.push(c);
        }
    }
    assert(s@.take(s@.len() as int) =~= s@);
    out
}

fn scaled_size(text: &[char], multiplier: u64) -> (size: ReportedSize)
    requires
        text@.len() >= 2,
    ensures
        size@ == scaled(text@, multiplier),
{
    let number = slice_subrange(text, 0, text.len() - 2);
    assert(number@ =~= text@.take(text@.len() - 2));
    ReportedSize::Scaled { number: string_of(number), multiplier }
}

/// Reads a size such as `441.3 MB`.
///
/// Everything that is not a digit, a decimal point, or a unit letter is dropped
/// first. Package managers separate the number from its unit with a
/// non-breaking space, which under the C locale comes out as a question mark:
/// `flatpak list` then reports `14.8?MB`.
pub fn read_size(value: &[char]) -> (size: ReportedSize)
    ensures
        size@ == reported_size(value@),
{
    let text = size_chars(value);
    let t = text.as_slice();
    let capitals = to_upper(t);
    let u = capitals.as_slice();
    proof {
        reveal_strlit("KB");
        reveal_strlit("MB");
        reveal_strlit("GB");
        reveal_strlit("TB");
    }
    if ends_with(u, "KB") {
        scaled_size(t, 1_000)
    } else if ends_with(u, "MB") {
        scaled_size(t, 1_000_000)
    } else if ends_with(u, "GB") {
        scaled_size(t, 1_000_000_000)
    } else if ends_with(u, "TB") {
        scaled_size(t, 1_000_000_000_000)
    } else {
        ReportedSize::Text(string_of(t))
    }
}

/// Reads a size such as `441.3 MB`.
pub fn parse_reported_size(value: &str) -> (size: ReportedSize)
    ensures
        size@ == reported_size(value@),
{
    let chars = chars_of(value);
    read_size(chars.as_slice())
}

proof fn lemma_size_text_parts(a: Seq<char>, b: Seq<char>)
    ensures
        size_text(a + b) == size_text(a) + size_text(b),
    decreases b.len(),
{
    if b.len() == 0 {
        assert(a + b =~= a);
        assert(size_text(a) + size_text(b) =~= size_text(a));
    } else {
        assert((a + b).drop_last() =~= a + b.drop_last());
        lemma_size_text_parts(a, b.drop_last());
        assert(size_text(a + b) =~= size_text(a) + size_text(b));
    }
}

/// A separator that sizes are not written with changes nothing, wherever it
/// stands.
pub proof fn separators_are_ignored(front: Seq<char>, separator: char, back: Seq<char>)
    requires
        !is_size_char(separator),
        separator != ',',
    ensures
        reported_size(front.push(separator) + back) == reported_size(front + back),
{
    lemma_size_text_parts(front.push(separator), back);
    lemma_size_text_parts(front, back);
    assert(front.push(separator).drop_last() =~= front);
}

/// A decimal comma is read as a decimal point.
pub proof fn commas_are_points(front: Seq<char>, back: Seq<char>)
    ensures
        reported_size(front.push(',') + back) == reported_size(front.push('.') + back),
{
    lemma_size_text_parts(front.push(','), back);
    lemma_size_text_parts(front.push('.'), back);
    assert(front.push(',').drop_last() =~= front);
    assert(front.push('.').drop_last() =~= front);
}

proof fn lemma_size_text_kept(s: Seq<char>)
    requires
        forall|i: int| 0 <= i < s.len() ==> is_size_char(#[trigger] s[i]),
    ensures
        size_text(s) == s,
    decreases s.len(),
{
    if s.len() > 0 {
        let front = s.drop_last();
        assert forall|i: int| 0 <= i < front.len() implies is_size_char(#[trigger] front[i]) by {
            assert(is_size_char(s[i]));
        }
        lemma_size_text_kept(front);
        assert(is_size_char(s[s.len() - 1]));
        assert(front.push(s.last()) =~= s);
    }
}

/// What is kept of a size: digits, letters of ASCII and points, and commas as points;
/// all else is dropped.
pub proof fn sizes_are_kept_character_by_character(front: Seq<char>, c: char)
    ensures
        size_text(Seq::empty()) == Seq::<char>::empty(),
        size_text(front.push(c)) == if '0' <= c <= '9' || 'a' <= c <= 'z' || 'A' <= c <= 'Z' || c == '.' {
            size_text(front).push(c)
        } else if c == ',' {
            size_text(front).push('.')
        } else {
            size_text(front)
        },
{
    assert(front.push(c).drop_last() =~= front);
}

/// A number with a decimal unit behind it, in whatever case, counts kilobytes,
/// megabytes, gigabytes or terabytes, each a thousand of the one before; the number
/// stays as it is written.
pub proof fn decimal_units_scale(number: Seq<char>, unit: Seq<char>)
    requires
        forall|i: int| 0 <= i < number.len() ==> '0' <= #[trigger] number[i] <= '9' || number[i] == '.',
        forall|i: int|
            0 <= i < unit.len() ==> 'a' <= #[trigger] unit[i] <= 'z' || 'A' <= unit[i] <= 'Z',
    ensures
        upper(unit) == "KB"@ ==> reported_size(number + unit) == (SizeView::Scaled { number, multiplier: 1_000 }),
        upper(unit) == "MB"@ ==> reported_size(number + unit) == (SizeView::Scaled { number, multiplier: 1_000_000 }),
        upper(unit) == "GB"@ ==> reported_size(number + unit) == (SizeView::Scaled {
            number,
            multiplier: 1_000_000_000,
        }),
        upper(unit) == "TB"@ ==> reported_size(number + unit) == (SizeView::Scaled {
            number,
            multiplier: 1_000_000_000_000,
        }),
        unit.len() < 2 ==> reported_size(number + unit) == SizeView::Text(number + unit),
{
    let text = number + unit;
    assert forall|i: int| 0 <= i < text.len() implies is_size_char(#[trigger] text[i]) by {
        if i < number.len() {
            assert(text[i] == number[i]);
        } else {
            assert(text[i] == unit[i - number.len()]);
        }
    }
    lemma_size_text_kept(text);
    reveal_strlit("KB");
    reveal_strlit("MB");
    reveal_strlit("GB");
    reveal_strlit("TB");
    let capitals = upper(text);
    assert("KB"@[0] == 'K' && "MB"@[0] == 'M' && "GB"@[0] == 'G' && "TB"@[0] == 'T');
    assert(upper(unit).len() == unit.len());
    if unit.len() == 2 {
        assert(capitals.subrange(capitals.len() - 2, capitals.len() as int) =~= upper(unit));
        assert(text.take(text.len() - 2) =~= number);
    } else if unit.len() < 2 && text.len() >= 2 {
        assert(capitals[capitals.len() - 2] == upper_char(text[text.len() - 2]));
        let tail = capitals.subrange(capitals.len() - 2, capitals.len() as int);
        assert(tail[0] == capitals[capitals.len() - 2]);
        assert(text[text.len() - 2] == number[text.len() - 2]);
    }
}

/// What ends in no decimal unit is kept as a text.
pub proof fn other_units_are_kept_as_text(value: Seq<char>)
    requires
        forall|k: int|
            k == size_text(value).len() - 2 && 0 <= k ==> {
                let capitals = upper(#[trigger] size_text(value).skip(k));
                capitals != "KB"@ && capitals != "MB"@ && capitals != "GB"@ && capitals != "TB"@
            },
    ensures
        reported_size(value) == SizeView::Text(size_text(value)),
{
    let text = size_text(value);
    let capitals = upper(text);
    reveal_strlit("KB");
    reveal_strlit("MB");
    reveal_strlit("GB");
    reveal_strlit("TB");
    if text.len() >= 2 {
        let k = text.len() - 2;
        assert(capitals.subrange(k, capitals.len() as int) =~= upper(size_text(value).skip(k)));
    }
}

} // verus!
