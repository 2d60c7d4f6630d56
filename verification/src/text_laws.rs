//! What holds of the ways in which texts are taken apart, whatever they say.

use vstd::prelude::*;

use crate::text::{
    decimal_u64, decimal_value, fields, find, find_is_first, first_word_of, is_digit, is_white_space, lines_of, lower,
    matches_at, rfind, rfind_to, saturating_product, split_at_first, split_at_last, text_le, trim_end, trim_start,
    trimmed, upper, without_plus, word_prefix,
};

verus! {

/// White space is what Unicode calls so: the controls from tab to carriage return, the
/// space, and the other separators of words, lines and paragraphs.
pub proof fn white_space_is_that_of_unicode(c: char)
    ensures
        is_white_space(c) <==> {
            let code = c as u32;
            ||| 9 <= code <= 13
            ||| code == 32
            ||| code == 0x85
            ||| code == 0xa0
            ||| code == 0x1680
            ||| 0x2000 <= code <= 0x200a
            ||| code == 0x2028
            ||| code == 0x2029
            ||| code == 0x202f
            ||| code == 0x205f
            ||| code == 0x3000
        },
{
}

proof fn lemma_trim_start(a: Seq<char>, rest: Seq<char>)
    requires
        forall|i: int| 0 <= i < a.len() ==> is_white_space(#[trigger] a[i]),
    ensures
        trim_start(a + rest) == trim_start(rest),
    decreases a.len(),
{
    if a.len() == 0 {
        assert(a + rest =~= rest);
    } else {
        assert((a + rest).drop_first() =~= a.drop_first() + rest);
        assert(is_white_space(a[0]));
        assert forall|i: int| 0 <= i < a.drop_first().len() implies is_white_space(#[trigger] a.drop_first()[i]) by {
            assert(is_white_space(a[i + 1]));
        }
        lemma_trim_start(a.drop_first(), rest);
    }
}

proof fn lemma_trim_end(front: Seq<char>, b: Seq<char>)
    requires
        forall|i: int| 0 <= i < b.len() ==> is_white_space(#[trigger] b[i]),
    ensures
        trim_end(front + b) == trim_end(front),
    decreases b.len(),
{
    if b.len() == 0 {
        assert(front + b =~= front);
    } else {
        assert((front + b).drop_last() =~= front + b.drop_last());
        assert(is_white_space(b[b.len() - 1]));
        assert forall|i: int| 0 <= i < b.drop_last().len() implies is_white_space(#[trigger] b.drop_last()[i]) by {
            assert(is_white_space(b[i]));
        }
        lemma_trim_end(front, b.drop_last());
    }
}

/// Trimming takes away the white space around a text, and nothing of the text.
pub proof fn trimming_takes_the_white_space_around(before: Seq<char>, text: Seq<char>, behind: Seq<char>)
    requires
        forall|i: int| 0 <= i < before.len() ==> is_white_space(#[trigger] before[i]),
        forall|i: int| 0 <= i < behind.len() ==> is_white_space(#[trigger] behind[i]),
        text.len() > 0 ==> !is_white_space(text[0]) && !is_white_space(text.last()),
    ensures
        trimmed(before + text + behind) == text,
{
    assert(before + text + behind =~= before + (text + behind));
    lemma_trim_start(before, text + behind);
    if text.len() > 0 {
        assert((text + behind)[0] == text[0]);
        assert(trim_start(text + behind) == text + behind);
        lemma_trim_end(text, behind);
        assert(trim_end(text) == text);
    } else {
        assert(text + behind =~= behind);
        assert(behind + Seq::<char>::empty() =~= behind);
        lemma_trim_start(behind, Seq::empty());
        assert(text =~= Seq::empty());
    }
}

proof fn lemma_matches(s: Seq<char>, pattern: Seq<char>, front: Seq<char>, back: Seq<char>)
    requires
        s == front + pattern + back,
    ensures
        matches_at(s, pattern, front.len() as int),
{
    assert(s.subrange(front.len() as int, (front.len() + pattern.len()) as int) =~= pattern);
}

proof fn lemma_parted(s: Seq<char>, pattern: Seq<char>, i: int)
    requires
        matches_at(s, pattern, i),
    ensures
        s == s.take(i) + pattern + s.skip(i + pattern.len()),
{
    assert(s =~= s.take(i) + s.subrange(i, i + pattern.len()) + s.skip(i + pattern.len()));
}

/// A text is parted at the first place where the pattern stands: what comes before and
/// behind it make up the text with it, and it stands nowhere earlier. Where the text is
/// not parted, the pattern does not stand in it.
pub proof fn texts_are_parted_at_the_first_place(s: Seq<char>, pattern: Seq<char>, front: Seq<char>, back: Seq<char>)
    ensures
        match split_at_first(s, pattern) {
            Some((before, behind)) => s == before + pattern + behind && (s == front + pattern + back ==> before.len()
                <= front.len()),
            None => s != front + pattern + back,
        },
{
    find_is_first(s, pattern, 0);
    if s == front + pattern + back {
        lemma_matches(s, pattern, front, back);
    }
    if let Some(i) = find(s, pattern) {
        lemma_parted(s, pattern, i);
    }
}

proof fn lemma_rfind(s: Seq<char>, pattern: Seq<char>, from: int)
    ensures
        match rfind_to(s, pattern, from) {
            Some(i) => 0 <= i <= from && matches_at(s, pattern, i) && forall|j: int|
                i < j <= from ==> !#[trigger] matches_at(s, pattern, j),
            None => forall|j: int| 0 <= j <= from ==> !#[trigger] matches_at(s, pattern, j),
        },
    decreases from + 1,
{
    if from >= 0 && !matches_at(s, pattern, from) {
        lemma_rfind(s, pattern, from - 1);
    }
}

/// Parted at the last place, a text has the pattern nowhere later.
pub proof fn texts_are_parted_at_the_last_place(s: Seq<char>, pattern: Seq<char>, front: Seq<char>, back: Seq<char>)
    ensures
        match split_at_last(s, pattern) {
            Some((before, behind)) => s == before + pattern + behind && (s == front + pattern + back ==> before.len()
                >= front.len()),
            None => s != front + pattern + back,
        },
{
    lemma_rfind(s, pattern, s.len() - pattern.len());
    if s == front + pattern + back {
        lemma_matches(s, pattern, front, back);
    }
    if let Some(i) = rfind(s, pattern) {
        lemma_parted(s, pattern, i);
    }
}

/// A separator of one character parts a text before which it does not stand from all
/// that comes behind it.
pub proof fn single_separators_part(front: Seq<char>, separator: char, back: Seq<char>)
    requires
        !front.contains(separator),
    ensures
        split_at_first(front + seq![separator] + back, seq![separator]) == Some((front, back)),
        split_at_first(front, seq![separator]) is None,
{
    let s = front + seq![separator] + back;
    let pattern = seq![separator];
    texts_are_parted_at_the_first_place(s, pattern, front, back);
    let (before, behind) = split_at_first(s, pattern)->0;
    assert((before + pattern + behind)[before.len() as int] == separator);
    if before.len() < front.len() {
        assert(front[before.len() as int] == s[before.len() as int]);
        assert(front.contains(separator));
    }
    assert(before =~= s.take(before.len() as int));
    assert(front =~= s.take(front.len() as int));
    assert(behind =~= s.skip((before.len() + 1) as int));
    assert(back =~= s.skip((front.len() + 1) as int));
    if let Some((x, y)) = split_at_first(front, pattern) {
        texts_are_parted_at_the_first_place(front, pattern, x, y);
        assert((x + pattern + y)[x.len() as int] == separator);
        assert(front[x.len() as int] == separator);
    }
}

/// What stands between separators are the fields of a text, from left to right: the
/// text before the first separator, and the fields of what comes behind it. A text
/// without a separator is one field.
pub proof fn separators_part_fields(front: Seq<char>, separator: char, back: Seq<char>)
    requires
        !front.contains(separator),
    ensures
        fields(front + seq![separator] + back, seq![separator]) == seq![front] + fields(back, seq![separator]),
        fields(front, seq![separator]) == seq![front],
{
    single_separators_part(front, separator, back);
    find_is_first(front + seq![separator] + back, seq![separator], 0);
    find_is_first(front, seq![separator], 0);
}

/// Fields are parted at each place where the pattern stands, from left to right.
pub proof fn fields_are_parted_from_left_to_right(s: Seq<char>, pattern: Seq<char>)
    requires
        pattern.len() > 0,
    ensures
        match split_at_first(s, pattern) {
            Some((before, behind)) => fields(s, pattern) == seq![before] + fields(behind, pattern),
            None => fields(s, pattern) == seq![s],
        },
{
    find_is_first(s, pattern, 0);
}

proof fn lemma_line_feed()
    ensures
        "\n"@ == seq!['\n'],
{
    reveal_strlit("\n");
    assert("\n"@ =~= seq!['\n']);
}

/// A line ends at a line feed, which is not part of it, nor is a carriage return before
/// it; the lines of a text are the first one and those of what comes behind it. What
/// comes behind the last line feed is a line too, unless it is empty.
pub proof fn line_feeds_end_lines(line: Seq<char>, back: Seq<char>)
    requires
        !line.contains('\n'),
    ensures
        lines_of(line + seq!['\n'] + back) == seq![
            if line.len() > 0 && line.last() == '\r' {
                line.drop_last()
            } else {
                line
            },
        ] + lines_of(back),
        lines_of(line) == if line.len() == 0 {
            Seq::empty()
        } else {
            seq![line]
        },
{
    lemma_line_feed();
    let whole = line + seq!['\n'] + back;
    single_separators_part(line, '\n', back);
    find_is_first(whole, "\n"@, 0);
    find_is_first(line, "\n"@, 0);
    let i = find(whole, "\n"@)->0;
    assert(whole.take(i) == line);
    assert(i == line.len());
    assert(whole.skip(i + 1) =~= back);
}

proof fn lemma_word(word: Seq<char>, rest: Seq<char>)
    requires
        forall|i: int| 0 <= i < word.len() ==> !is_white_space(#[trigger] word[i]),
        rest.len() > 0 ==> is_white_space(rest[0]),
    ensures
        word_prefix(word + rest) == word,
    decreases word.len(),
{
    if word.len() == 0 {
        assert(word + rest =~= rest);
        assert(word =~= Seq::empty());
    } else {
        assert(!is_white_space(word[0]));
        assert((word + rest).drop_first() =~= word.drop_first() + rest);
        assert forall|i: int| 0 <= i < word.drop_first().len() implies !is_white_space(
            #[trigger] word.drop_first()[i],
        ) by {
            assert(!is_white_space(word[i + 1]));
        }
        lemma_word(word.drop_first(), rest);
        assert(seq![word[0]] + word.drop_first() =~= word);
    }
}

/// The first word of a text is what stands behind leading white space, up to the next
/// white space or the end; blank texts have none.
pub proof fn first_words_stand_between_white_space(before: Seq<char>, word: Seq<char>, rest: Seq<char>)
    requires
        forall|i: int| 0 <= i < before.len() ==> is_white_space(#[trigger] before[i]),
        forall|i: int| 0 <= i < word.len() ==> !is_white_space(#[trigger] word[i]),
        word.len() > 0,
        rest.len() > 0 ==> is_white_space(rest[0]),
    ensures
        first_word_of(before + word + rest) == Some(word),
        first_word_of(before) is None,
{
    assert(before + word + rest =~= before + (word + rest));
    lemma_trim_start(before, word + rest);
    assert(!is_white_space(word[0]));
    lemma_word(word, rest);
    assert(before + Seq::<char>::empty() =~= before);
    lemma_trim_start(before, Seq::empty());
}

/// Only the letters from A to Z have another lower case, and only those from a to z
/// another upper case: 32 code points away. Nothing else about a text changes.
pub proof fn letters_change_their_case_alone(s: Seq<char>, i: int)
    requires
        0 <= i < s.len(),
    ensures
        lower(s).len() == s.len(),
        upper(s).len() == s.len(),
        65 <= s[i] as u32 <= 90 ==> lower(s)[i] as u32 == s[i] as u32 + 32,
        !(65 <= s[i] as u32 <= 90) ==> lower(s)[i] == s[i],
        97 <= s[i] as u32 <= 122 ==> upper(s)[i] as u32 == s[i] as u32 - 32,
        !(97 <= s[i] as u32 <= 122) ==> upper(s)[i] == s[i],
{
}

/// A decimal digit behind a number makes it ten times as large and adds its value, as
/// long as that fits in 64 bits.
pub proof fn digits_count_tens(s: Seq<char>, digit: char)
    requires
        '0' <= digit <= '9',
    ensures
        decimal_u64(seq![digit]) == Some((digit as u32 - 48) as u64),
        match decimal_u64(s) {
            Some(number) => decimal_u64(s.push(digit)) == if 10 * number + (digit as u32 - 48) <= u64::MAX {
                Some((10 * number + (digit as u32 - 48)) as u64)
            } else {
                None
            },
            None => true,
        },
{
    let alone = seq![digit];
    assert(alone.drop_last() =~= Seq::empty());
    assert(decimal_value(alone.drop_last()) == 0);
    assert(alone.last() == digit);
    assert(without_plus(alone) == alone);
    if decimal_u64(s) is Some {
        let digits = without_plus(s);
        let more = without_plus(s.push(digit));
        assert(more =~= digits.push(digit));
        assert(more.drop_last() =~= digits);
    }
}

/// Only digits are numbers, at least one of them, perhaps behind a plus sign.
pub proof fn numbers_are_written_in_digits(s: Seq<char>)
    ensures
        s.len() == 0 ==> decimal_u64(s) is None,
        decimal_u64(s) is Some ==> forall|i: int|
            0 <= i < s.len() ==> ('0' <= #[trigger] s[i] <= '9' || i == 0 && s[i] == '+' && s.len() > 1),
        s.len() > 0 && s[0] != '+' ==> decimal_u64(seq!['+'] + s) == decimal_u64(s),
{
    let digits = without_plus(s);
    if decimal_u64(s) is Some {
        assert forall|i: int| 0 <= i < s.len() implies ('0' <= #[trigger] s[i] <= '9' || i == 0 && s[i] == '+' && s.len()
            > 1) by {
            if s[0] == '+' {
                if i > 0 {
                    assert(is_digit(digits[i - 1]));
                }
            } else {
                assert(is_digit(digits[i]));
            }
        }
    }
    if s.len() > 0 && s[0] != '+' {
        assert((seq!['+'] + s).drop_first() =~= s);
    }
}

/// A product stops at the largest number.
pub proof fn products_stop_at_the_largest_number(a: u64, b: u64)
    ensures
        a * b <= 0xffff_ffff_ffff_ffff ==> saturating_product(a, b) == a * b,
        a * b > 0xffff_ffff_ffff_ffff ==> saturating_product(a, b) == 0xffff_ffff_ffff_ffff,
{
}

/// Texts are ordered as in a dictionary, by the code points of their characters: the
/// empty text comes first, and the first characters that differ decide.
pub proof fn texts_are_ordered_by_their_first_difference(common: Seq<char>, a: Seq<char>, b: Seq<char>)
    ensures
        text_le(common, common + a),
        a.len() > 0 ==> !text_le(common + a, common),
        a.len() > 0 && b.len() > 0 && a[0] != b[0] ==> (text_le(common + a, common + b) <==> a[0]
            < b[0]),
    decreases common.len(),
{
    if common.len() == 0 {
        assert(common + a =~= a);
        assert(common + b =~= b);
        if a.len() > 0 && b.len() > 0 && a[0] != b[0] {
            assert(crate::text::char_before()(a[0], b[0]) == (a[0] < b[0]));
        }
    } else {
        let rest = common.drop_first();
        texts_are_ordered_by_their_first_difference(rest, a, b);
        assert((common + a).drop_first() =~= rest + a);
        assert((common + b).drop_first() =~= rest + b);
        assert((common + a)[0] == common[0]);
        assert((common + b)[0] == common[0]);
    }
}

} // verus!
