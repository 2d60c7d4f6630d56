use std::path::Path;

use tuxcleaner::analyze::DiskEntry;
use tuxcleaner::order::sort;
use tuxcleaner::path::FilePath;
use tuxcleaner::table::Table;
use tuxcleaner::text::{
    chars_of, ends_with, first_word, lines, not_after, parse_u64, rsplit_once, same_ignoring_case, saturating_mul, split,
    split_once, starts_with, string_of, to_lower, to_upper, trim, white_space,
};

const TEXTS: [&str; 14] = [
    "",
    " ",
    "a",
    " a b ",
    "\u{a0}wide\u{2003}",
    "one\ntwo\r\n\nthree",
    "ends\n",
    "a:b:c",
    ": ",
    "x: y: z",
    "ÄÖ mixed CASE",
    "\tcolumn\tcolumn\t",
    "\r",
    "a\r\rb\r\n",
];

fn text(chars: &[char]) -> String {
    chars.iter().collect()
}

#[test]
fn white_space_is_that_of_unicode() {
    for number in 0..=0x10ffff_u32 {
        if let Some(c) = char::from_u32(number) {
            assert_eq!(white_space(c), c.is_whitespace());
        }
    }
}

#[test]
fn texts_are_taken_apart_as_strings_are() {
    for sample in TEXTS {
        let chars = chars_of(sample);
        assert_eq!(string_of(&chars), sample);
        assert_eq!(text(trim(&chars)), sample.trim());
        let found: Vec<String> = lines(&chars).iter().map(|line| text(line)).collect();
        let expected: Vec<&str> = sample.lines().collect();
        assert_eq!(found, expected);
        assert_eq!(first_word(&chars).map(text), sample.split_whitespace().next().map(|word| word.to_owned()));
        assert_eq!(text(&to_lower(&chars)), sample.to_ascii_lowercase());
        assert_eq!(text(&to_upper(&chars)), sample.to_ascii_uppercase());
        for pattern in [":", ": ", "\t", "\n\n", "b"] {
            let parts: Vec<String> = split(&chars, pattern).iter().map(|part| text(part)).collect();
            let expected: Vec<&str> = sample.split(pattern).collect();
            assert_eq!(parts, expected);
            let pair = |(a, b): (&[char], &[char])| (text(a), text(b));
            let owned = |(a, b): (&str, &str)| (a.to_owned(), b.to_owned());
            assert_eq!(split_once(&chars, pattern).map(pair), sample.split_once(pattern).map(owned));
            assert_eq!(rsplit_once(&chars, pattern).map(pair), sample.rsplit_once(pattern).map(owned));
            assert_eq!(starts_with(&chars, pattern), sample.starts_with(pattern));
            assert_eq!(ends_with(&chars, pattern), sample.ends_with(pattern));
        }
        for other in TEXTS {
            assert_eq!(not_after(&chars, &chars_of(other)), sample <= other);
            assert_eq!(same_ignoring_case(&chars, other), sample.eq_ignore_ascii_case(other));
        }
    }
}

#[test]
fn numbers_are_read_as_integers_are() {
    for sample in [
        "", "0", "7", "+7", "+", "-7", " 7", "007", "1_000", "12a", "18446744073709551615", "18446744073709551616",
        "99999999999999999999999", "٣",
    ] {
        assert_eq!(parse_u64(&chars_of(sample)), sample.parse::<u64>().ok());
    }
    assert_eq!(saturating_mul(3, 4), 12);
    assert_eq!(saturating_mul(u64::MAX, 2), u64::MAX);
}

const PATHS: [&str; 22] = [
    "a///b//", "//a", "./", "/a/./b/.", "", "/", ".", "..", "a", "a/b", "/a", "/a/b", "a//b", "a/./b", "./a", "/./a", "a/..", "a/b/", ".cache/yay", "é/ü",
    "/a/b/c", "b",
];

#[test]
fn paths_are_those_of_the_system() {
    for sample in PATHS {
        let path = FilePath::from_text(sample);
        let expected = Path::new(sample);
        let name = path.file_name().map(|bytes| String::from_utf8(bytes).unwrap());
        assert_eq!(name.as_deref(), expected.file_name().map(|name| name.to_str().unwrap()));
        assert_eq!(path.display(), sample);
        for other in PATHS {
            let second = FilePath::from_text(other);
            let known = Path::new(other);
            assert_eq!(path.same(&second), expected == known);
            assert_eq!(path == second, expected == known);
            assert_eq!(path.starts_with(&second), expected.starts_with(known));
            assert_eq!(path.not_after(&second), expected <= known);
            assert_eq!(path.join(&second).display(), expected.join(known).to_str().unwrap());
            let relative = path.strip_prefix(&second);
            let known_relative = expected.strip_prefix(known).ok();
            let known_route = known_relative.map(|relative| FilePath::from_text(relative.to_str().unwrap()).components());
            assert_eq!(relative, known_route);
        }
    }
}

#[test]
fn relative_paths_stay_below_the_directory_that_they_are_seen_from() {
    let home = FilePath::from_text("/home/user");
    for relative in [".var/app", "a", ".", "..", ""] {
        assert!(home.join(&FilePath::from_text(relative)).starts_with(&home));
    }
    assert!(!home.join(&FilePath::from_text("/etc")).starts_with(&home));
}

#[test]
fn sorting_keeps_ties_in_their_order() {
    let entry = |name: &str, size: u64, is_dir: bool| DiskEntry {
        name: name.to_owned(),
        path: FilePath::from_text("/"),
        size,
        is_dir,
    };
    let mut items = Vec::new();
    for i in 0..100_u64 {
        items.push(entry(&format!("n{}", i % 3), i % 7, i % 2 == 0));
    }
    let mut expected: Vec<(String, u64, bool)> =
        items.iter().map(|item| (item.name.clone(), item.size, item.is_dir)).collect();
    expected.sort_by(|a, b| b.1.cmp(&a.1).then_with(|| a.0.cmp(&b.0)));
    let sorted: Vec<(String, u64, bool)> =
        sort(items).into_iter().map(|item| (item.name, item.size, item.is_dir)).collect();
    assert_eq!(sorted, expected);
}

#[test]
fn the_last_value_of_a_key_counts() {
    let mut table: Table<String, String> = Table::new();
    table.insert("a".to_owned(), "1".to_owned());
    table.insert("b".to_owned(), "2".to_owned());
    table.insert("a".to_owned(), "3".to_owned());
    assert_eq!(table.get(&"a".to_owned()).map(|value| value.as_str()), Some("3"));
    assert_eq!(table.get(&"b".to_owned()).map(|value| value.as_str()), Some("2"));
    assert!(!table.contains(&"c".to_owned()));
}
