//! What package managers print, and what it says.

use vstd::prelude::*;

use crate::order::views;
use crate::packages::{is_identifier, native_name, native_package, valid_identifier};
use crate::path::{path_of, FilePath, Route};
use crate::sizes::{read_size, reported_size, ReportedSize, SizeView};
use crate::table::Table;
use crate::text::{
    chars_of, decimal_u64, fields, first_word, first_word_of, lines, lines_of, parse_u64, rsplit_once, same_text,
    saturating_mul, saturating_product, slices, split, split_at_first, split_at_last, split_once, string_of, trim,
    trimmed,
};

verus! {

/// The value of the last line `key: value` with that key.
pub open spec fn field_of(block: Seq<Seq<char>>, key: Seq<char>) -> Option<Seq<char>>
    decreases block.len(),
{
    if block.len() == 0 {
        None
    } else {
        match split_at_first(block.last(), ":"@) {
            Some((name, value)) => if trimmed(name) == key {
                Some(trimmed(value))
            } else {
                field_of(block.drop_last(), key)
            },
            None => field_of(block.drop_last(), key),
        }
    }
}

fn field<'a>(block: &Vec<&'a [char]>, key: &str) -> (value: Option<&'a [char]>)
    ensures
        match value {
            Some(v) => field_of(slices(block@), key@) == Some(v@),
            None => field_of(slices(block@), key@) is None,
        },
{
    let ghost all = slices(block@);
    let mut i: usize = block.len();
    assert(all.take(i as int) =~= all);
    while i > 0
        invariant
            i <= block@.len(),
            all == slices(block@),
            field_of(all, key@) == field_of(all.take(i as int), key@),
        decreases i,
    {
        assert(all.take(i as int).last() == block@[i - 1]@);
        assert(all.take(i as int).drop_last() =~= all.take(i - 1));
        i = i - 1;
        if let Some((name, value)) = split_once(block[i], ":") {
            if same_text(trim(name), key) {
                return Some(trim(value));
            }
        }
    }
    None
}

/// The version and the installed size of a package.
pub type Details = (String, ReportedSize);

/// The details in a block that `pacman -Qi` prints.
pub open spec fn pacman_block(block: Seq<Seq<char>>) -> (Seq<char>, SizeView) {
    (
        match field_of(block, "Version"@) {
            Some(version) => version,
            None => "unknown"@,
        },
        match field_of(block, "Installed Size"@) {
            Some(size) => reported_size(size),
            None => SizeView::Bytes(0),
        },
    )
}

fn block_details(block: &Vec<&[char]>) -> (details: Details)
    ensures
        details@ == pacman_block(slices(block@)),
{
    let version = match field(block, "Version") {
        Some(version) => string_of(version),
        None => "unknown".to_owned(),
    };
    let size = match field(block, "Installed Size") {
        Some(size) => read_size(size),
        None => ReportedSize::Bytes(0),
    };
    (version, size)
}

/// The details of the one package that `pacman -Qi` was asked for.
pub open spec fn pacman_details(stdout: Seq<char>) -> (Seq<char>, SizeView) {
    pacman_block(lines_of(stdout))
}

/// Reads what `pacman -Qi` prints of one package.
pub fn parse_pacman_details(stdout: &str) -> (details: Details)
    ensures
        details@ == pacman_details(stdout@),
{
    let chars = chars_of(stdout);
    let block = lines(chars.as_slice());
    block_details(&block)
}

/// The packages that blocks of `pacman -Qi` describe, each under its name.
pub open spec fn pacman_blocks(blocks: Seq<Seq<char>>) -> Map<Seq<char>, (Seq<char>, SizeView)>
    decreases blocks.len(),
{
    if blocks.len() == 0 {
        Map::empty()
    } else {
        let front = pacman_blocks(blocks.drop_last());
        let block = lines_of(blocks.last());
        match field_of(block, "Name"@) {
            Some(name) => front.insert(name, pacman_block(block)),
            None => front,
        }
    }
}

/// The packages that `pacman -Qi` describes, each under its name.
pub open spec fn pacman_detail_map(stdout: Seq<char>) -> Map<Seq<char>, (Seq<char>, SizeView)> {
    pacman_blocks(fields(stdout, "\n\n"@))
}

/// Reads what `pacman -Qi` prints of several packages.
pub fn parse_pacman_detail_map(stdout: &str) -> (details: Table<String, Details>)
    ensures
        details@ == pacman_detail_map(stdout@),
{
    let chars = chars_of(stdout);
    proof {
        reveal_strlit("\n\n");
    }
    let blocks = split(chars.as_slice(), "\n\n");
    let mut details: Table<String, Details> = Table::new();
    let ghost all = slices(blocks@);
    for i in 0..blocks.len()
        invariant
            all == slices(blocks@),
            details@ == pacman_blocks(all.take(i as int)),
    {
        proof {
            assert(all.take(i + 1).drop_last() =~= all.take(i as int));
            assert(all.take(i + 1).last() == blocks@[i as int]@);
        }
        let block = lines(blocks[i]);
        if let Some(name) = field(&block, "Name") {
            details.insert(string_of(name), block_details(&block));
        }
    }
    assert(all.take(all.len() as int) =~= all);
    details
}

/// A number of units, in bytes; nothing where there is no number.
pub open spec fn counted(columns: Seq<Seq<char>>, i: int, unit: u64) -> SizeView {
    let count = if i < columns.len() {
        match decimal_u64(trimmed(columns[i])) {
            Some(n) => n,
            None => 0,
        }
    } else {
        0
    };
    SizeView::Bytes(saturating_product(count, unit))
}

fn count_at(columns: &Vec<&[char]>, i: usize, unit: u64) -> (size: ReportedSize)
    ensures
        size@ == counted(slices(columns@), i as int, unit),
{
    let count: u64 = if i < columns.len() {
        match parse_u64(trim(columns[i])) {
            Some(n) => n,
            None => 0,
        }
    } else {
        0
    };
    ReportedSize::Bytes(saturating_mul(count, unit))
}

/// The details in `version <tab> size`, the size in units of so many bytes.
pub open spec fn tab_details(stdout: Seq<char>, unit: u64) -> (Seq<char>, SizeView) {
    let columns = fields(trimmed(stdout), "\t"@);
    (trimmed(columns[0]), counted(columns, 1, unit))
}

/// Reads what `dpkg-query` or `rpm` print of one package.
pub fn parse_tab_details(stdout: &str, size_multiplier: u64) -> (details: Details)
    ensures
        details@ == tab_details(stdout@, size_multiplier),
{
    let chars = chars_of(stdout);
    proof {
        reveal_strlit("\t");
    }
    let columns = split(trim(chars.as_slice()), "\t");
    assert(slices(columns@)[0] == columns@[0]@);
    (string_of(trim(columns[0])), count_at(&columns, 1, size_multiplier))
}

/// The packages in lines `name <tab> version <tab> size`, each under its name.
pub open spec fn tab_lines(listing: Seq<Seq<char>>, unit: u64) -> Map<Seq<char>, (Seq<char>, SizeView)>
    decreases listing.len(),
{
    if listing.len() == 0 {
        Map::empty()
    } else {
        let front = tab_lines(listing.drop_last(), unit);
        let columns = fields(listing.last(), "\t"@);
        if columns.len() >= 2 {
            front.insert(native_name(columns[0]), (trimmed(columns[1]), counted(columns, 2, unit)))
        } else {
            front
        }
    }
}

/// The packages that `dpkg-query` or `rpm` describe, each under its name.
pub open spec fn tab_detail_map(stdout: Seq<char>, unit: u64) -> Map<Seq<char>, (Seq<char>, SizeView)> {
    tab_lines(lines_of(stdout), unit)
}

/// Reads what `dpkg-query` or `rpm` print of several packages.
pub fn parse_tab_detail_map(stdout: &str, size_multiplier: u64) -> (details: Table<String, Details>)
    ensures
        details@ == tab_detail_map(stdout@, size_multiplier),
{
    let chars = chars_of(stdout);
    let listing = lines(chars.as_slice());
    let mut details: Table<String, Details> = Table::new();
    let ghost all = slices(listing@);
    proof {
        reveal_strlit("\t");
    }
    for i in 0..listing.len()
        invariant
            "\t"@.len() > 0,
            all == slices(listing@),
            details@ == tab_lines(all.take(i as int), size_multiplier),
    {
        proof {
            assert(all.take(i + 1).drop_last() =~= all.take(i as int));
            assert(all.take(i + 1).last() == listing@[i as int]@);
        }
        let columns = split(listing[i], "\t");
        if columns.len() >= 2 {
            let ghost words = slices(columns@);
            assert(words[0] == columns@[0]@);
            assert(words[1] == columns@[1]@);
            let version = string_of(trim(columns[1]));
            let size = count_at(&columns, 2, size_multiplier);
            details.insert(native_package(columns[0]), (version, size));
        }
    }
    assert(all.take(all.len() as int) =~= all);
    details
}

/// The file and the package in a line `<file> is owned by <package> <version>`.
pub open spec fn pacman_owner(line: Seq<char>) -> Option<(Route, Seq<char>)> {
    match split_at_first(line, " is owned by "@) {
        Some((path, ownership)) => {
            let package = match first_word_of(ownership) {
                Some(word) => native_name(word),
                None => Seq::empty(),
            };
            if valid_identifier(package) {
                Some((path_of(path).route(), package))
            } else {
                None
            }
        },
        None => None,
    }
}

/// The file and the package in a line `<package>: <file>`.
pub open spec fn apt_owner(line: Seq<char>) -> Option<(Route, Seq<char>)> {
    match split_at_last(line, ": "@) {
        Some((name, path)) => {
            let package = native_name(name);
            if valid_identifier(package) {
                Some((path_of(path).route(), package))
            } else {
                None
            }
        },
        None => None,
    }
}

/// The owner that a line of `pacman -Qo`, or else of `dpkg-query -S`, names.
pub open spec fn owner_in(line: Seq<char>, pacman: bool) -> Option<(Route, Seq<char>)> {
    if pacman {
        pacman_owner(line)
    } else {
        apt_owner(line)
    }
}

/// The owners that lines name, each under its file.
pub open spec fn owner_lines(listing: Seq<Seq<char>>, pacman: bool) -> Map<Route, Seq<char>>
    decreases listing.len(),
{
    if listing.len() == 0 {
        Map::empty()
    } else {
        let front = owner_lines(listing.drop_last(), pacman);
        match owner_in(listing.last(), pacman) {
            Some((path, package)) => front.insert(path, package),
            None => front,
        }
    }
}

/// The owners that `pacman -Qo`, or else `dpkg-query -S`, prints.
pub open spec fn owner_listing(stdout: Seq<char>, pacman: bool) -> Map<Route, Seq<char>> {
    owner_lines(lines_of(stdout), pacman)
}

fn owner_line(line: &[char], pacman: bool) -> (owner: Option<(FilePath, String)>)
    ensures
        match owner {
            Some((path, package)) => owner_in(line@, pacman) == Some((path@.route(), package@)),
            None => owner_in(line@, pacman) is None,
        },
{
    if pacman {
        match split_once(line, " is owned by ") {
            None => None,
            Some((path, ownership)) => {
                let package = match first_word(ownership) {
                    Some(word) => native_package(word),
                    None => String::new(),
                };
                let chars = chars_of(package.as_str());
                if is_identifier(chars.as_slice()) {
                    Some((FilePath::from_chars(path), package))
                } else {
                    None
                }
            },
        }
    } else {
        match rsplit_once(line, ": ") {
            None => None,
            Some((name, path)) => {
                let package = native_package(name);
                let chars = chars_of(package.as_str());
                if is_identifier(chars.as_slice()) {
                    Some((FilePath::from_chars(path), package))
                } else {
                    None
                }
            },
        }
    }
}

/// Reads the owners that `pacman -Qo`, or else `dpkg-query -S`, prints.
pub fn parse_owner_listing(stdout: &str, pacman: bool) -> (owners: Table<FilePath, String>)
    ensures
        owners@ == owner_listing(stdout@, pacman),
{
    let chars = chars_of(stdout);
    let listing = lines(chars.as_slice());
    let mut owners: Table<FilePath, String> = Table::new();
    let ghost all = slices(listing@);
    for i in 0..listing.len()
        invariant
            all == slices(listing@),
            owners@ == owner_lines(all.take(i as int), pacman),
    {
        proof {
            assert(all.take(i + 1).drop_last() =~= all.take(i as int));
            assert(all.take(i + 1).last() == listing@[i as int]@);
        }
        if let Some((path, package)) = owner_line(listing[i], pacman) {
            owners.insert(path, package);
        }
    }
    assert(all.take(all.len() as int) =~= all);
    owners
}

/// The package that the first line of an answer names; behind a colon, where the
/// line ends with the file.
pub open spec fn single_owner(stdout: Seq<char>, before_colon: bool) -> Option<Seq<char>> {
    let listing = lines_of(stdout);
    if listing.len() == 0 {
        None
    } else {
        let name = if before_colon {
            match split_at_first(listing[0], ":"@) {
                Some((front, _)) => Some(front),
                None => None,
            }
        } else {
            Some(listing[0])
        };
        match name {
            Some(text) => if valid_identifier(native_name(trimmed(text))) {
                Some(native_name(trimmed(text)))
            } else {
                None
            },
            None => None,
        }
    }
}

/// Reads the package that owns one file.
pub fn parse_owner(stdout: &str, before_colon: bool) -> (owner: Option<String>)
    ensures
        match owner {
            Some(package) => single_owner(stdout@, before_colon) == Some(package@),
            None => single_owner(stdout@, before_colon) is None,
        },
{
    let chars = chars_of(stdout);
    let listing = lines(chars.as_slice());
    assert(slices(listing@).len() == listing@.len());
    if listing.len() == 0 {
        return None;
    }
    assert(slices(listing@)[0] == listing@[0]@);
    let name = if before_colon {
        match split_once(listing[0], ":") {
            Some((front, _)) => front,
            None => return None,
        }
    } else {
        listing[0]
    };
    let package = native_package(trim(name));
    let letters = chars_of(package.as_str());
    if is_identifier(letters.as_slice()) {
        Some(package)
    } else {
        None
    }
}

/// The package names in lines, in their order.
pub open spec fn package_lines(listing: Seq<Seq<char>>) -> Seq<Seq<char>>
    decreases listing.len(),
{
    if listing.len() == 0 {
        Seq::empty()
    } else {
        let front = package_lines(listing.drop_last());
        let line = trimmed(listing.last());
        if line.len() > 0 && valid_identifier(native_name(line)) {
            front.push(native_name(line))
        } else {
            front
        }
    }
}

/// The packages that a listing with one name a line names.
pub open spec fn package_listing(stdout: Seq<char>) -> Seq<Seq<char>> {
    package_lines(lines_of(stdout))
}

/// Reads a listing of packages, one name a line.
pub fn parse_package_listing(stdout: &str) -> (packages: Vec<String>)
    ensures
        views(packages@) == package_listing(stdout@),
{
    let chars = chars_of(stdout);
    let listing = lines(chars.as_slice());
    let mut packages: Vec<String> = Vec::new();
    let ghost all = slices(listing@);
    assert(views(packages@) =~= package_lines(all.take(0)));
    for i in 0..listing.len()
        invariant
            all == slices(listing@),
            views(packages@) == package_lines(all.take(i as int)),
    {
        let ghost done = views(packages@);
        proof {
            assert(all.take(i + 1).drop_last() =~= all.take(i as int));
            assert(all.take(i + 1).last() == listing@[i as int]@);
        }
        let line = trim(listing[i]);
        if line.len() > 0 {
            let package = native_package(line);
            let letters = chars_of(package.as_str());
            if is_identifier(letters.as_slice()) {
                packages.push(package);
                assert(views(packages@) =~= done.push(package@));
            }
        }
    }
    assert(all.take(all.len() as int) =~= all);
    packages
}

} // verus!
