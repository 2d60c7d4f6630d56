//! What holds of the names of packages, and of what package managers print.

use vstd::prelude::*;

use crate::listings::{
    counted, field_of, owner_in, owner_lines, owner_listing, package_lines, package_listing, pacman_blocks,
    pacman_detail_map, pacman_details, single_owner, tab_detail_map, tab_details, tab_lines,
};
use crate::packages::{is_identifier_char, native_name, protected_package, trimming_is_idempotent, valid_identifier};
use crate::path::{path_of, Route};
use crate::sizes::{reported_size, SizeView};
use crate::text::{
    decimal_u64, fields, is_white_space, lines_of, lower, saturating_product, split_at_first, split_at_last, trimmed,
};
use crate::text_laws::{
    first_words_stand_between_white_space, separators_part_fields, single_separators_part,
    texts_are_parted_at_the_first_place, texts_are_parted_at_the_last_place,
};

verus! {

/// The name of a package is what stands before the first colon, without white space
/// around it; without a colon, all of it.
pub proof fn architectures_stand_behind_a_colon(front: Seq<char>, back: Seq<char>)
    requires
        !front.contains(':'),
    ensures
        native_name(front + seq![':'] + back) == trimmed(front),
        native_name(front) == trimmed(front),
{
    lemma_colon();
    single_separators_part(front, ':', back);
}

proof fn lemma_colon()
    ensures
        ":"@ == seq![':'],
{
    reveal_strlit(":");
    assert(":"@ =~= seq![':']);
}

/// The packages that are never offered for removal, whatever the case of their names and
/// whatever their architecture: those without which a system does not run, kernels and
/// their headers, firmware and microcode. No others are protected.
pub proof fn protected_packages_are_known_by_name(package: Seq<char>)
    ensures
        protected_package(package) <==> {
            let name = lower(native_name(package));
            ||| name == "apt"@
            ||| name == "base"@
            ||| name == "bash"@
            ||| name == "coreutils"@
            ||| name == "dnf"@
            ||| name == "dnf5"@
            ||| name == "filesystem"@
            ||| name == "glibc"@
            ||| name == "grub"@
            ||| name == "gdm"@
            ||| name == "gnome-shell"@
            ||| name == "kwin"@
            ||| name == "libc6"@
            ||| name == "lightdm"@
            ||| name == "lxsession"@
            ||| name == "networkmanager"@
            ||| name == "pacman"@
            ||| name == "plasma-desktop"@
            ||| name == "plasma-workspace"@
            ||| name == "polkit"@
            ||| name == "rpm"@
            ||| name == "sudo"@
            ||| name == "systemd"@
            ||| name == "xorg-server"@
            ||| "linux-image"@.is_prefix_of(name)
            ||| "linux-headers"@.is_prefix_of(name)
            ||| "-firmware"@.is_suffix_of(name)
            ||| "-ucode"@.is_suffix_of(name)
        },
{
}

/// Identifiers have one to 255 characters: letters and digits of ASCII, dots,
/// underscores, plus signs, colons, at signs, and hyphens but for the first place.
pub proof fn identifiers_are_plain(s: Seq<char>)
    ensures
        valid_identifier(s) <==> {
            &&& 1 <= s.len() <= 255
            &&& s[0] != '-'
            &&& forall|i: int|
                0 <= i < s.len() ==> {
                    let c = #[trigger] s[i];
                    ||| '0' <= c <= '9'
                    ||| 'A' <= c <= 'Z'
                    ||| 'a' <= c <= 'z'
                    ||| c == '.'
                    ||| c == '_'
                    ||| c == '+'
                    ||| c == ':'
                    ||| c == '@'
                    ||| c == '-'
                }
        },
{
    if valid_identifier(s) {
        assert forall|i: int| 0 <= i < s.len() implies {
            let c = #[trigger] s[i];
            ||| '0' <= c <= '9'
            ||| 'A' <= c <= 'Z'
            ||| 'a' <= c <= 'z'
            ||| c == '.'
            ||| c == '_'
            ||| c == '+'
            ||| c == ':'
            ||| c == '@'
            ||| c == '-'
        } by {
            assert(is_identifier_char(s[i]));
        }
    }
}

/// A listing names a package exactly where one of its lines does: the line, without what
/// stands behind a colon and without white space around, is the name, and an identifier.
pub proof fn listings_name_what_their_lines_name(stdout: Seq<char>, package: Seq<char>)
    ensures
        package_listing(stdout).contains(package) <==> exists|i: int|
            0 <= i < lines_of(stdout).len() && native_name(trimmed(#[trigger] lines_of(stdout)[i])) == package
                && valid_identifier(package),
{
    lemma_package_lines(lines_of(stdout), package);
}

proof fn lemma_package_lines(listing: Seq<Seq<char>>, package: Seq<char>)
    ensures
        package_lines(listing).contains(package) <==> exists|i: int|
            0 <= i < listing.len() && native_name(trimmed(#[trigger] listing[i])) == package && valid_identifier(
                package,
            ),
    decreases listing.len(),
{
    if listing.len() > 0 {
        let front = listing.drop_last();
        let last = listing.len() - 1;
        let (before, all) = (package_lines(front), package_lines(listing));
        lemma_package_lines(front, package);
        let line = trimmed(listing[last]);
        if line.len() == 0 {
            architectures_stand_behind_a_colon(line, Seq::empty());
            assert(trimmed(line).len() == 0);
        }
        if all.contains(package) {
            let k = choose|k: int| 0 <= k < all.len() && all[k] == package;
            if k < before.len() {
                assert(before[k] == package);
                let i = choose|i: int|
                    0 <= i < front.len() && native_name(trimmed(#[trigger] front[i])) == package && valid_identifier(
                        package,
                    );
                assert(listing[i] == front[i]);
            } else {
                assert(native_name(trimmed(listing[last])) == package);
            }
        }
        if exists|i: int|
            0 <= i < listing.len() && native_name(trimmed(#[trigger] listing[i])) == package && valid_identifier(
                package,
            ) {
            let i = choose|i: int|
                0 <= i < listing.len() && native_name(trimmed(#[trigger] listing[i])) == package && valid_identifier(
                    package,
                );
            if i < last {
                assert(front[i] == listing[i]);
                let k = choose|k: int| 0 <= k < before.len() && before[k] == package;
                assert(all[k] == package);
            } else {
                assert(all[all.len() - 1] == package);
            }
        }
    }
}

/// The owner of a file is what the last line that names the file says; a file that no
/// line names has none.
pub proof fn last_lines_name_the_owner(stdout: Seq<char>, pacman: bool, file: Route, i: int)
    requires
        0 <= i < lines_of(stdout).len(),
        forall|j: int|
            i < j < lines_of(stdout).len() ==> match owner_in(#[trigger] lines_of(stdout)[j], pacman) {
                Some((other, _)) => other != file,
                None => true,
            },
    ensures
        match owner_in(lines_of(stdout)[i], pacman) {
            Some((named, package)) => named == file ==> owner_listing(stdout, pacman).contains_key(file)
                && owner_listing(stdout, pacman)[file] == package,
            None => true,
        },
{
    lemma_owner_lines(lines_of(stdout), pacman, file, i);
}

proof fn lemma_owner_lines(listing: Seq<Seq<char>>, pacman: bool, file: Route, i: int)
    requires
        0 <= i < listing.len(),
        forall|j: int|
            i < j < listing.len() ==> match owner_in(#[trigger] listing[j], pacman) {
                Some((other, _)) => other != file,
                None => true,
            },
    ensures
        match owner_in(listing[i], pacman) {
            Some((named, package)) => named == file ==> owner_lines(listing, pacman).contains_key(file) && owner_lines(
                listing,
                pacman,
            )[file] == package,
            None => true,
        },
    decreases listing.len(),
{
    let last = listing.len() - 1;
    if i < last {
        let front = listing.drop_last();
        assert forall|j: int| i < j < front.len() implies match owner_in(#[trigger] front[j], pacman) {
            Some((other, _)) => other != file,
            None => true,
        } by {
            assert(front[j] == listing[j]);
        }
        lemma_owner_lines(front, pacman, file, i);
        assert(front[i] == listing[i]);
        let line = listing[last];
        assert(match owner_in(line, pacman) {
            Some((other, _)) => other != file,
            None => true,
        });
    }
}

/// A file has an owner only where a line names it.
pub proof fn owners_are_named_by_lines(stdout: Seq<char>, pacman: bool, file: Route)
    requires
        owner_listing(stdout, pacman).contains_key(file),
    ensures
        exists|i: int|
            0 <= i < lines_of(stdout).len() && owner_in(#[trigger] lines_of(stdout)[i], pacman) == Some(
                (file, owner_listing(stdout, pacman)[file]),
            ),
{
    lemma_named(lines_of(stdout), pacman, file);
}

proof fn lemma_named(listing: Seq<Seq<char>>, pacman: bool, file: Route)
    requires
        owner_lines(listing, pacman).contains_key(file),
    ensures
        exists|i: int|
            0 <= i < listing.len() && owner_in(#[trigger] listing[i], pacman) == Some(
                (file, owner_lines(listing, pacman)[file]),
            ),
    decreases listing.len(),
{
    if listing.len() > 0 {
        let front = listing.drop_last();
        let last = listing.len() - 1;
        let here = match owner_in(listing[last], pacman) {
            Some((named, _)) => named == file,
            None => false,
        };
        if !here {
            lemma_named(front, pacman, file);
            let i = choose|i: int|
                0 <= i < front.len() && owner_in(#[trigger] front[i], pacman) == Some(
                    (file, owner_lines(front, pacman)[file]),
                );
            assert(listing[i] == front[i]);
        }
    }
}

/// In a line of `pacman -Qo`, the file stands before the first ` is owned by `, and the
/// package is the first word behind it, without its architecture, where that is an
/// identifier.
pub proof fn pacman_names_the_owner_behind_the_file(file: Seq<char>, blank: Seq<char>, word: Seq<char>, rest: Seq<char>)
    requires
        forall|front: Seq<char>, back: Seq<char>|
            file + " is owned by "@ + (blank + word + rest) == #[trigger] (front + " is owned by "@ + back)
                ==> front.len() >= file.len(),
        forall|i: int| 0 <= i < blank.len() ==> is_white_space(#[trigger] blank[i]),
        forall|i: int| 0 <= i < word.len() ==> !is_white_space(#[trigger] word[i]),
        word.len() > 0,
        rest.len() > 0 ==> is_white_space(rest[0]),
    ensures
        owner_in(file + " is owned by "@ + (blank + word + rest), true) == if valid_identifier(native_name(word)) {
            Some((path_of(file).route(), native_name(word)))
        } else {
            None
        },
{
    let mark = " is owned by "@;
    let tail = blank + word + rest;
    let line = file + mark + tail;
    texts_are_parted_at_the_first_place(line, mark, file, tail);
    let (before, behind) = split_at_first(line, mark)->0;
    assert(line == before + mark + behind);
    assert(before.len() == file.len());
    assert(before =~= line.take(before.len() as int));
    assert(file =~= line.take(file.len() as int));
    assert(behind =~= line.skip((before.len() + mark.len()) as int));
    assert(tail =~= line.skip((file.len() + mark.len()) as int));
    first_words_stand_between_white_space(blank, word, rest);
}

/// A line that does not say so names no owner, and what it names is an identifier.
pub proof fn owners_are_identifiers(line: Seq<char>, pacman: bool)
    ensures
        match owner_in(line, pacman) {
            Some((_, package)) => valid_identifier(package),
            None => true,
        },
        owner_in(line, true) is Some ==> split_at_first(line, " is owned by "@) is Some,
        owner_in(line, false) is Some ==> split_at_last(line, ": "@) is Some,
{
}

/// In a line of `dpkg-query -S`, the file stands behind the last colon that a space
/// follows, and the package before it, where that is an identifier.
pub proof fn dpkg_names_the_owner_before_the_file(name: Seq<char>, file: Seq<char>)
    requires
        forall|front: Seq<char>, back: Seq<char>|
            name + ": "@ + file == #[trigger] (front + ": "@ + back) ==> front.len() <= name.len(),
    ensures
        owner_in(name + ": "@ + file, false) == if valid_identifier(native_name(name)) {
            Some((path_of(file).route(), native_name(name)))
        } else {
            None
        },
{
    let mark = ": "@;
    let line = name + mark + file;
    texts_are_parted_at_the_last_place(line, mark, name, file);
    let (before, behind) = split_at_last(line, mark)->0;
    assert(line == before + mark + behind);
    assert(before.len() == name.len());
    assert(before =~= line.take(before.len() as int));
    assert(name =~= line.take(name.len() as int));
    assert(behind =~= line.skip((before.len() + mark.len()) as int));
    assert(file =~= line.skip((name.len() + mark.len()) as int));
}

/// The owner of one file is what the first line of the answer says: the package, or for
/// `dpkg-query` what stands before the first colon; without white space around it, and
/// only where it is an identifier. An empty answer says nothing.
pub proof fn first_lines_name_the_owner(stdout: Seq<char>, front: Seq<char>, back: Seq<char>)
    requires
        lines_of(stdout).len() > 0 ==> !front.contains(':') && (lines_of(stdout)[0] == front + seq![':'] + back
            || lines_of(stdout)[0] == front),
    ensures
        lines_of(stdout).len() == 0 ==> single_owner(stdout, true) is None && single_owner(stdout, false) is None,
        lines_of(stdout).len() > 0 && lines_of(stdout)[0] == front + seq![':'] + back ==> single_owner(stdout, true)
            == if valid_identifier(trimmed(front)) {
            Some(trimmed(front))
        } else {
            None
        },
        lines_of(stdout).len() > 0 && lines_of(stdout)[0] == front ==> single_owner(stdout, true) is None,
        lines_of(stdout).len() > 0 ==> single_owner(stdout, false) == if valid_identifier(
            native_name(trimmed(lines_of(stdout)[0])),
        ) {
            Some(native_name(trimmed(lines_of(stdout)[0])))
        } else {
            None
        },
{
    lemma_colon();
    if lines_of(stdout).len() > 0 {
        single_separators_part(front, ':', back);
        let name = trimmed(front);
        assert(!name.contains(':')) by {
            let (a, b) = crate::packages::lemma_trimmed_part(front);
            if name.contains(':') {
                let i = choose|i: int| 0 <= i < name.len() && name[i] == ':';
                assert(front[a + i] == ':');
            }
        }
        architectures_stand_behind_a_colon(name, Seq::empty());
        trimming_is_idempotent(front);
    }
}

/// Where lines give a key a value, the last one counts: a line gives what stands before
/// its first colon what stands behind it, each without white space around it.
pub proof fn last_lines_give_the_value(
    block: Seq<Seq<char>>,
    key: Seq<char>,
    i: int,
    name: Seq<char>,
    value: Seq<char>,
)
    requires
        0 <= i < block.len(),
        block[i] == name + seq![':'] + value,
        !name.contains(':'),
        trimmed(name) == key,
        forall|j: int, other: Seq<char>, rest: Seq<char>|
            #![trigger block[j], other + seq![':'] + rest]
            i < j < block.len() && block[j] == other + seq![':'] + rest && !other.contains(':') ==> trimmed(other)
                != key,
    ensures
        field_of(block, key) == Some(trimmed(value)),
    decreases block.len(),
{
    lemma_colon();
    let last = block.len() - 1;
    if i == last {
        single_separators_part(name, ':', value);
    } else {
        let front = block.drop_last();
        lemma_gives_nothing(block, key, last);
        assert forall|j: int, other: Seq<char>, rest: Seq<char>|
            #![trigger front[j], other + seq![':'] + rest]
            i < j < front.len() && front[j] == other + seq![':'] + rest && !other.contains(':') implies trimmed(other)
            != key by {
            assert(front[j] == block[j]);
        }
        last_lines_give_the_value(front, key, i, name, value);
    }
}

proof fn lemma_gives_nothing(block: Seq<Seq<char>>, key: Seq<char>, j: int)
    requires
        0 <= j < block.len(),
        forall|other: Seq<char>, rest: Seq<char>|
            block[j] == #[trigger] (other + seq![':'] + rest) && !other.contains(':') ==> trimmed(other) != key,
    ensures
        match split_at_first(block[j], ":"@) {
            Some((name, _)) => trimmed(name) != key,
            None => true,
        },
{
    lemma_colon();
    if let Some((name, value)) = split_at_first(block[j], ":"@) {
        texts_are_parted_at_the_first_place(block[j], ":"@, name, value);
        if name.contains(':') {
            let k = choose|k: int| 0 <= k < name.len() && name[k] == ':';
            let line = block[j];
            assert(line =~= line.take(k) + seq![':'] + line.skip(k + 1));
            texts_are_parted_at_the_first_place(line, ":"@, line.take(k), line.skip(k + 1));
        }
        assert(block[j] == name + seq![':'] + value);
    }
}

/// A key that no line gives a value has none.
pub proof fn keys_without_a_line_have_no_value(block: Seq<Seq<char>>, key: Seq<char>)
    requires
        forall|j: int, other: Seq<char>, rest: Seq<char>|
            #![trigger block[j], other + seq![':'] + rest]
            0 <= j < block.len() && block[j] == other + seq![':'] + rest && !other.contains(':') ==> trimmed(other)
                != key,
    ensures
        field_of(block, key) is None,
    decreases block.len(),
{
    if block.len() > 0 {
        let front = block.drop_last();
        lemma_gives_nothing(block, key, block.len() - 1);
        assert forall|j: int, other: Seq<char>, rest: Seq<char>|
            #![trigger front[j], other + seq![':'] + rest]
            0 <= j < front.len() && front[j] == other + seq![':'] + rest && !other.contains(':') implies trimmed(other)
            != key by {
            assert(front[j] == block[j]);
        }
        keys_without_a_line_have_no_value(front, key);
    }
}

/// `pacman -Qi` gives the version under `Version` and the size under `Installed Size`;
/// without them, the version is not known, and the size is nothing.
pub proof fn pacman_gives_version_and_size(stdout: Seq<char>)
    ensures
        pacman_details(stdout).0 == match field_of(lines_of(stdout), "Version"@) {
            Some(version) => version,
            None => "unknown"@,
        },
        pacman_details(stdout).1 == match field_of(lines_of(stdout), "Installed Size"@) {
            Some(size) => reported_size(size),
            None => SizeView::Bytes(0),
        },
{
}

/// `pacman -Qi` tells of several packages in blocks with an empty line between them. The
/// last block that bears the name of a package tells of it.
pub proof fn pacman_tells_of_packages_in_blocks(stdout: Seq<char>, package: Seq<char>)
    ensures
        ({
            let blocks = fields(stdout, "\n\n"@);
            let known = pacman_detail_map(stdout);
            &&& known.contains_key(package) <==> exists|i: int|
                0 <= i < blocks.len() && field_of(lines_of(#[trigger] blocks[i]), "Name"@) == Some(package)
            &&& forall|i: int|
                #![trigger blocks[i]]
                0 <= i < blocks.len() && field_of(lines_of(blocks[i]), "Name"@) == Some(package) && (forall|j: int|
                    i < j < blocks.len() ==> field_of(lines_of(#[trigger] blocks[j]), "Name"@) != Some(package))
                    ==> known[package] == pacman_details(blocks[i])
        }),
{
    let blocks = fields(stdout, "\n\n"@);
    lemma_blocks(blocks, package);
    if exists|i: int| 0 <= i < blocks.len() && bears(#[trigger] blocks[i], package) {
        let i = choose|i: int| 0 <= i < blocks.len() && bears(#[trigger] blocks[i], package);
        assert(field_of(lines_of(blocks[i]), "Name"@) == Some(package));
    }
    assert forall|i: int|
        #![trigger blocks[i]]
        0 <= i < blocks.len() && field_of(lines_of(blocks[i]), "Name"@) == Some(package) && (forall|j: int|
            i < j < blocks.len() ==> field_of(lines_of(#[trigger] blocks[j]), "Name"@) != Some(package))
        implies pacman_detail_map(stdout)[package] == pacman_details(blocks[i]) by {
        assert forall|j: int| i < j < blocks.len() implies !bears(#[trigger] blocks[j], package) by {
            assert(field_of(lines_of(blocks[j]), "Name"@) != Some(package));
        }
        lemma_last_block(blocks, package, i);
    }
}

spec fn bears(block: Seq<char>, package: Seq<char>) -> bool {
    field_of(lines_of(block), "Name"@) == Some(package)
}

proof fn lemma_blocks(blocks: Seq<Seq<char>>, package: Seq<char>)
    ensures
        pacman_blocks(blocks).contains_key(package) <==> exists|i: int|
            0 <= i < blocks.len() && bears(#[trigger] blocks[i], package),
    decreases blocks.len(),
{
    if blocks.len() > 0 {
        let front = blocks.drop_last();
        let last = blocks.len() - 1;
        lemma_blocks(front, package);
        let here = bears(blocks[last], package);
        if !here && pacman_blocks(front).contains_key(package) {
            let i = choose|i: int| 0 <= i < front.len() && bears(#[trigger] front[i], package);
            assert(blocks[i] == front[i]);
        }
        if !here && exists|i: int| 0 <= i < blocks.len() && bears(#[trigger] blocks[i], package) {
            let i = choose|i: int| 0 <= i < blocks.len() && bears(#[trigger] blocks[i], package);
            assert(front[i] == blocks[i]);
        }
    }
}

proof fn lemma_last_block(blocks: Seq<Seq<char>>, package: Seq<char>, i: int)
    requires
        0 <= i < blocks.len(),
        bears(blocks[i], package),
        forall|j: int| i < j < blocks.len() ==> !bears(#[trigger] blocks[j], package),
    ensures
        pacman_blocks(blocks)[package] == pacman_details(blocks[i]),
    decreases blocks.len(),
{
    let last = blocks.len() - 1;
    if i < last {
        let front = blocks.drop_last();
        assert(!bears(blocks[last], package));
        assert(front[i] == blocks[i]);
        assert forall|j: int| i < j < front.len() implies !bears(#[trigger] front[j], package) by {
            assert(front[j] == blocks[j]);
        }
        lemma_last_block(front, package, i);
    }
}

/// `dpkg-query` and `rpm` tell of one package in a line: the version, a tab, and the size
/// in units of so many bytes, which is nothing where it is no number.
pub proof fn tabs_part_version_and_size(stdout: Seq<char>, version: Seq<char>, size: Seq<char>, unit: u64)
    requires
        !version.contains('\t'),
        !size.contains('\t'),
    ensures
        trimmed(stdout) == version + seq!['\t'] + size ==> tab_details(stdout, unit) == (
            trimmed(version),
            SizeView::Bytes(
                saturating_product(
                    match decimal_u64(trimmed(size)) {
                        Some(number) => number,
                        None => 0,
                    },
                    unit,
                ),
            ),
        ),
        trimmed(stdout) == version ==> tab_details(stdout, unit) == (trimmed(version), SizeView::Bytes(0)),
{
    reveal_strlit("\t");
    assert("\t"@ =~= seq!['\t']);
    separators_part_fields(version, '\t', size);
    separators_part_fields(size, '\t', Seq::empty());
    assert(0 * unit == 0);
}

/// Of several packages they tell in lines: the name, the version and the size, with tabs
/// between them. The last line that bears the name of a package tells of it; the name
/// goes without its architecture.
pub proof fn last_lines_tell_of_a_package(stdout: Seq<char>, unit: u64, package: Seq<char>)
    ensures
        ({
            let listing = lines_of(stdout);
            let known = tab_detail_map(stdout, unit);
            &&& known.contains_key(package) <==> exists|i: int|
                0 <= i < listing.len() && fields(#[trigger] listing[i], "\t"@).len() >= 2 && native_name(
                    fields(listing[i], "\t"@)[0],
                ) == package
            &&& forall|i: int|
                #![trigger listing[i]]
                0 <= i < listing.len() && fields(listing[i], "\t"@).len() >= 2 && native_name(
                    fields(listing[i], "\t"@)[0],
                ) == package && (forall|j: int|
                    i < j < listing.len() ==> fields(#[trigger] listing[j], "\t"@).len() < 2 || native_name(
                        fields(listing[j], "\t"@)[0],
                    ) != package) ==> known[package] == (
                    trimmed(fields(listing[i], "\t"@)[1]),
                    SizeView::Bytes(
                        saturating_product(
                            if fields(listing[i], "\t"@).len() < 3 {
                                0
                            } else {
                                match decimal_u64(trimmed(fields(listing[i], "\t"@)[2])) {
                                    Some(number) => number,
                                    None => 0,
                                }
                            },
                            unit,
                        ),
                    ),
                )
        }),
{
    let listing = lines_of(stdout);
    lemma_tab_lines(listing, unit, package);
    if exists|i: int| 0 <= i < listing.len() && tells(#[trigger] listing[i], package) {
        let i = choose|i: int| 0 <= i < listing.len() && tells(#[trigger] listing[i], package);
        assert(fields(listing[i], "\t"@).len() >= 2);
    }
    assert forall|i: int|
        #![trigger listing[i]]
        0 <= i < listing.len() && tells(listing[i], package) && (forall|j: int|
            i < j < listing.len() ==> fields(#[trigger] listing[j], "\t"@).len() < 2 || native_name(
                fields(listing[j], "\t"@)[0],
            ) != package) implies tab_detail_map(stdout, unit)[package] == (
        trimmed(fields(listing[i], "\t"@)[1]),
        counted(fields(listing[i], "\t"@), 2, unit),
    ) by {
        assert forall|j: int| i < j < listing.len() implies !tells(#[trigger] listing[j], package) by {
            assert(fields(listing[j], "\t"@).len() < 2 || native_name(fields(listing[j], "\t"@)[0]) != package);
        }
        lemma_last_tab_line(listing, unit, package, i);
    }
}

spec fn tells(line: Seq<char>, package: Seq<char>) -> bool {
    fields(line, "\t"@).len() >= 2 && native_name(fields(line, "\t"@)[0]) == package
}

proof fn lemma_tab_lines(listing: Seq<Seq<char>>, unit: u64, package: Seq<char>)
    ensures
        tab_lines(listing, unit).contains_key(package) <==> exists|i: int|
            0 <= i < listing.len() && tells(#[trigger] listing[i], package),
    decreases listing.len(),
{
    if listing.len() > 0 {
        let front = listing.drop_last();
        let last = listing.len() - 1;
        lemma_tab_lines(front, unit, package);
        let here = tells(listing[last], package);
        if !here && tab_lines(front, unit).contains_key(package) {
            let i = choose|i: int| 0 <= i < front.len() && tells(#[trigger] front[i], package);
            assert(listing[i] == front[i]);
        }
        if !here && exists|i: int| 0 <= i < listing.len() && tells(#[trigger] listing[i], package) {
            let i = choose|i: int| 0 <= i < listing.len() && tells(#[trigger] listing[i], package);
            assert(front[i] == listing[i]);
        }
    }
}

proof fn lemma_last_tab_line(listing: Seq<Seq<char>>, unit: u64, package: Seq<char>, i: int)
    requires
        0 <= i < listing.len(),
        tells(listing[i], package),
        forall|j: int| i < j < listing.len() ==> !tells(#[trigger] listing[j], package),
    ensures
        tab_lines(listing, unit)[package] == (
            trimmed(fields(listing[i], "\t"@)[1]),
            counted(fields(listing[i], "\t"@), 2, unit),
        ),
    decreases listing.len(),
{
    let last = listing.len() - 1;
    if i < last {
        let front = listing.drop_last();
        assert(!tells(listing[last], package));
        assert(front[i] == listing[i]);
        assert forall|j: int| i < j < front.len() implies !tells(#[trigger] front[j], package) by {
            assert(front[j] == listing[j]);
        }
        lemma_last_tab_line(front, unit, package, i);
    }
}

} // verus!
