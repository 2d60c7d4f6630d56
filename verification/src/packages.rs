//! Names of packages: which are well formed, which are written for the same
//! package, and which belong to the system and stay.

use vstd::prelude::*;

use crate::text::{
    chars_of, ends_with, find, find_from, find_is_first, is_white_space, lower, lower_char, matches_at, same_text,
    split_at_first, split_once, starts_with, string_of, to_lower, trim, trim_end, trim_start, trimmed,
};

verus! {

/// The characters that package and application identifiers are made of.
pub open spec fn is_identifier_char(c: char) -> bool {
    ||| '0' <= c <= '9'
    ||| 'a' <= c <= 'z'
    ||| 'A' <= c <= 'Z'
    ||| c == '.'
    ||| c == '_'
    ||| c == '+'
    ||| c == ':'
    ||| c == '@'
    ||| c == '-'
}

/// Identifiers: one to 255 of these characters, not starting with a hyphen.
pub open spec fn valid_identifier(s: Seq<char>) -> bool {
    &&& 0 < s.len() <= 255
    &&& s[0] != '-'
    &&& forall|i: int| 0 <= i < s.len() ==> is_identifier_char(#[trigger] s[i])
}

/// Whether `value` can name a package or an application, and cannot be taken
/// for a command line option.
pub fn is_valid_identifier(value: &str) -> (yes: bool)
    ensures
        yes == valid_identifier(value@),
{
    let chars = chars_of(value);
    is_identifier(chars.as_slice())
}

/// Whether the characters make an identifier.
pub fn is_identifier(chars: &[char]) -> (yes: bool)
    ensures
        yes == valid_identifier(chars@),
{
    if chars.len() == 0 || chars.len() > 255 || chars[0] == '-' {
        return false;
    }
    for i in 0..chars.len()
        invariant
            forall|j: int| 0 <= j < i ==> is_identifier_char(#[trigger] chars@[j]),
    {
        let c = chars[i];
        let letter = ('0' <= c && c <= '9') || ('a' <= c && c <= 'z') || ('A' <= c && c <= 'Z');
        let mark = c == '.' || c == '_' || c == '+' || c == ':' || c == '@' || c == '-';
        if !letter && !mark {
            assert(!is_identifier_char(chars@[i as int]));
            return false;
        }
    }
    true
}

/// The name of a package without its architecture: what stands before the first
/// colon, trimmed.
pub open spec fn native_name(s: Seq<char>) -> Seq<char> {
    match split_at_first(s, ":"@) {
        Some((front, _)) => trimmed(front),
        None => trimmed(s),
    }
}

/// The name of a package without its architecture.
pub fn native_package(value: &[char]) -> (name: String)
    ensures
        name@ == native_name(value@),
{
    let front = match split_once(value, ":") {
        Some((front, _)) => front,
        None => value,
    };
    string_of(trim(front))
}

/// The name of a package without its architecture.
pub fn normalize_native_package(value: &str) -> (name: String)
    ensures
        name@ == native_name(value@),
{
    let chars = chars_of(value);
    native_package(chars.as_slice())
}

/// The packages without which a system does not run, and their families.
pub open spec fn system_package(name: Seq<char>) -> bool {
    ||| name == "apt"@
    ||| name == "base"@
    ||| name == "bash"@
    ||| name == "coreutils"@
    ||| name == "dnf"@
    ||| name == "dnf5"@
    ||| name == "filesystem"@
    ||| name == "glibc"@
    ||| name == "grub"@
    ||| name == "gdm"@
    ||| name == "gnome-shell"@
    ||| name == "kwin"@
    ||| name == "libc6"@
    ||| name == "lightdm"@
    ||| name == "lxsession"@
    ||| name == "networkmanager"@
    ||| name == "pacman"@
    ||| name == "plasma-desktop"@
    ||| name == "plasma-workspace"@
    ||| name == "polkit"@
    ||| name == "rpm"@
    ||| name == "sudo"@
    ||| name == "systemd"@
    ||| name == "xorg-server"@
    ||| "linux-image"@.is_prefix_of(name)
    ||| "linux-headers"@.is_prefix_of(name)
    ||| "-firmware"@.is_suffix_of(name)
    ||| "-ucode"@.is_suffix_of(name)
}

/// A package is protected whatever its architecture and the case of its name.
pub open spec fn protected_package(package: Seq<char>) -> bool {
    system_package(lower(native_name(package)))
}

/// Whether `package` belongs to the system and must not be removed.
pub fn is_protected_package(package: &str) -> (yes: bool)
    ensures
        yes == protected_package(package@),
{
    let name = normalize_native_package(package);
    let chars = chars_of(name.as_str());
    let lowered = to_lower(chars.as_slice());
    let n = lowered.as_slice();
    same_text(n, "apt") || same_text(n, "base") || same_text(n, "bash") || same_text(n, "coreutils") || same_text(
        n,
        "dnf",
    ) || same_text(n, "dnf5") || same_text(n, "filesystem") || same_text(n, "glibc") || same_text(n, "grub")
        || same_text(n, "gdm") || same_text(n, "gnome-shell") || same_text(n, "kwin") || same_text(n, "libc6")
        || same_text(n, "lightdm") || same_text(n, "lxsession") || same_text(n, "networkmanager") || same_text(
        n,
        "pacman",
    ) || same_text(n, "plasma-desktop") || same_text(n, "plasma-workspace") || same_text(n, "polkit") || same_text(
        n,
        "rpm",
    ) || same_text(n, "sudo") || same_text(n, "systemd") || same_text(n, "xorg-server") || starts_with(
        n,
        "linux-image",
    ) || starts_with(n, "linux-headers") || ends_with(n, "-firmware") || ends_with(n, "-ucode")
}

proof fn lemma_trim_start_part(s: Seq<char>) -> (k: int)
    ensures
        0 <= k <= s.len(),
        trim_start(s) == s.skip(k),
        k < s.len() ==> !is_white_space(s[k]),
    decreases s.len(),
{
    if s.len() > 0 && is_white_space(s[0]) {
        let k = lemma_trim_start_part(s.drop_first());
        assert(s.drop_first().skip(k) =~= s.skip(k + 1));
        k + 1
    } else {
        assert(s.skip(0) =~= s);
        0
    }
}

proof fn lemma_trim_end_part(s: Seq<char>) -> (k: int)
    ensures
        0 <= k <= s.len(),
        trim_end(s) == s.take(k),
        k > 0 ==> !is_white_space(s[k - 1]),
    decreases s.len(),
{
    if s.len() > 0 && is_white_space(s.last()) {
        let k = lemma_trim_end_part(s.drop_last());
        assert(s.drop_last().take(k) =~= s.take(k));
        k
    } else {
        assert(s.take(s.len() as int) =~= s);
        s.len() as int
    }
}

/// A trimmed text is a part of it.
pub proof fn lemma_trimmed_part(s: Seq<char>) -> (range: (int, int))
    ensures
        0 <= range.0 <= range.1 <= s.len(),
        trimmed(s) == s.subrange(range.0, range.1),
        range.0 < range.1 ==> !is_white_space(s[range.0]) && !is_white_space(s[range.1 - 1]),
{
    let a = lemma_trim_start_part(s);
    let k = lemma_trim_end_part(s.skip(a));
    assert(s.skip(a).take(k) =~= s.subrange(a, a + k));
    if k > 0 {
        assert(s.skip(a)[k - 1] == s[a + k - 1]);
    }
    (a, a + k)
}

/// Trimming a text twice is trimming it once.
pub proof fn trimming_is_idempotent(s: Seq<char>)
    ensures
        trimmed(trimmed(s)) == trimmed(s),
{
    let (a, b) = lemma_trimmed_part(s);
    let t = trimmed(s);
    if a < b {
        assert(t[0] == s[a]);
        assert(t.last() == s[b - 1]);
        assert(trim_start(t) == t);
        assert(trim_end(t) == t);
    } else {
        assert(t.len() == 0);
    }
}

proof fn lemma_native_name_part(s: Seq<char>) -> (range: (int, int))
    ensures
        0 <= range.0 <= range.1 <= s.len(),
        native_name(s) == s.subrange(range.0, range.1),
        forall|i: int| 0 <= i < native_name(s).len() ==> native_name(s)[i] != ':',
        trimmed(native_name(s)) == native_name(s),
{
    reveal_strlit(":");
    find_is_first(s, ":"@, 0);
    let front = match split_at_first(s, ":"@) {
        Some((front, _)) => front,
        None => s,
    };
    let (a, b) = lemma_trimmed_part(front);
    trimming_is_idempotent(front);
    assert(native_name(s) =~= s.subrange(a, b));
    assert forall|i: int| 0 <= i < native_name(s).len() implies native_name(s)[i] != ':' by {
        if s[a + i] == ':' {
            assert(s.subrange(a + i, a + i + 1) =~= ":"@);
            assert(matches_at(s, ":"@, a + i));
        }
    }
    (a, b)
}

/// Naming a package without its architecture twice is doing it once.
pub proof fn normalizing_is_idempotent(s: Seq<char>)
    ensures
        native_name(native_name(s)) == native_name(s),
{
    let n = native_name(s);
    let (a, b) = lemma_native_name_part(s);
    reveal_strlit(":");
    find_is_first(n, ":"@, 0);
    if let Some(i) = find(n, ":"@) {
        assert(n.subrange(i, i + 1)[0] == n[i]);
        assert(n.subrange(i, i + 1)[0] == ':');
    }
}

proof fn lemma_lower_char_space(c: char)
    ensures
        is_white_space(lower_char(c)) == is_white_space(c),
        lower_char(c) == ':' <==> c == ':',
        lower_char(lower_char(c)) == lower_char(c),
{
}

proof fn lemma_lower_trim(s: Seq<char>)
    ensures
        trimmed(lower(s)) == lower(trimmed(s)),
{
    lemma_lower_trim_start(s);
    lemma_lower_trim_end(trim_start(s));
}

proof fn lemma_lower_trim_start(s: Seq<char>)
    ensures
        trim_start(lower(s)) == lower(trim_start(s)),
    decreases s.len(),
{
    if s.len() > 0 {
        lemma_lower_char_space(s[0]);
        assert(lower(s).drop_first() =~= lower(s.drop_first()));
        lemma_lower_trim_start(s.drop_first());
    }
}

proof fn lemma_lower_trim_end(s: Seq<char>)
    ensures
        trim_end(lower(s)) == lower(trim_end(s)),
    decreases s.len(),
{
    if s.len() > 0 {
        lemma_lower_char_space(s.last());
        assert(lower(s).drop_last() =~= lower(s.drop_last()));
        lemma_lower_trim_end(s.drop_last());
    }
}

proof fn lemma_lower_find(s: Seq<char>, i: int)
    requires
        0 <= i,
    ensures
        find_from(lower(s), ":"@, i) == find_from(s, ":"@, i),
    decreases s.len() - i + 1,
{
    reveal_strlit(":");
    if i + 1 <= s.len() {
        lemma_lower_char_space(s[i]);
        assert(matches_at(lower(s), ":"@, i) == matches_at(s, ":"@, i)) by {
            if s[i] == ':' {
                assert(s.subrange(i, i + 1) =~= ":"@);
                assert(lower(s).subrange(i, i + 1) =~= ":"@);
            } else {
                assert(s.subrange(i, i + 1)[0] == s[i]);
                assert(lower(s).subrange(i, i + 1)[0] == lower_char(s[i]));
            }
        }
        lemma_lower_find(s, i + 1);
    }
}

proof fn lemma_lower_native_name(s: Seq<char>)
    ensures
        native_name(lower(s)) == lower(native_name(s)),
{
    lemma_lower_find(s, 0);
    find_is_first(s, ":"@, 0);
    match find(s, ":"@) {
        Some(i) => {
            assert(lower(s).take(i) =~= lower(s.take(i)));
            lemma_lower_trim(s.take(i));
        },
        None => {
            lemma_lower_trim(s);
        },
    }
}

/// Protection does not depend on the case of letters, nor on white space or an
/// architecture around the name.
pub proof fn protection_ignores_case_and_architecture(package: Seq<char>)
    ensures
        protected_package(lower(package)) == protected_package(package),
        protected_package(native_name(package)) == protected_package(package),
{
    lemma_lower_native_name(package);
    let n = native_name(package);
    assert(lower(lower(n)) =~= lower(n)) by {
        assert forall|i: int| 0 <= i < n.len() implies lower_char(lower_char(n[i])) == lower_char(n[i]) by {
            lemma_lower_char_space(n[i]);
        }
    }
    normalizing_is_idempotent(package);
}

} // verus!
