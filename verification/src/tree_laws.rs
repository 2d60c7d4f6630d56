//! What walks bring home, entry by entry: a list of all that lies below a directory,
//! each once, and the sums over that list.

use vstd::prelude::*;
use vstd::utf8::encode_utf8;

use crate::large_laws::{proper_listing, proper_tree};
use crate::path::{entries_have_one_more_component, entry_name, PathView, Route};
use crate::walk::{
    file_harvest, harvest_dir, harvest_entries, large_file, skipped_name, EntryKind, EntryView, Harvest, LargeFileView,
    Tree, WalkRulesView,
};
use crate::walk_laws::lemma_plus;

verus! {

/// An entry below a directory: the names that lead to it, one directory after the
/// other, and what it is.
#[verifier::ext_equal]
pub struct Reached {
    pub names: Seq<Seq<u8>>,
    pub kind: EntryKind,
}

/// The path that names lead to from `dir`.
pub open spec fn below(dir: PathView, names: Seq<Seq<u8>>) -> PathView
    decreases names.len(),
{
    if names.len() == 0 {
        dir
    } else {
        below(dir, names.drop_last()).child(names.last())
    }
}

/// Whether an entry lies below `dir`, at whatever depth: each of its names is that of
/// an entry in the directory that the names before lead to, a directory itself, and no
/// link to one, but for the last.
pub open spec fn lies_below(tree: Tree, dir: PathView, entry: Reached) -> bool {
    &&& entry.names.len() > 0
    &&& forall|k: int|
        0 <= k < entry.names.len() ==> {
            let holder = below(dir, entry.names.take(k));
            tree.contains_key(holder) && tree[holder].contains(
                EntryView {
                    name: #[trigger] entry.names[k],
                    kind: if k < entry.names.len() - 1 {
                        EntryKind::Directory
                    } else {
                        entry.kind
                    },
                },
            )
        }
}

/// The sum over a list of entries.
pub open spec fn sum_over(found: Seq<Reached>, weight: spec_fn(Reached) -> nat) -> nat
    decreases found.len(),
{
    if found.len() == 0 {
        0
    } else {
        sum_over(found.drop_last(), weight) + weight(found.last())
    }
}

/// Whether a walk that skips what its name tells to skip comes by an entry.
spec fn clean(skip: bool, names: Seq<Seq<u8>>) -> bool {
    skip ==> forall|k: int| 0 <= k < names.len() ==> !skipped_name(#[trigger] names[k])
}

spec fn led_by(name: Seq<u8>, entry: Reached) -> Reached {
    Reached { names: seq![name] + entry.names, kind: entry.kind }
}

spec fn all_led_by(name: Seq<u8>, found: Seq<Reached>) -> Seq<Reached> {
    Seq::new(found.len(), |i: int| led_by(name, found[i]))
}

/// What a walk with these rules comes by in `dir`, and below it.
spec fn come_by(tree: Tree, rules: WalkRulesView, dir: PathView, depth: nat) -> Seq<Reached>
    decreases rules.max_depth + 1 - depth, 2int, 0nat,
{
    if depth > rules.max_depth || !tree.contains_key(dir) {
        Seq::empty()
    } else {
        come_by_in(tree, rules, dir, depth, tree[dir])
    }
}

spec fn come_by_in(tree: Tree, rules: WalkRulesView, dir: PathView, depth: nat, entries: Seq<EntryView>) -> Seq<Reached>
    decreases rules.max_depth + 1 - depth, 1int, entries.len(),
{
    if entries.len() == 0 {
        Seq::empty()
    } else {
        come_by_in(tree, rules, dir, depth, entries.drop_last()) + come_by_at(tree, rules, dir, depth, entries.last())
    }
}

spec fn come_by_at(tree: Tree, rules: WalkRulesView, dir: PathView, depth: nat, entry: EntryView) -> Seq<Reached>
    decreases rules.max_depth + 1 - depth, 0int, 0nat,
{
    if rules.skip_known && skipped_name(entry.name) {
        Seq::empty()
    } else {
        seq![Reached { names: seq![entry.name], kind: entry.kind }] + if entry.kind is Directory && depth
            < rules.max_depth {
            all_led_by(entry.name, come_by(tree, rules, dir.child(entry.name), depth + 1))
        } else {
            Seq::empty()
        }
    }
}

proof fn lemma_below_first(dir: PathView, names: Seq<Seq<u8>>)
    requires
        names.len() > 0,
    ensures
        below(dir, names) == below(dir.child(names[0]), names.drop_first()),
    decreases names.len(),
{
    let rest = names.drop_first();
    if names.len() == 1 {
        assert(below(dir, names.drop_last()) == dir);
    } else {
        let front = names.drop_last();
        lemma_below_first(dir, front);
        assert(rest.drop_last() =~= front.drop_first());
        assert(rest.last() == names.last());
    }
}

proof fn lemma_lies_first(tree: Tree, dir: PathView, name: Seq<u8>, entry: Reached)
    requires
        entry.names.len() > 0,
    ensures
        lies_below(tree, dir, led_by(name, entry)) <==> {
            &&& tree.contains_key(dir)
            &&& tree[dir].contains(EntryView { name, kind: EntryKind::Directory })
            &&& lies_below(tree, dir.child(name), entry)
        },
{
    let whole = led_by(name, entry);
    assert(whole.names[0] == name);
    assert(whole.names.take(0) =~= Seq::empty());
    assert(below(dir, whole.names.take(0)) == dir);
    assert forall|k: int| 1 <= k < whole.names.len() implies below(dir, #[trigger] whole.names.take(k)) == below(
        dir.child(name),
        entry.names.take(k - 1),
    ) by {
        lemma_below_first(dir, whole.names.take(k));
        assert(whole.names.take(k).drop_first() =~= entry.names.take(k - 1));
    }
    if lies_below(tree, dir, whole) {
        assert forall|k: int| 0 <= k < entry.names.len() implies {
            let holder = below(dir.child(name), entry.names.take(k));
            tree.contains_key(holder) && tree[holder].contains(
                EntryView {
                    name: #[trigger] entry.names[k],
                    kind: if k < entry.names.len() - 1 {
                        EntryKind::Directory
                    } else {
                        entry.kind
                    },
                },
            )
        } by {
            assert(whole.names[k + 1] == entry.names[k]);
            assert(below(dir, whole.names.take(k + 1)) == below(dir.child(name), entry.names.take(k)));
        }
    }
    if tree.contains_key(dir) && tree[dir].contains(EntryView { name, kind: EntryKind::Directory }) && lies_below(
        tree,
        dir.child(name),
        entry,
    ) {
        assert forall|k: int| 0 <= k < whole.names.len() implies {
            let holder = below(dir, whole.names.take(k));
            tree.contains_key(holder) && tree[holder].contains(
                EntryView {
                    name: #[trigger] whole.names[k],
                    kind: if k < whole.names.len() - 1 {
                        EntryKind::Directory
                    } else {
                        whole.kind
                    },
                },
            )
        } by {
            if k > 0 {
                assert(whole.names[k] == entry.names[k - 1]);
                assert(below(dir, whole.names.take(k)) == below(dir.child(name), entry.names.take(k - 1)));
            }
        }
    }
}

proof fn lemma_lies_alone(tree: Tree, dir: PathView, entry: Reached)
    requires
        entry.names.len() == 1,
    ensures
        lies_below(tree, dir, entry) <==> tree.contains_key(dir) && tree[dir].contains(
            EntryView { name: entry.names[0], kind: entry.kind },
        ),
{
    assert(entry.names.take(0) =~= Seq::empty());
    assert(below(dir, entry.names.take(0)) == dir);
}

spec fn rest_of(entry: Reached) -> Reached {
    Reached { names: entry.names.drop_first(), kind: entry.kind }
}

proof fn lemma_all_led_by(name: Seq<u8>, found: Seq<Reached>, entry: Reached)
    ensures
        all_led_by(name, found).contains(entry) <==> entry.names.len() > 0 && entry.names[0] == name && found.contains(
            rest_of(entry),
        ),
{
    let all = all_led_by(name, found);
    if all.contains(entry) {
        let i = choose|i: int| 0 <= i < all.len() && all[i] == entry;
        assert(rest_of(entry) =~= found[i]);
        assert(found.contains(found[i]));
    }
    if entry.names.len() > 0 && entry.names[0] == name && found.contains(rest_of(entry)) {
        let i = choose|i: int| 0 <= i < found.len() && found[i] == rest_of(entry);
        assert(seq![name] + rest_of(entry).names =~= entry.names);
        assert(all[i] == entry);
    }
}

proof fn lemma_at(tree: Tree, rules: WalkRulesView, dir: PathView, depth: nat, one: EntryView, entry: Reached)
    ensures
        come_by_at(tree, rules, dir, depth, one).contains(entry) <==> {
            &&& !(rules.skip_known && skipped_name(one.name))
            &&& entry.names.len() > 0
            &&& entry.names[0] == one.name
            &&& {
                ||| entry.names.len() == 1 && entry.kind == one.kind
                ||| one.kind is Directory && depth < rules.max_depth && come_by(
                    tree,
                    rules,
                    dir.child(one.name),
                    depth + 1,
                ).contains(rest_of(entry))
            }
        },
{
    broadcast use vstd::seq_lib::lemma_seq_concat_contains_all_elements;

    let alone = Reached { names: seq![one.name], kind: one.kind };
    let more = all_led_by(one.name, come_by(tree, rules, dir.child(one.name), depth + 1));
    lemma_all_led_by(one.name, come_by(tree, rules, dir.child(one.name), depth + 1), entry);
    assert(seq![alone].contains(entry) <==> entry == alone) by {
        assert(seq![alone][0] == alone);
    }
    if entry.names.len() == 1 && entry.names[0] == one.name && entry.kind == one.kind {
        assert(entry.names =~= seq![one.name]);
    }
}

proof fn lemma_in(tree: Tree, rules: WalkRulesView, dir: PathView, depth: nat, entries: Seq<EntryView>, entry: Reached)
    ensures
        come_by_in(tree, rules, dir, depth, entries).contains(entry) <==> exists|i: int|
            0 <= i < entries.len() && come_by_at(tree, rules, dir, depth, #[trigger] entries[i]).contains(entry),
    decreases entries.len(),
{
    broadcast use vstd::seq_lib::lemma_seq_concat_contains_all_elements;

    if entries.len() > 0 {
        let front = entries.drop_last();
        let last = entries.len() - 1;
        lemma_in(tree, rules, dir, depth, front, entry);
        if come_by_in(tree, rules, dir, depth, front).contains(entry) {
            let i = choose|i: int|
                0 <= i < front.len() && come_by_at(tree, rules, dir, depth, #[trigger] front[i]).contains(entry);
            assert(entries[i] == front[i]);
        }
        if exists|i: int|
            0 <= i < entries.len() && come_by_at(tree, rules, dir, depth, #[trigger] entries[i]).contains(entry) {
            let i = choose|i: int|
                0 <= i < entries.len() && come_by_at(tree, rules, dir, depth, #[trigger] entries[i]).contains(entry);
            if i < last {
                assert(front[i] == entries[i]);
            }
        }
        if come_by_at(tree, rules, dir, depth, entries[last]).contains(entry) {
            assert(entries.last() == entries[last]);
        }
    } else {
        assert(come_by_in(tree, rules, dir, depth, entries) =~= Seq::empty());
    }
}

proof fn lemma_come_by(tree: Tree, rules: WalkRulesView, dir: PathView, depth: nat, entry: Reached)
    ensures
        come_by(tree, rules, dir, depth).contains(entry) <==> {
            &&& lies_below(tree, dir, entry)
            &&& entry.names.len() + depth <= rules.max_depth + 1
            &&& clean(rules.skip_known, entry.names)
        },
    decreases rules.max_depth + 1 - depth,
{
    if depth <= rules.max_depth && tree.contains_key(dir) && entry.names.len() > 0 {
        let entries = tree[dir];
        let rest = rest_of(entry);
        let first = entry.names[0];
        lemma_in(tree, rules, dir, depth, entries, entry);
        assert(seq![first] + rest.names =~= entry.names);
        assert(led_by(first, rest) =~= entry);
        if entry.names.len() == 1 {
            lemma_lies_alone(tree, dir, entry);
        } else {
            lemma_lies_first(tree, dir, first, rest);
        }
        if depth < rules.max_depth {
            lemma_come_by(tree, rules, dir.child(first), depth + 1, rest);
        }
        assert(clean(rules.skip_known, entry.names) <==> (rules.skip_known ==> !skipped_name(first)) && clean(
            rules.skip_known,
            rest.names,
        )) by {
            if clean(rules.skip_known, entry.names) && rules.skip_known {
                assert(!skipped_name(entry.names[0]));
                assert forall|k: int| 0 <= k < rest.names.len() implies !skipped_name(#[trigger] rest.names[k]) by {
                    assert(rest.names[k] == entry.names[k + 1]);
                }
            }
            if (rules.skip_known ==> !skipped_name(first)) && clean(rules.skip_known, rest.names) && rules.skip_known {
                assert forall|k: int| 0 <= k < entry.names.len() implies !skipped_name(#[trigger] entry.names[k]) by {
                    if k > 0 {
                        assert(entry.names[k] == rest.names[k - 1]);
                    }
                }
            }
        }
        if come_by(tree, rules, dir, depth).contains(entry) {
            let i = choose|i: int|
                0 <= i < entries.len() && come_by_at(tree, rules, dir, depth, #[trigger] entries[i]).contains(entry);
            lemma_at(tree, rules, dir, depth, entries[i], entry);
            if entry.names.len() == 1 && entry.kind == entries[i].kind {
                assert(entries[i] == EntryView { name: first, kind: entry.kind });
                assert(entries.contains(entries[i]));
            } else {
                assert(rest.names.len() > 0);
                assert(entries[i] == EntryView { name: first, kind: EntryKind::Directory });
                assert(entries.contains(entries[i]));
            }
        }
        if lies_below(tree, dir, entry) && entry.names.len() + depth <= rules.max_depth + 1 && clean(
            rules.skip_known,
            entry.names,
        ) {
            let one = EntryView {
                name: first,
                kind: if entry.names.len() == 1 {
                    entry.kind
                } else {
                    EntryKind::Directory
                },
            };
            assert(entries.contains(one));
            let i = choose|i: int| 0 <= i < entries.len() && entries[i] == one;
            lemma_at(tree, rules, dir, depth, entries[i], entry);
            assert(come_by_at(tree, rules, dir, depth, entries[i]).contains(entry));
        }
    } else {
        if entry.names.len() > 0 && !tree.contains_key(dir) {
            assert(entry.names.take(0) =~= Seq::empty());
            assert(below(dir, entry.names.take(0)) == dir);
            if lies_below(tree, dir, entry) {
                let first = entry.names[0];
            }
        }
        if depth <= rules.max_depth && tree.contains_key(dir) {
            lemma_in(tree, rules, dir, depth, tree[dir], entry);
            if come_by(tree, rules, dir, depth).contains(entry) {
                let i = choose|i: int|
                    0 <= i < tree[dir].len() && come_by_at(tree, rules, dir, depth, #[trigger] tree[dir][i]).contains(
                        entry,
                    );
                lemma_at(tree, rules, dir, depth, tree[dir][i], entry);
            }
        }
    }
}

proof fn lemma_distinct_in(tree: Tree, rules: WalkRulesView, dir: PathView, depth: nat, entries: Seq<EntryView>)
    requires
        proper_tree(tree),
        proper_listing(entries),
    ensures
        come_by_in(tree, rules, dir, depth, entries).no_duplicates(),
    decreases rules.max_depth + 1 - depth, 0int, entries.len(),
{
    if entries.len() > 0 {
        let front = entries.drop_last();
        let one = entries.last();
        let last = entries.len() - 1;
        assert(proper_listing(front)) by {
            assert forall|i: int| 0 <= i < front.len() implies entry_name((#[trigger] front[i]).name) by {
                assert(entry_name(entries[i].name));
            }
            assert forall|i: int, j: int| 0 <= i < j < front.len() implies (#[trigger] front[i]).name != (
            #[trigger] front[j]).name by {
                assert(entries[i].name != entries[j].name);
            }
        }
        lemma_distinct_in(tree, rules, dir, depth, front);
        let before = come_by_in(tree, rules, dir, depth, front);
        let own = come_by_at(tree, rules, dir, depth, one);
        assert(own.no_duplicates()) by {
            if entry_is_entered(rules, depth, one) {
                let child = dir.child(one.name);
                let inner = come_by(tree, rules, child, depth + 1);
                if tree.contains_key(child) {
                    lemma_distinct_in(tree, rules, child, depth + 1, tree[child]);
                }
                assert(inner.no_duplicates());
                let led = all_led_by(one.name, inner);
                assert forall|i: int, j: int| 0 <= i < led.len() && 0 <= j < led.len() && i != j implies led[i]
                    != led[j] by {
                    assert(rest_of(led[i]) =~= inner[i]);
                    assert(rest_of(led[j]) =~= inner[j]);
                }
                assert forall|i: int| 0 <= i < led.len() implies (#[trigger] led[i]).names.len() > 1 by {
                    assert(inner.contains(inner[i]));
                    lemma_come_by(tree, rules, child, depth + 1, inner[i]);
                }
                assert forall|i: int, j: int| 0 <= i < own.len() && 0 <= j < own.len() && i != j implies own[i]
                    != own[j] by {
                    if i > 0 {
                        assert(own[i] == led[i - 1]);
                    }
                    if j > 0 {
                        assert(own[j] == led[j - 1]);
                    }
                }
            }
        }
        let all = come_by_in(tree, rules, dir, depth, entries);
        assert forall|i: int, j: int| 0 <= i < before.len() && 0 <= j < own.len() implies before[i] != own[j] by {
            assert(before.contains(before[i]));
            lemma_in(tree, rules, dir, depth, front, before[i]);
            let k = choose|k: int|
                0 <= k < front.len() && come_by_at(tree, rules, dir, depth, #[trigger] front[k]).contains(before[i]);
            lemma_at(tree, rules, dir, depth, front[k], before[i]);
            assert(own.contains(own[j]));
            lemma_at(tree, rules, dir, depth, one, own[j]);
            assert(entries[k].name != entries[last].name);
        }
        assert forall|i: int, j: int| 0 <= i < all.len() && 0 <= j < all.len() && i != j implies all[i] != all[j] by {
            if i < before.len() {
                assert(all[i] == before[i]);
            } else {
                assert(all[i] == own[i - before.len()]);
            }
            if j < before.len() {
                assert(all[j] == before[j]);
            } else {
                assert(all[j] == own[j - before.len()]);
            }
        }
    }
}

spec fn entry_is_entered(rules: WalkRulesView, depth: nat, entry: EntryView) -> bool {
    !(rules.skip_known && skipped_name(entry.name)) && entry.kind is Directory && depth < rules.max_depth
}

spec fn total(found: Seq<Reached>, brings: spec_fn(Reached) -> Harvest) -> Harvest
    decreases found.len(),
{
    if found.len() == 0 {
        Harvest::nothing()
    } else {
        total(found.drop_last(), brings).plus(brings(found.last()))
    }
}

/// What an entry below `dir` brings by itself.
spec fn brings(tree: Tree, rules: WalkRulesView, dir: PathView, depth: nat) -> spec_fn(Reached) -> Harvest {
    |entry: Reached|
        match entry.kind {
            EntryKind::File(metadata) => file_harvest(rules, below(dir, entry.names), metadata),
            EntryKind::UnreadableFile | EntryKind::Unknown => Harvest::one_skipped(),
            EntryKind::Directory => if entry.names.len() + depth <= rules.max_depth && !tree.contains_key(
                below(dir, entry.names),
            ) {
                Harvest::one_skipped()
            } else {
                Harvest::nothing()
            },
            _ => Harvest::nothing(),
        }
}

proof fn lemma_total_add(a: Seq<Reached>, b: Seq<Reached>, y: spec_fn(Reached) -> Harvest)
    ensures
        total(a + b, y) == total(a, y).plus(total(b, y)),
    decreases b.len(),
{
    if b.len() == 0 {
        assert(a + b =~= a);
        lemma_plus(total(a, y), Harvest::nothing(), Harvest::nothing());
    } else {
        assert((a + b).drop_last() =~= a + b.drop_last());
        lemma_total_add(a, b.drop_last(), y);
        lemma_plus(total(a, y), total(b.drop_last(), y), y(b.last()));
    }
}

proof fn lemma_total_led(name: Seq<u8>, found: Seq<Reached>, y: spec_fn(Reached) -> Harvest, z: spec_fn(Reached) -> Harvest)
    requires
        forall|entry: Reached| #[trigger] z(entry) == y(led_by(name, entry)),
    ensures
        total(all_led_by(name, found), y) == total(found, z),
    decreases found.len(),
{
    if found.len() > 0 {
        assert(all_led_by(name, found).drop_last() =~= all_led_by(name, found.drop_last()));
        lemma_total_led(name, found.drop_last(), y, z);
        assert(z(found.last()) == y(led_by(name, found.last())));
    }
}

proof fn lemma_harvest_in(tree: Tree, rules: WalkRulesView, dir: PathView, depth: nat, entries: Seq<EntryView>)
    requires
        depth <= rules.max_depth,
    ensures
        harvest_entries(tree, rules, dir, depth, entries) == total(
            come_by_in(tree, rules, dir, depth, entries),
            brings(tree, rules, dir, depth),
        ),
    decreases rules.max_depth + 1 - depth, 0int, entries.len(),
{
    let y = brings(tree, rules, dir, depth);
    if entries.len() > 0 {
        let front = entries.drop_last();
        let one = entries.last();
        lemma_harvest_in(tree, rules, dir, depth, front);
        let before = come_by_in(tree, rules, dir, depth, front);
        let own = come_by_at(tree, rules, dir, depth, one);
        lemma_total_add(before, own, y);
        let so_far = total(before, y);
        lemma_plus(so_far, Harvest::nothing(), Harvest::nothing());
        if !(rules.skip_known && skipped_name(one.name)) {
            let child = dir.child(one.name);
            let alone = Reached { names: seq![one.name], kind: one.kind };
            assert(alone.names.drop_last() =~= Seq::empty());
            assert(below(dir, alone.names.drop_last()) == dir);
            assert(below(dir, alone.names) == child);
            assert(seq![alone].drop_last() =~= Seq::empty());
            assert(total(seq![alone].drop_last(), y) == Harvest::nothing());
            lemma_plus(Harvest::nothing(), y(alone), Harvest::nothing());
            lemma_plus(y(alone), Harvest::nothing(), Harvest::nothing());
            assert(total(seq![alone], y) == y(alone));
            assert(alone.names.len() == 1);
            if one.kind is Directory && depth < rules.max_depth {
                let inner = come_by(tree, rules, child, depth + 1);
                let z = brings(tree, rules, child, depth + 1);
                assert forall|entry: Reached| #[trigger] z(entry) == y(led_by(one.name, entry)) by {
                    let whole = led_by(one.name, entry);
                    lemma_below_first(dir, whole.names);
                    assert(whole.names.drop_first() =~= entry.names);
                }
                lemma_total_led(one.name, inner, y, z);
                lemma_total_add(seq![alone], all_led_by(one.name, inner), y);
                assert(own == seq![alone] + all_led_by(one.name, inner));
                assert(total(own, y) == y(alone).plus(total(inner, z)));
                if tree.contains_key(child) {
                    lemma_harvest_in(tree, rules, child, depth + 1, tree[child]);
                    assert(y(alone) == Harvest::nothing());
                    lemma_plus(Harvest::nothing(), total(inner, z), Harvest::nothing());
                    lemma_plus(total(inner, z), Harvest::nothing(), Harvest::nothing());
                } else {
                    assert(total(inner, z) == Harvest::nothing());
                    assert(y(alone) == Harvest::one_skipped());
                    lemma_plus(y(alone), Harvest::nothing(), Harvest::nothing());
                }
                assert(total(own, y) == harvest_dir(tree, rules, child, depth + 1));
            } else {
                assert(own =~= seq![alone]);
                assert(total(own, y) == y(alone));
            }
        } else {
            assert(total(own, y) == Harvest::nothing());
        }
    }
}

proof fn lemma_sums(found: Seq<Reached>, y: spec_fn(Reached) -> Harvest)
    ensures
        total(found, y).bytes == sum_over(found, |entry: Reached| y(entry).bytes),
        total(found, y).files == sum_over(found, |entry: Reached| y(entry).files),
        total(found, y).skipped == sum_over(found, |entry: Reached| y(entry).skipped),
    decreases found.len(),
{
    if found.len() > 0 {
        lemma_sums(found.drop_last(), y);
    }
}

/// Sums over the same list of weights that are the same are the same.
pub proof fn sums_of_the_same_are_the_same(found: Seq<Reached>, a: spec_fn(Reached) -> nat, b: spec_fn(Reached) -> nat)
    requires
        forall|entry: Reached| #[trigger] a(entry) == b(entry),
    ensures
        sum_over(found, a) == sum_over(found, b),
    decreases found.len(),
{
    if found.len() > 0 {
        sums_of_the_same_are_the_same(found.drop_last(), a, b);
        assert(a(found.last()) == b(found.last()));
    }
}

/// What a walk brings home is made up of what it comes by. There is a list of that:
/// all that lies below the directory, as deep as the walk goes and without what it
/// skips by name, each once. The bytes are those of the regular files in the list, and
/// so is their number; and what could not be read are the entries that cannot be told,
/// the files without metadata, and the directories that could not be listed.
pub proof fn walks_count_all_that_lies_below(tree: Tree, rules: WalkRulesView, dir: PathView, depth: nat) -> (found: Seq<
    Reached,
>)
    requires
        proper_tree(tree),
        tree.contains_key(dir),
        depth <= rules.max_depth,
    ensures
        found.no_duplicates(),
        forall|entry: Reached| #[trigger]
            found.contains(entry) <==> {
                &&& lies_below(tree, dir, entry)
                &&& entry.names.len() + depth <= rules.max_depth + 1
                &&& rules.skip_known ==> forall|k: int|
                    0 <= k < entry.names.len() ==> #[trigger] entry.names[k] != encode_utf8(".git"@) && entry.names[k]
                        != encode_utf8("node_modules"@)
            },
        harvest_dir(tree, rules, dir, depth).bytes == sum_over(
            found,
            |entry: Reached|
                match entry.kind {
                    EntryKind::File(metadata) => metadata.size as nat,
                    _ => 0,
                },
        ),
        harvest_dir(tree, rules, dir, depth).files == sum_over(
            found,
            |entry: Reached|
                if entry.kind is File {
                    1
                } else {
                    0
                },
        ),
        harvest_dir(tree, rules, dir, depth).skipped == sum_over(
            found,
            |entry: Reached|
                if entry.kind is UnreadableFile || entry.kind is Unknown || entry.kind is Directory
                    && entry.names.len() + depth <= rules.max_depth && !tree.contains_key(below(dir, entry.names)) {
                    1
                } else {
                    0
                },
        ),
{
    let found = come_by(tree, rules, dir, depth);
    let y = brings(tree, rules, dir, depth);
    lemma_distinct_in(tree, rules, dir, depth, tree[dir]);
    lemma_harvest_in(tree, rules, dir, depth, tree[dir]);
    lemma_sums(found, y);
    assert forall|entry: Reached| #[trigger] found.contains(entry) <==> {
        &&& lies_below(tree, dir, entry)
        &&& entry.names.len() + depth <= rules.max_depth + 1
        &&& rules.skip_known ==> forall|k: int|
            0 <= k < entry.names.len() ==> #[trigger] entry.names[k] != encode_utf8(".git"@) && entry.names[k]
                != encode_utf8("node_modules"@)
    } by {
        lemma_come_by(tree, rules, dir, depth, entry);
        if clean(rules.skip_known, entry.names) && rules.skip_known {
            assert forall|k: int| 0 <= k < entry.names.len() implies #[trigger] entry.names[k] != encode_utf8(".git"@)
                && entry.names[k] != encode_utf8("node_modules"@) by {
                assert(!skipped_name(entry.names[k]));
            }
        }
    }
    sums_of_the_same_are_the_same(
        found,
        |entry: Reached| y(entry).bytes,
        |entry: Reached|
            match entry.kind {
                EntryKind::File(metadata) => metadata.size as nat,
                _ => 0,
            },
    );
    sums_of_the_same_are_the_same(
        found,
        |entry: Reached| y(entry).files,
        |entry: Reached|
            if entry.kind is File {
                1
            } else {
                0
            },
    );
    sums_of_the_same_are_the_same(
        found,
        |entry: Reached| y(entry).skipped,
        |entry: Reached|
            if entry.kind is UnreadableFile || entry.kind is Unknown || entry.kind is Directory && entry.names.len()
                + depth <= rules.max_depth && !tree.contains_key(below(dir, entry.names)) {
                1
            } else {
                0
            },
    );
    found
}

/// Names lead to the path that has them behind the components of the directory.
pub proof fn names_lead_to_their_components(dir: PathView, names: Seq<Seq<u8>>)
    requires
        forall|k: int| 0 <= k < names.len() ==> entry_name(#[trigger] names[k]),
    ensures
        below(dir, names).route() == (Route { absolute: dir.route().absolute, parts: dir.route().parts + names }),
        below(dir, names).bytes.len() >= dir.bytes.len() + names.len(),
    decreases names.len(),
{
    if names.len() == 0 {
        assert(dir.route().parts + names =~= dir.route().parts);
    } else {
        let front = names.drop_last();
        assert forall|k: int| 0 <= k < front.len() implies entry_name(#[trigger] front[k]) by {
            assert(entry_name(names[k]));
        }
        names_lead_to_their_components(dir, front);
        let last = names[names.len() - 1];
        assert(entry_name(last));
        assert(last[0] != 47u8);
        entries_have_one_more_component(below(dir, front), last);
        assert((dir.route().parts + front).push(last) =~= dir.route().parts + names);
    }
}

/// What lies below a directory has names that entries can have.
pub proof fn what_lies_below_has_names(tree: Tree, dir: PathView, entry: Reached)
    requires
        proper_tree(tree),
        lies_below(tree, dir, entry),
    ensures
        forall|k: int| 0 <= k < entry.names.len() ==> entry_name(#[trigger] entry.names[k]),
{
    assert forall|k: int| 0 <= k < entry.names.len() implies entry_name(#[trigger] entry.names[k]) by {
        let holder = below(dir, entry.names.take(k));
        let one = EntryView {
            name: entry.names[k],
            kind: if k < entry.names.len() - 1 {
                EntryKind::Directory
            } else {
                entry.kind
            },
        };
        assert(tree[holder].contains(one));
        let i = choose|i: int| 0 <= i < tree[holder].len() && tree[holder][i] == one;
        assert(proper_listing(tree[holder]));
        assert(entry_name(tree[holder][i].name));
    }
}

proof fn lemma_large_count(found: Seq<Reached>, y: spec_fn(Reached) -> Harvest, file: LargeFileView)
    ensures
        total(found, y).large.count(file) > 0 <==> exists|entry: Reached|
            found.contains(entry) && (#[trigger] y(entry)).large.count(file) > 0,
        found.no_duplicates() && (forall|a: Reached, b: Reached|
            found.contains(a) && found.contains(b) && (#[trigger] y(a)).large.count(file) > 0 && (
            #[trigger] y(b)).large.count(file) > 0 ==> a == b && y(a).large.count(file) == 1) ==> total(
            found,
            y,
        ).large.count(file) <= 1,
    decreases found.len(),
{
    broadcast use vstd::multiset::group_multiset_axioms;

    if found.len() > 0 {
        let front = found.drop_last();
        let last = found.last();
        lemma_large_count(front, y, file);
        assert(found.contains(found[found.len() - 1]));
        assert forall|entry: Reached| #[trigger] front.contains(entry) implies found.contains(entry) by {
            let i = choose|i: int| 0 <= i < front.len() && front[i] == entry;
            assert(found[i] == entry);
        }
        if total(front, y).large.count(file) > 0 {
            let entry = choose|entry: Reached| front.contains(entry) && (#[trigger] y(entry)).large.count(file) > 0;
            assert(found.contains(entry));
        }
        if exists|entry: Reached| found.contains(entry) && (#[trigger] y(entry)).large.count(file) > 0 {
            let entry = choose|entry: Reached| found.contains(entry) && (#[trigger] y(entry)).large.count(file) > 0;
            let i = choose|i: int| 0 <= i < found.len() && found[i] == entry;
            if i < front.len() {
                assert(front[i] == entry);
                assert(front.contains(entry));
            }
        }
        if found.no_duplicates() && (forall|a: Reached, b: Reached|
            found.contains(a) && found.contains(b) && (#[trigger] y(a)).large.count(file) > 0 && (
            #[trigger] y(b)).large.count(file) > 0 ==> a == b && y(a).large.count(file) == 1) {
            assert(front.no_duplicates());
            if y(last).large.count(file) > 0 {
                assert(y(last).large.count(file) == 1);
                if total(front, y).large.count(file) > 0 {
                    let entry = choose|entry: Reached|
                        front.contains(entry) && (#[trigger] y(entry)).large.count(file) > 0;
                    let i = choose|i: int| 0 <= i < front.len() && front[i] == entry;
                    assert(found[i] == entry);
                    assert(entry == last);
                    assert(found[found.len() - 1] == last);
                }
            }
        }
    }
}

/// The large files that a walk brings home are those of the regular files that it comes
/// by which are large, each once.
pub proof fn walks_pick_out_every_large_file(
    tree: Tree,
    rules: WalkRulesView,
    dir: PathView,
    depth: nat,
    file: LargeFileView,
)
    requires
        proper_tree(tree),
        tree.contains_key(dir),
        depth <= rules.max_depth,
        rules.large is Some,
    ensures
        harvest_dir(tree, rules, dir, depth).large.count(file) <= 1,
        harvest_dir(tree, rules, dir, depth).large.count(file) > 0 <==> exists|entry: Reached| #[trigger]
            lies_below(tree, dir, entry) && entry.names.len() + depth <= rules.max_depth + 1 && (rules.skip_known
                ==> forall|k: int|
                0 <= k < entry.names.len() ==> #[trigger] entry.names[k] != encode_utf8(".git"@) && entry.names[k]
                    != encode_utf8("node_modules"@)) && entry.kind is File && large_file(
                rules.large->0,
                below(dir, entry.names),
                entry.kind->File_0,
            ) == Some(file),
{
    broadcast use vstd::multiset::group_multiset_axioms;

    let found = come_by(tree, rules, dir, depth);
    let y = brings(tree, rules, dir, depth);
    lemma_distinct_in(tree, rules, dir, depth, tree[dir]);
    lemma_harvest_in(tree, rules, dir, depth, tree[dir]);
    lemma_large_count(found, y, file);
    assert forall|entry: Reached| (#[trigger] y(entry)).large.count(file) > 0 implies entry.kind is File && large_file(
        rules.large->0,
        below(dir, entry.names),
        entry.kind->File_0,
    ) == Some(file) && y(entry).large.count(file) == 1 by {}
    assert forall|a: Reached, b: Reached|
        found.contains(a) && found.contains(b) && (#[trigger] y(a)).large.count(file) > 0 && (
        #[trigger] y(b)).large.count(file) > 0 implies a == b && y(a).large.count(file) == 1 by {
        lemma_come_by(tree, rules, dir, depth, a);
        lemma_come_by(tree, rules, dir, depth, b);
        what_lies_below_has_names(tree, dir, a);
        what_lies_below_has_names(tree, dir, b);
        names_lead_to_their_components(dir, a.names);
        names_lead_to_their_components(dir, b.names);
        let parts = dir.route().parts;
        assert(file.path == below(dir, a.names));
        assert(file.path == below(dir, b.names));
        assert((parts + a.names).skip(parts.len() as int) =~= a.names);
        assert((parts + b.names).skip(parts.len() as int) =~= b.names);
        assert(a.kind->File_0 == b.kind->File_0);
    }
    if exists|entry: Reached| #[trigger]
        lies_below(tree, dir, entry) && entry.names.len() + depth <= rules.max_depth + 1 && (rules.skip_known
            ==> forall|k: int|
            0 <= k < entry.names.len() ==> #[trigger] entry.names[k] != encode_utf8(".git"@) && entry.names[k]
                != encode_utf8("node_modules"@)) && entry.kind is File && large_file(
            rules.large->0,
            below(dir, entry.names),
            entry.kind->File_0,
        ) == Some(file) {
        let entry = choose|entry: Reached| #[trigger]
            lies_below(tree, dir, entry) && entry.names.len() + depth <= rules.max_depth + 1 && (rules.skip_known
                ==> forall|k: int|
                0 <= k < entry.names.len() ==> #[trigger] entry.names[k] != encode_utf8(".git"@) && entry.names[k]
                    != encode_utf8("node_modules"@)) && entry.kind is File && large_file(
                rules.large->0,
                below(dir, entry.names),
                entry.kind->File_0,
            ) == Some(file);
        lemma_come_by(tree, rules, dir, depth, entry);
        assert(clean(rules.skip_known, entry.names));
        assert(found.contains(entry));
        assert(y(entry).large.count(file) > 0);
    }
    if harvest_dir(tree, rules, dir, depth).large.count(file) > 0 {
        let entry = choose|entry: Reached| found.contains(entry) && (#[trigger] y(entry)).large.count(file) > 0;
        lemma_come_by(tree, rules, dir, depth, entry);
        assert(clean(rules.skip_known, entry.names));
        assert(rules.skip_known ==> forall|k: int|
            0 <= k < entry.names.len() ==> #[trigger] entry.names[k] != encode_utf8(".git"@) && entry.names[k]
                != encode_utf8("node_modules"@)) by {
            if rules.skip_known {
                assert forall|k: int| 0 <= k < entry.names.len() implies #[trigger] entry.names[k] != encode_utf8(
                    ".git"@,
                ) && entry.names[k] != encode_utf8("node_modules"@) by {
                    assert(!skipped_name(entry.names[k]));
                }
            }
        }
    }
}

} // verus!
