use vstd::prelude::*;

use crate::ast::Ident;
use crate::macro_expansion::correspondance::{
    law_text_lt_irreflexive, law_text_lt_total, law_text_lt_transitive, text_less, text_lt,
};

verus! {

/// No two entries carry the same name.
pub open spec fn names_distinct<V>(entries: Seq<(Ident, V)>) -> bool {
    forall|i: int, j: int|
        0 <= i < j < entries.len() ==> #[trigger] entries[i].0.name@ != #[trigger] entries[j].0.name@
}

/// The entries come in increasing order of their names, as the entries of a
/// map ordered by name do; so no two carry the same name.
pub open spec fn names_sorted<V>(entries: Seq<(Ident, V)>) -> bool {
    forall|i: int, j: int|
        0 <= i < j < entries.len() ==> text_lt(
            #[trigger] entries[i].0.name@,
            #[trigger] entries[j].0.name@,
        )
}

/// Entries in increasing order of their names carry distinct names.
pub proof fn law_sorted_names_are_distinct<V>(entries: Seq<(Ident, V)>)
    requires
        names_sorted(entries),
    ensures
        names_distinct(entries),
{
    assert forall|i: int, j: int| 0 <= i < j < entries.len() implies #[trigger] entries[i].0.name@
        != #[trigger] entries[j].0.name@ by {
        if entries[i].0.name@ == entries[j].0.name@ {
            law_text_lt_irreflexive(entries[i].0.name@);
        }
    }
}

/// Some entry carries the name `name`.
pub open spec fn has_name<V>(entries: Seq<(Ident, V)>, name: Seq<char>) -> bool {
    exists|i: int| 0 <= i < entries.len() && #[trigger] entries[i].0.name@ == name
}

/// The value of the entry named `name`, if there is one.
pub open spec fn value_named<V>(entries: Seq<(Ident, V)>, name: Seq<char>) -> Option<V> {
    if has_name(entries, name) {
        let i = choose|i: int| 0 <= i < entries.len() && #[trigger] entries[i].0.name@ == name;
        Some(entries[i].1)
    } else {
        None
    }
}

/// Where names are distinct, the entry at `i` gives the value of its name.
pub proof fn lemma_value_named_at<V>(entries: Seq<(Ident, V)>, i: int)
    requires
        names_distinct(entries),
        0 <= i < entries.len(),
    ensures
        value_named(entries, entries[i].0.name@) == Some(entries[i].1),
{
    let n = entries[i].0.name@;
    assert(has_name(entries, n));
    let j = choose|j: int| 0 <= j < entries.len() && #[trigger] entries[j].0.name@ == n;
    if j < i {
        assert(entries[j].0.name@ != entries[i].0.name@);
    }
    if i < j {
        assert(entries[i].0.name@ != entries[j].0.name@);
    }
}

/// The position of the entry named `name`, if there is one.
pub fn position_of<V>(entries: &Vec<(Ident, V)>, name: &String) -> (res: Option<usize>)
    ensures
        res matches Some(i) ==> i < entries@.len() && entries@[i as int].0.name@ == name@,
        res is None ==> !has_name(entries@, name@),
{
    let mut i: usize = 0;
    while i < entries.len()
        invariant
            i <= entries@.len(),
            forall|k: int| 0 <= k < i ==> #[trigger] entries@[k].0.name@ != name@,
        decreases entries@.len() - i,
    {
        if entries[i].0.name.eq(name) {
            return Some(i);
        }
        i = i + 1;
    }
    None
}

/// Adds `value` under `key`, as a map ordered by name does: an entry of the
/// same name gets the new value and keeps its place and its key; otherwise
/// the entry is added before the first entry whose name comes after `key`'s.
pub fn insert_named<V>(entries: &mut Vec<(Ident, V)>, key: Ident, value: V)
    ensures
        names_distinct(old(entries)@) ==> names_distinct(final(entries)@),
        names_sorted(old(entries)@) ==> names_sorted(final(entries)@),
        forall|n: Seq<char>| #[trigger] has_name(final(entries)@, n) <==> (has_name(old(entries)@, n)
            || n == key.name@),
        has_name(old(entries)@, key.name@) ==> exists|i: int|
            0 <= i < old(entries)@.len() && old(entries)@[i].0.name@ == key.name@
                && final(entries)@ == old(entries)@.update(i, (old(entries)@[i].0, value)),
        !has_name(old(entries)@, key.name@) ==> exists|p: int|
            0 <= p <= old(entries)@.len() && final(entries)@ == old(entries)@.insert(
                p,
                (key, value),
            ) && (forall|k: int| 0 <= k < p ==> text_lt(#[trigger] old(entries)@[k].0.name@, key.name@))
                && (p < old(entries)@.len() ==> !text_lt(old(entries)@[p].0.name@, key.name@)),
        names_distinct(old(entries)@) ==> forall|n: Seq<char>|
            #[trigger] value_named(final(entries)@, n) == if n == key.name@ {
                Some(value)
            } else {
                value_named(old(entries)@, n)
            },
{
    match position_of(entries, &key.name) {
        Some(i) => {
            let existing = entries[i].0.clone();
            entries.set(i, (existing, value));
            assert(entries@ =~= old(entries)@.update(i as int, (old(entries)@[i as int].0, value)));
            proof {
                assert forall|n: Seq<char>| #[trigger] has_name(entries@, n) <==> (has_name(
                    old(entries)@,
                    n,
                ) || n == key.name@) by {
                    if has_name(old(entries)@, n) {
                        let j = choose|j: int| 0 <= j < old(entries)@.len() && #[trigger] old(
                            entries,
                        )@[j].0.name@ == n;
                        assert(entries@[j].0.name@ == n);
                    }
                    if n == key.name@ {
                        assert(entries@[i as int].0.name@ == n);
                    }
                    if has_name(entries@, n) {
                        let j = choose|j: int| 0 <= j < entries@.len() && #[trigger] entries@[j].0.name@ == n;
                        assert(old(entries)@[j].0.name@ == n);
                    }
                }
                let before = old(entries)@;
                let after = entries@;
                if names_distinct(before) {
                    assert forall|a: int, b: int|
                        0 <= a < b < after.len() implies #[trigger] after[a].0.name@
                        != #[trigger] after[b].0.name@ by {
                        assert(after[a].0 == before[a].0);
                        assert(after[b].0 == before[b].0);
                    }
                    assert forall|n: Seq<char>| #[trigger] value_named(after, n) == if n == key.name@ {
                        Some(value)
                    } else {
                        value_named(before, n)
                    } by {
                        if n == key.name@ {
                            lemma_value_named_at(after, i as int);
                        } else if has_name(before, n) {
                            let j = choose|j: int| 0 <= j < before.len() && #[trigger] before[j].0.name@ == n;
                            lemma_value_named_at(before, j);
                            assert(j != i);
                            assert(after[j] == before[j]);
                            lemma_value_named_at(after, j);
                        } else {
                            assert(!has_name(after, n));
                        }
                    }
                }
            }
        },
        None => {
            let mut p: usize = 0;
            while p < entries.len() && text_less(entries[p].0.name.as_str(), key.name.as_str())
                invariant
                    p <= entries@.len(),
                    entries@ == old(entries)@,
                    forall|k: int| 0 <= k < p ==> text_lt(#[trigger] entries@[k].0.name@, key.name@),
                decreases entries@.len() - p,
            {
                p = p + 1;
            }
            let ghost name = key.name@;
            entries.insert(p, (key, value));
            proof {
                let before = old(entries)@;
                let after = entries@;
                assert(after =~= before.insert(p as int, after[p as int]));
                assert forall|n: Seq<char>| #[trigger] has_name(after, n) <==> (has_name(before, n)
                    || n == name) by {
                    if has_name(before, n) {
                        let j = choose|j: int| 0 <= j < before.len() && #[trigger] before[j].0.name@ == n;
                        if j < p {
                            assert(after[j] == before[j]);
                        } else {
                            assert(after[j + 1] == before[j]);
                        }
                    }
                    if n == name {
                        assert(after[p as int].0.name@ == n);
                    }
                    if has_name(after, n) {
                        let j = choose|j: int| 0 <= j < after.len() && #[trigger] after[j].0.name@ == n;
                        if j < p {
                            assert(after[j] == before[j]);
                        } else if j > p {
                            assert(after[j] == before[j - 1]);
                        }
                    }
                }
                assert forall|a: int| 0 <= a < after.len() && a != p implies #[trigger] after[a].0.name@
                    != name by {
                    if a < p {
                        assert(after[a] == before[a]);
                    } else {
                        assert(after[a] == before[a - 1]);
                    }
                }
                if names_distinct(before) {
                    assert forall|a: int, b: int|
                        0 <= a < b < after.len() implies #[trigger] after[a].0.name@
                        != #[trigger] after[b].0.name@ by {
                        if a != p && b != p {
                            let a0 = if a < p { a } else { a - 1 };
                            let b0 = if b < p { b } else { b - 1 };
                            assert(after[a] == before[a0]);
                            assert(after[b] == before[b0]);
                        }
                    }
                }
                if names_sorted(before) {
                    if (p as int) < before.len() {
                        law_text_lt_total(before[p as int].0.name@, name);
                    }
                    assert forall|a: int, b: int|
                        0 <= a < b < after.len() implies text_lt(
                        #[trigger] after[a].0.name@,
                        #[trigger] after[b].0.name@,
                    ) by {
                        let a0 = if a < p { a } else { a - 1 };
                        let b0 = if b < p { b } else { b - 1 };
                        if a == p {
                            assert(after[b] == before[b0]);
                            if b0 > p {
                                law_text_lt_transitive(name, before[p as int].0.name@, before[b0].0.name@);
                            }
                        } else if b == p {
                            assert(after[a] == before[a0]);
                        } else {
                            assert(after[a] == before[a0]);
                            assert(after[b] == before[b0]);
                        }
                    }
                }
                if names_distinct(before) {
                    assert(names_distinct(after));
                    assert forall|n: Seq<char>| #[trigger] value_named(after, n) == if n == name {
                        Some(value)
                    } else {
                        value_named(before, n)
                    } by {
                        if n == name {
                            lemma_value_named_at(after, p as int);
                        } else if has_name(before, n) {
                            let j = choose|j: int| 0 <= j < before.len() && #[trigger] before[j].0.name@ == n;
                            lemma_value_named_at(before, j);
                            let ja = if j < p { j } else { j + 1 };
                            assert(after[ja] == before[j]);
                            lemma_value_named_at(after, ja);
                        } else {
                            assert(!has_name(after, n));
                        }
                    }
                }
            }
        },
    }
}

/// The entries of `pairs` under distinct names, as a map ordered by name
/// collects them: for each name the last value given, under the first key
/// written with that name, in increasing order of names.
pub fn collect_named<V>(pairs: Vec<(Ident, V)>) -> (res: Vec<(Ident, V)>)
    ensures
        names_distinct(res@),
        names_sorted(res@),
        forall|k: int| 0 <= k < pairs@.len() ==> has_name(res@, #[trigger] pairs@[k].0.name@),
        forall|i: int| 0 <= i < res@.len() ==> has_name(pairs@, #[trigger] res@[i].0.name@),
        res@.len() <= pairs@.len(),
        names_distinct(pairs@) ==> forall|k: int|
            0 <= k < pairs@.len() ==> value_named(res@, #[trigger] pairs@[k].0.name@) == Some(
                pairs@[k].1,
            ),
{
    let ghost initial = pairs@;
    let mut pairs = pairs;
    let mut res: Vec<(Ident, V)> = Vec::new();
    let mut n: usize = 0;
    let total = pairs.len();
    assert(initial.len() == total);
    while pairs.len() > 0
        invariant
            initial.len() <= usize::MAX,
            n + pairs@.len() == initial.len(),
            pairs@ == initial.skip(n as int),
            names_distinct(res@),
            names_sorted(res@),
            res@.len() <= n,
            forall|k: int| 0 <= k < n ==> has_name(res@, #[trigger] initial[k].0.name@),
            forall|i: int| 0 <= i < res@.len() ==> has_name(initial, #[trigger] res@[i].0.name@),
            names_distinct(initial) ==> forall|k: int|
                0 <= k < n ==> value_named(res@, #[trigger] initial[k].0.name@) == Some(initial[k].1),
        decreases pairs@.len(),
    {
        let (key, value) = pairs.remove(0);
        let ghost before = res@;
        let ghost name = key.name@;
        assert(initial[n as int].0.name@ == name);
        insert_named(&mut res, key, value);
        proof {
            if names_distinct(initial) {
                assert forall|k: int| 0 <= k < n + 1 implies value_named(
                    res@,
                    #[trigger] initial[k].0.name@,
                ) == Some(initial[k].1) by {
                    if k < n {
                        assert(initial[k].0.name@ != initial[n as int].0.name@);
                        assert(value_named(before, initial[k].0.name@) == Some(initial[k].1));
                    }
                }
            }
            assert forall|k: int| 0 <= k < n + 1 implies has_name(
                res@,
                #[trigger] initial[k].0.name@,
            ) by {
                if k < n {
                    assert(has_name(before, initial[k].0.name@));
                }
            }
            assert forall|i: int| 0 <= i < res@.len() implies has_name(
                initial,
                #[trigger] res@[i].0.name@,
            ) by {
                assert(has_name(res@, res@[i].0.name@));
                if has_name(before, res@[i].0.name@) {
                    let j = choose|j: int| 0 <= j < before.len() && #[trigger] before[j].0.name@
                        == res@[i].0.name@;
                    assert(has_name(initial, before[j].0.name@));
                } else {
                    assert(initial[n as int].0.name@ == res@[i].0.name@);
                }
            }
        }
        n = n + 1;
        assert(pairs@ =~= initial.skip(n as int));
    }
    res
}

} // verus!
