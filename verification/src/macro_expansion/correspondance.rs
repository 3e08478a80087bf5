use vstd::prelude::*;

use crate::lexer::token::same_token_type;
use crate::lexer::{Token, TokenType};
use crate::parser::parsable::clone_tokens;

verus! {

/// Strict lexicographic order on texts, character by character, as strings
/// are ordered.
pub open spec fn text_lt(a: Seq<char>, b: Seq<char>) -> bool
    decreases a.len(),
{
    if b.len() == 0 {
        false
    } else if a.len() == 0 {
        true
    } else if a[0] != b[0] {
        a[0] < b[0]
    } else {
        text_lt(a.skip(1), b.skip(1))
    }
}

/// No text comes before itself.
pub proof fn law_text_lt_irreflexive(a: Seq<char>)
    ensures
        !text_lt(a, a),
    decreases a.len(),
{
    if a.len() > 0 {
        law_text_lt_irreflexive(a.skip(1));
    }
}

/// Of two texts, at most one comes before the other.
pub proof fn law_text_lt_asymmetric(a: Seq<char>, b: Seq<char>)
    ensures
        !(text_lt(a, b) && text_lt(b, a)),
    decreases a.len(),
{
    if a.len() > 0 && b.len() > 0 && a[0] == b[0] {
        law_text_lt_asymmetric(a.skip(1), b.skip(1));
    }
}

/// Coming before is transitive.
pub proof fn law_text_lt_transitive(a: Seq<char>, b: Seq<char>, c: Seq<char>)
    requires
        text_lt(a, b),
        text_lt(b, c),
    ensures
        text_lt(a, c),
    decreases a.len(),
{
    if a.len() > 0 && a[0] == b[0] && b[0] == c[0] {
        law_text_lt_transitive(a.skip(1), b.skip(1), c.skip(1));
    }
}

/// Of two different texts, one comes before the other.
pub proof fn law_text_lt_total(a: Seq<char>, b: Seq<char>)
    requires
        a != b,
    ensures
        text_lt(a, b) || text_lt(b, a),
    decreases a.len(),
{
    if a.len() == 0 {
        assert(b.len() > 0) by {
            if b.len() == 0 {
                assert(a =~= b);
            }
        }
    } else if b.len() == 0 {
        assert(text_lt(b, a));
    } else if a[0] == b[0] {
        assert(a.skip(1) != b.skip(1)) by {
            if a.skip(1) == b.skip(1) {
                assert(a =~= seq![a[0]] + a.skip(1));
                assert(b =~= seq![b[0]] + b.skip(1));
            }
        }
        law_text_lt_total(a.skip(1), b.skip(1));
    }
}

/// Whether `a` comes before `b`.
pub fn text_less(a: &str, b: &str) -> (res: bool)
    ensures
        res == text_lt(a@, b@),
{
    let n = a.unicode_len();
    let m = b.unicode_len();
    let mut i: usize = 0;
    assert(a@.skip(0) =~= a@ && b@.skip(0) =~= b@);
    while i < n && i < m
        invariant
            n == a@.len(),
            m == b@.len(),
            i <= n,
            i <= m,
            text_lt(a@.skip(i as int), b@.skip(i as int)) == text_lt(a@, b@),
        decreases n - i,
    {
        let x = a.get_char(i);
        let y = b.get_char(i);
        if x != y {
            return x < y;
        }
        assert(a@.skip(i as int).skip(1) =~= a@.skip(i + 1));
        assert(b@.skip(i as int).skip(1) =~= b@.skip(i + 1));
        i = i + 1;
    }
    i == n && i < m
}

/// What the variables of a macro pattern were matched with: for each name,
/// the tokens it stood for, and for each repetition of the pattern (known by
/// the names it binds) what its variables were matched with.
pub struct Correspondance {
    /// Each name once, in increasing order.
    pub entries: Vec<(String, Vec<Token>)>,
    pub nested_corresp_keys: Vec<Vec<String>>,
    pub nested_corresp: Vec<Correspondance>,
}

/// The names of a list of entries, in order.
pub open spec fn entry_names(entries: Seq<(String, Vec<Token>)>) -> Seq<Seq<char>>
    decreases entries.len(),
{
    if entries.len() == 0 {
        Seq::empty()
    } else {
        entry_names(entries.drop_last()).push(entries.last().0@)
    }
}

/// The names bound by a correspondance: its own, then those of its
/// repetitions, in order.
pub open spec fn keys_spec(c: Correspondance) -> Seq<Seq<char>>
    decreases c,
{
    entry_names(c.entries@) + nested_keys_spec(c.nested_corresp@)
}

/// The names bound by a list of correspondances, one after the other.
pub open spec fn nested_keys_spec(list: Seq<Correspondance>) -> Seq<Seq<char>>
    decreases list,
{
    if list.len() == 0 {
        Seq::empty()
    } else {
        nested_keys_spec(list.drop_last()) + keys_spec(list.last())
    }
}

/// The names of `list` are `names`, in order.
pub open spec fn names_are(list: Seq<String>, names: Seq<Seq<char>>) -> bool {
    list.map_values(|n: String| n@) == names
}

/// `i` is the first position of an entry named `name`.
pub open spec fn first_entry(entries: Seq<(String, Vec<Token>)>, name: Seq<char>, i: int) -> bool {
    &&& 0 <= i < entries.len()
    &&& entries[i].0@ == name
    &&& forall|j: int| 0 <= j < i ==> #[trigger] entries[j].0@ != name
}

/// `names` holds `name`.
pub open spec fn names_have(names: Seq<String>, name: Seq<char>) -> bool {
    exists|k: int| 0 <= k < names.len() && #[trigger] names[k]@ == name
}

/// `i` is the first position of a list of names that holds `name`.
pub open spec fn first_keys(keys: Seq<Vec<String>>, name: Seq<char>, i: int) -> bool {
    &&& 0 <= i < keys.len()
    &&& names_have(keys[i]@, name)
    &&& forall|j: int| 0 <= j < i ==> !names_have(#[trigger] keys[j]@, name)
}

/// What `get` finds for `name`, going down at most `level` repetitions:
/// the tokens of the first entry named so, else those found in the first
/// repetition whose names hold it.
pub open spec fn get_spec(c: Correspondance, name: Seq<char>, level: nat) -> Option<Seq<Token>>
    decreases c,
{
    if has_entry(c.entries@, name) {
        let i = choose|i: int| first_entry(c.entries@, name, i);
        Some(c.entries@[i].1@)
    } else if level == 0 {
        None
    } else if exists|i: int| first_keys(c.nested_corresp_keys@, name, i) {
        let i = choose|i: int| first_keys(c.nested_corresp_keys@, name, i);
        if 0 <= i < c.nested_corresp@.len() {
            get_spec(c.nested_corresp@[i], name, (level - 1) as nat)
        } else {
            None
        }
    } else {
        None
    }
}

/// `a` records what `b` records, position by position: the same names with
/// the same tokens, the same names of repetitions, and repetitions that are
/// copies in turn.
pub open spec fn copy_of(a: Correspondance, b: Correspondance) -> bool
    decreases a,
{
    &&& a.entries@.len() == b.entries@.len()
    &&& forall|i: int|
        0 <= i < a.entries@.len() ==> #[trigger] a.entries@[i].0 == b.entries@[i].0
            && a.entries@[i].1@ == b.entries@[i].1@
    &&& a.nested_corresp_keys@.len() == b.nested_corresp_keys@.len()
    &&& forall|i: int|
        0 <= i < a.nested_corresp_keys@.len() ==> #[trigger] a.nested_corresp_keys@[i]@
            == b.nested_corresp_keys@[i]@
    &&& a.nested_corresp@.len() == b.nested_corresp@.len()
    &&& forall|i: int|
        0 <= i < a.nested_corresp@.len() ==> copy_of(
            #[trigger] a.nested_corresp@[i],
            b.nested_corresp@[i],
        )
}

/// Two correspondances find the same tokens for every name at every depth.
pub open spec fn same_lookup(a: Correspondance, b: Correspondance) -> bool {
    forall|name: Seq<char>, level: nat|
        #![trigger get_spec(a, name, level)]
        #![trigger get_spec(b, name, level)]
        get_spec(a, name, level) == get_spec(b, name, level)
}

/// At most one position is the first of `name`.
pub proof fn lemma_first_entry_unique(entries: Seq<(String, Vec<Token>)>, name: Seq<char>, i: int, j: int)
    requires
        first_entry(entries, name, i),
        first_entry(entries, name, j),
    ensures
        i == j,
{
}

/// Where some entry is named `name`, a first one is.
pub proof fn lemma_first_entry_exists(entries: Seq<(String, Vec<Token>)>, name: Seq<char>)
    requires
        has_entry(entries, name),
    ensures
        exists|i: int| first_entry(entries, name, i),
    decreases entries.len(),
{
    let init = entries.drop_last();
    if has_entry(init, name) {
        lemma_first_entry_exists(init, name);
        let i = choose|i: int| first_entry(init, name, i);
        assert(init[i] == entries[i]);
        assert forall|j: int| 0 <= j < i implies #[trigger] entries[j].0@ != name by {
            assert(init[j] == entries[j]);
        }
        assert(first_entry(entries, name, i));
    } else {
        let k = choose|k: int| 0 <= k < entries.len() && #[trigger] entries[k].0@ == name;
        assert forall|j: int| 0 <= j < entries.len() - 1 implies #[trigger] entries[j].0@ != name by {
            assert(init[j] == entries[j]);
        }
        assert(first_entry(entries, name, entries.len() - 1));
    }
}

/// At most one list of names is the first to hold `name`.
pub proof fn lemma_first_keys_unique(keys: Seq<Vec<String>>, name: Seq<char>, i: int, j: int)
    requires
        first_keys(keys, name, i),
        first_keys(keys, name, j),
    ensures
        i == j,
{
    if i < j {
        assert(!names_have(keys[i]@, name));
    }
    if j < i {
        assert(!names_have(keys[j]@, name));
    }
}

/// A copy finds what the correspondance it copies finds.
pub proof fn lemma_copy_same_lookup(a: Correspondance, b: Correspondance)
    requires
        copy_of(a, b),
    ensures
        same_lookup(a, b),
    decreases a,
{
    assert forall|i: int| 0 <= i < a.nested_corresp@.len() implies same_lookup(
        #[trigger] a.nested_corresp@[i],
        b.nested_corresp@[i],
    ) by {
        assert(copy_of(a.nested_corresp@[i], b.nested_corresp@[i]));
        lemma_copy_same_lookup(a.nested_corresp@[i], b.nested_corresp@[i]);
    }
    assert forall|name: Seq<char>, level: nat| get_spec(a, name, level) == get_spec(b, name, level) by {
        if has_entry(a.entries@, name) {
            let k = choose|k: int| 0 <= k < a.entries@.len() && #[trigger] a.entries@[k].0@ == name;
            assert(b.entries@[k].0 == a.entries@[k].0);
        }
        if has_entry(b.entries@, name) {
            let k = choose|k: int| 0 <= k < b.entries@.len() && #[trigger] b.entries@[k].0@ == name;
            assert(b.entries@[k].0 == a.entries@[k].0);
        }
        if has_entry(a.entries@, name) {
            lemma_first_entry_exists(a.entries@, name);
            let ia = choose|i: int| first_entry(a.entries@, name, i);
            let ib = choose|i: int| first_entry(b.entries@, name, i);
            assert(first_entry(a.entries@, name, ia));
            assert(b.entries@[ia].0 == a.entries@[ia].0);
            assert forall|j: int| 0 <= j < ia implies #[trigger] b.entries@[j].0@ != name by {
                assert(b.entries@[j].0 == a.entries@[j].0);
            }
            assert(first_entry(b.entries@, name, ia));
            lemma_first_entry_unique(b.entries@, name, ia, ib);
        } else if level > 0 {
            let ka = a.nested_corresp_keys@;
            let kb = b.nested_corresp_keys@;
            assert forall|i: int| first_keys(ka, name, i) <==> first_keys(kb, name, i) by {
                if 0 <= i < ka.len() {
                    assert(ka[i]@ == kb[i]@);
                    assert forall|j: int| 0 <= j < i implies names_have(#[trigger] ka[j]@, name)
                        == names_have(kb[j]@, name) by {
                        assert(ka[j]@ == kb[j]@);
                    }
                    if first_keys(ka, name, i) {
                        assert forall|j: int| 0 <= j < i implies !names_have(#[trigger] kb[j]@, name) by {
                            assert(ka[j]@ == kb[j]@);
                            assert(!names_have(ka[j]@, name));
                        }
                    }
                    if first_keys(kb, name, i) {
                        assert forall|j: int| 0 <= j < i implies !names_have(#[trigger] ka[j]@, name) by {
                            assert(ka[j]@ == kb[j]@);
                            assert(!names_have(kb[j]@, name));
                        }
                    }
                }
            }
            if exists|i: int| first_keys(a.nested_corresp_keys@, name, i) {
                let ia = choose|i: int| first_keys(a.nested_corresp_keys@, name, i);
                let ib = choose|i: int| first_keys(b.nested_corresp_keys@, name, i);
                assert(first_keys(b.nested_corresp_keys@, name, ia));
                lemma_first_keys_unique(b.nested_corresp_keys@, name, ia, ib);
                if 0 <= ia < a.nested_corresp@.len() {
                    assert(same_lookup(a.nested_corresp@[ia], b.nested_corresp@[ia]));
                    assert(get_spec(a.nested_corresp@[ia], name, (level - 1) as nat) == get_spec(
                        b.nested_corresp@[ia],
                        name,
                        (level - 1) as nat,
                    ));
                }
            }
        }
    }
}

/// Some entry is named `name`.
pub open spec fn has_entry(entries: Seq<(String, Vec<Token>)>, name: Seq<char>) -> bool {
    exists|i: int| 0 <= i < entries.len() && #[trigger] entries[i].0@ == name
}

/// Copies of some names.
pub fn clone_names(names: &Vec<String>) -> (res: Vec<String>)
    ensures
        res@ == names@,
{
    let mut res: Vec<String> = Vec::new();
    let mut i: usize = 0;
    while i < names.len()
        invariant
            i <= names@.len(),
            res@ == names@.take(i as int),
        decreases names@.len() - i,
    {
        res.push(names[i].clone());
        i = i + 1;
        assert(res@ =~= names@.take(i as int));
    }
    assert(names@.take(i as int) =~= names@);
    res
}

/// Whether two lists of names are the same, name by name.
pub fn names_equal(a: &Vec<String>, b: &Vec<String>) -> (res: bool)
    ensures
        res == (a@.len() == b@.len() && forall|i: int| 0 <= i < a@.len() ==> #[trigger] a@[i]@
            == b@[i]@),
{
    if a.len() != b.len() {
        return false;
    }
    let mut i: usize = 0;
    while i < a.len()
        invariant
            a@.len() == b@.len(),
            i <= a@.len(),
            forall|j: int| 0 <= j < i ==> #[trigger] a@[j]@ == b@[j]@,
        decreases a@.len() - i,
    {
        if !a[i].eq(&b[i]) {
            return false;
        }
        i = i + 1;
    }
    true
}

/// Whether `name` is among `names`.
pub fn names_contain(names: &Vec<String>, name: &str) -> (res: bool)
    ensures
        res == exists|i: int| 0 <= i < names@.len() && #[trigger] names@[i]@ == name@,
{
    let mut i: usize = 0;
    while i < names.len()
        invariant
            i <= names@.len(),
            forall|j: int| 0 <= j < i ==> #[trigger] names@[j]@ != name@,
        decreases names@.len() - i,
    {
        if crate::lexer::chars::text_is(names[i].as_str(), name) {
            return true;
        }
        i = i + 1;
    }
    false
}

/// Two lists of names are the same, name by name.
pub open spec fn same_name_list(a: Seq<String>, b: Seq<String>) -> bool {
    a.len() == b.len() && forall|j: int| 0 <= j < a.len() ==> #[trigger] a[j]@ == b[j]@
}

/// The position of `names` among `list`, if it is there: the first one.
pub fn position_of_names(list: &Vec<Vec<String>>, names: &Vec<String>) -> (res: Option<usize>)
    ensures
        res matches Some(i) ==> i < list@.len() && list@[i as int]@.len() == names@.len() && (
        forall|j: int| 0 <= j < names@.len() ==> #[trigger] list@[i as int]@[j]@ == names@[j]@),
        res matches Some(i) ==> forall|k: int|
            0 <= k < i ==> !same_name_list(#[trigger] list@[k]@, names@),
        res is None ==> forall|k: int|
            0 <= k < list@.len() ==> !same_name_list(#[trigger] list@[k]@, names@),
{
    let mut i: usize = 0;
    while i < list.len()
        invariant
            i <= list@.len(),
            forall|k: int| 0 <= k < i ==> !same_name_list(#[trigger] list@[k]@, names@),
        decreases list@.len() - i,
    {
        if names_equal(&list[i], names) {
            return Some(i);
        }
        i = i + 1;
    }
    None
}

/// `r` is what merging `b` into `a` gives: the names of both, the tokens of
/// each name those of `a` then those of `b` (when both have their names in
/// order), the lists of names of `a`'s repetitions kept and those of `b`'s
/// repetitions all recorded, and each repetition of `a` that none of `b`'s
/// binds the names of kept as it was.
pub open spec fn merged_into(a: Correspondance, b: Correspondance, r: Correspondance) -> bool {
    &&& forall|n: Seq<char>| #[trigger] has_entry(r.entries@, n) <==> (has_entry(a.entries@, n)
        || has_entry(b.entries@, n))
    &&& r.nested_corresp@.len() >= a.nested_corresp@.len()
    &&& b.nested_corresp@.len() == 0 ==> r.nested_corresp@ == a.nested_corresp@
        && r.nested_corresp_keys@ == a.nested_corresp_keys@
    &&& entries_sorted(a.entries@) ==> entries_sorted(r.entries@)
    &&& entries_sorted(a.entries@) && entries_sorted(b.entries@) ==> forall|n: Seq<char>|
        #[trigger] tokens_for(r.entries@, n) == tokens_for(a.entries@, n) + tokens_for(b.entries@, n)
    &&& r.nested_corresp_keys@.len() >= a.nested_corresp_keys@.len()
    &&& r.nested_corresp_keys@.take(a.nested_corresp_keys@.len() as int) == a.nested_corresp_keys@
    &&& forall|j: int|
        0 <= j < b.nested_corresp@.len() ==> registered(r.nested_corresp_keys@, #[trigger] b.nested_corresp@[j])
    &&& a.nested_corresp_keys@.len() == a.nested_corresp@.len() ==> {
        &&& r.nested_corresp_keys@.len() == r.nested_corresp@.len()
        &&& forall|idx: int|
            0 <= idx < a.nested_corresp@.len() && (forall|j: int|
                0 <= j < b.nested_corresp@.len() ==> !names_are(
                    a.nested_corresp_keys@[idx]@,
                    keys_spec(#[trigger] b.nested_corresp@[j]),
                )) ==> #[trigger] r.nested_corresp@[idx] == a.nested_corresp@[idx]
    }
}

/// Some list of `keys` is the names that `c` binds.
pub open spec fn registered(keys: Seq<Vec<String>>, c: Correspondance) -> bool {
    exists|idx: int| 0 <= idx < keys.len() && #[trigger] names_are(keys[idx]@, keys_spec(c))
}

/// `idx` is the first of `keys` that lists the names bound by `c`.
pub open spec fn first_listing(keys: Seq<Vec<String>>, c: Correspondance, idx: int) -> bool {
    &&& 0 <= idx < keys.len()
    &&& names_are(keys[idx]@, keys_spec(c))
    &&& forall|k: int| 0 <= k < idx ==> !names_are(#[trigger] keys[k]@, keys_spec(c))
}

/// No two repetitions recorded in `c` bind the same names.
pub open spec fn distinct_repetitions(c: Correspondance) -> bool {
    forall|i: int, j: int|
        0 <= i < j < c.nested_corresp@.len() ==> keys_spec(#[trigger] c.nested_corresp@[i])
            != keys_spec(#[trigger] c.nested_corresp@[j])
}

/// After merging into `a`, giving `r`, the repetition `b` stands at `idx`:
/// the first place whose names are those that `b` binds, holding `a`'s
/// repetition there with `b` merged into it, or a copy of `b` if `a` had
/// no such repetition.
pub open spec fn placed(a: Correspondance, b: Correspondance, r: Correspondance, idx: int) -> bool {
    &&& first_listing(r.nested_corresp_keys@, b, idx)
    &&& idx < r.nested_corresp@.len()
    &&& idx < a.nested_corresp@.len() ==> merged_into(
        a.nested_corresp@[idx],
        b,
        r.nested_corresp@[idx],
    )
    &&& idx >= a.nested_corresp@.len() ==> copy_of(r.nested_corresp@[idx], b)
}

/// Some repetition of `b` is placed at `idx`.
pub open spec fn placed_from(a: Correspondance, b: Correspondance, r: Correspondance, idx: int) -> bool {
    exists|j: int| 0 <= j < b.nested_corresp@.len() && #[trigger] placed(a, b.nested_corresp@[j], r, idx)
}

/// What merging `b` into `a`, giving `r`, does to the repetitions: each of
/// `b`'s is placed at the first place that lists its names, each
/// repetition added after `a`'s own is one of `b`'s, and those added come in
/// the order of `b`'s.
pub open spec fn repetitions_merged(a: Correspondance, b: Correspondance, r: Correspondance) -> bool {
    &&& forall|j: int, idx: int|
        0 <= j < b.nested_corresp@.len() && #[trigger] first_listing(
            r.nested_corresp_keys@,
            b.nested_corresp@[j],
            idx,
        ) ==> placed(a, b.nested_corresp@[j], r, idx)
    &&& forall|idx: int|
        a.nested_corresp@.len() <= idx < r.nested_corresp@.len() ==> #[trigger] placed_from(a, b, r, idx)
    &&& forall|j1: int, j2: int, i1: int, i2: int|
        0 <= j1 < j2 < b.nested_corresp@.len() && #[trigger] placed(a, b.nested_corresp@[j1], r, i1)
            && #[trigger] placed(a, b.nested_corresp@[j2], r, i2) && i1 >= a.nested_corresp@.len()
            && i2 >= a.nested_corresp@.len() ==> i1 < i2
}

/// At most one place is the first to list the names of `c`.
pub proof fn lemma_first_listing_unique(keys: Seq<Vec<String>>, c: Correspondance, i: int, j: int)
    requires
        first_listing(keys, c, i),
        first_listing(keys, c, j),
    ensures
        i == j,
{
    if i < j {
        assert(names_are(keys[i]@, keys_spec(c)));
    }
    if j < i {
        assert(names_are(keys[j]@, keys_spec(c)));
    }
}

/// Merging repetitions is described by where each of `b`'s was placed
/// (`places`) and which of them each added repetition is (`from`).
proof fn lemma_repetitions_merged(
    a: Correspondance,
    b: Correspondance,
    r: Correspondance,
    places: Seq<int>,
    from: Seq<int>,
)
    requires
        places.len() == b.nested_corresp@.len(),
        forall|j: int|
            0 <= j < b.nested_corresp@.len() ==> placed(a, #[trigger] b.nested_corresp@[j], r, places[j]),
        r.nested_corresp@.len() == a.nested_corresp@.len() + from.len(),
        forall|i: int|
            0 <= i < from.len() ==> 0 <= #[trigger] from[i] < b.nested_corresp@.len() && places[from[i]]
                == a.nested_corresp@.len() + i,
        forall|j1: int, j2: int|
            0 <= j1 < j2 < b.nested_corresp@.len() && #[trigger] places[j1] >= a.nested_corresp@.len()
                && #[trigger] places[j2] >= a.nested_corresp@.len() ==> places[j1] < places[j2],
    ensures
        repetitions_merged(a, b, r),
{
    assert forall|j: int, idx: int|
        0 <= j < b.nested_corresp@.len() && #[trigger] first_listing(
            r.nested_corresp_keys@,
            b.nested_corresp@[j],
            idx,
        ) implies placed(a, b.nested_corresp@[j], r, idx) by {
        assert(placed(a, b.nested_corresp@[j], r, places[j]));
        lemma_first_listing_unique(r.nested_corresp_keys@, b.nested_corresp@[j], idx, places[j]);
    }
    assert forall|idx: int|
        a.nested_corresp@.len() <= idx < r.nested_corresp@.len() implies #[trigger] placed_from(
            a,
            b,
            r,
            idx,
        ) by {
        let j = from[idx - a.nested_corresp@.len()];
        assert(placed(a, b.nested_corresp@[j], r, places[j]));
    }
    assert forall|j1: int, j2: int, i1: int, i2: int|
        0 <= j1 < j2 < b.nested_corresp@.len() && #[trigger] placed(a, b.nested_corresp@[j1], r, i1)
            && #[trigger] placed(a, b.nested_corresp@[j2], r, i2) && i1 >= a.nested_corresp@.len()
            && i2 >= a.nested_corresp@.len() implies i1 < i2 by {
        assert(placed(a, b.nested_corresp@[j1], r, places[j1]));
        assert(placed(a, b.nested_corresp@[j2], r, places[j2]));
        lemma_first_listing_unique(r.nested_corresp_keys@, b.nested_corresp@[j1], i1, places[j1]);
        lemma_first_listing_unique(r.nested_corresp_keys@, b.nested_corresp@[j2], i2, places[j2]);
    }
}

/// When `names` read as `view`, a list is the same list of names as `names`
/// exactly when its names are `view`.
pub proof fn lemma_same_list_names_are(a: Seq<String>, names: Seq<String>, view: Seq<Seq<char>>)
    requires
        names.map_values(|n: String| n@) == view,
    ensures
        same_name_list(a, names) <==> names_are(a, view),
{
    let am = a.map_values(|n: String| n@);
    let nm = names.map_values(|n: String| n@);
    assert(nm.len() == names.len());
    assert(am.len() == a.len());
    if same_name_list(a, names) {
        assert forall|j: int| 0 <= j < am.len() implies #[trigger] am[j] == nm[j] by {
            assert(am[j] == a[j]@);
            assert(nm[j] == names[j]@);
        }
        assert(am =~= nm);
    }
    if names_are(a, view) {
        assert forall|j: int| 0 <= j < a.len() implies #[trigger] a[j]@ == names[j]@ by {
            assert(am[j] == a[j]@);
            assert(nm[j] == names[j]@);
        }
    }
}

impl Correspondance {
    pub fn new() -> (res: Self)
        ensures
            res.entries@.len() == 0,
            entries_sorted(res.entries@),
            res.nested_corresp@.len() == 0,
            res.nested_corresp_keys@.len() == 0,
    {
        Correspondance { entries: Vec::new(), nested_corresp_keys: Vec::new(), nested_corresp: Vec::new() }
    }

    /// A copy: the same names standing for the same tokens, the same
    /// repetitions.
    pub fn duplicate(&self) -> (res: Self)
        ensures
            res.entries@.len() == self.entries@.len(),
            forall|i: int|
                0 <= i < self.entries@.len() ==> #[trigger] res.entries@[i].0 == self.entries@[i].0
                    && res.entries@[i].1@ == self.entries@[i].1@,
            res.nested_corresp_keys@.len() == self.nested_corresp_keys@.len(),
            forall|i: int|
                0 <= i < self.nested_corresp_keys@.len() ==> #[trigger] res.nested_corresp_keys@[i]@
                    == self.nested_corresp_keys@[i]@,
            res.nested_corresp@.len() == self.nested_corresp@.len(),
            entries_sorted(self.entries@) ==> entries_sorted(res.entries@) && forall|n: Seq<char>|
                #[trigger] tokens_for(res.entries@, n) == tokens_for(self.entries@, n),
            forall|n: Seq<char>| #[trigger] has_entry(res.entries@, n) <==> has_entry(self.entries@, n),
            copy_of(res, *self),
        decreases self,
    {
        let mut entries: Vec<(String, Vec<Token>)> = Vec::new();
        let mut i: usize = 0;
        while i < self.entries.len()
            invariant
                i <= self.entries@.len(),
                entries@.len() == i,
                forall|k: int|
                    0 <= k < i ==> #[trigger] entries@[k].0 == self.entries@[k].0
                        && entries@[k].1@ == self.entries@[k].1@,
            decreases self.entries@.len() - i,
        {
            let name = self.entries[i].0.clone();
            let tokens = clone_tokens(self.entries[i].1.as_slice());
            entries.push((name, tokens));
            i = i + 1;
        }
        let mut keys: Vec<Vec<String>> = Vec::new();
        let mut j: usize = 0;
        while j < self.nested_corresp_keys.len()
            invariant
                j <= self.nested_corresp_keys@.len(),
                keys@.len() == j,
                forall|k: int|
                    0 <= k < j ==> #[trigger] keys@[k]@ == self.nested_corresp_keys@[k]@,
            decreases self.nested_corresp_keys@.len() - j,
        {
            let names = clone_names(&self.nested_corresp_keys[j]);
            keys.push(names);
            j = j + 1;
        }
        let mut nested: Vec<Correspondance> = Vec::new();
        let mut k: usize = 0;
        while k < self.nested_corresp.len()
            invariant
                k <= self.nested_corresp@.len(),
                nested@.len() == k,
                forall|i: int| 0 <= i < k ==> copy_of(#[trigger] nested@[i], self.nested_corresp@[i]),
            decreases self.nested_corresp@.len() - k,
        {
            let copy = self.nested_corresp[k].duplicate();
            nested.push(copy);
            k = k + 1;
        }
        proof {
            assert(entries@.len() == self.entries@.len());
            assert forall|i: int| 0 <= i < self.entries@.len() implies #[trigger] entries@[i].0
                == self.entries@[i].0 && entries@[i].1@ == self.entries@[i].1@ by {}
            if entries_sorted(self.entries@) {
                lemma_same_entries(self.entries@, entries@);
            }
            assert forall|n: Seq<char>| #[trigger] has_entry(entries@, n) <==> has_entry(
                self.entries@,
                n,
            ) by {
                if has_entry(entries@, n) {
                    let k = choose|k: int| 0 <= k < entries@.len() && #[trigger] entries@[k].0@ == n;
                    assert(entries@[k].0 == self.entries@[k].0);
                }
                if has_entry(self.entries@, n) {
                    let k = choose|k: int| 0 <= k < self.entries@.len() && #[trigger] self.entries@[k].0@
                        == n;
                    assert(entries@[k].0 == self.entries@[k].0);
                }
            }
        }
        Correspondance { entries, nested_corresp_keys: keys, nested_corresp: nested }
    }

    /// The names bound: its own, in order, then those of its repetitions.
    pub fn keys(&self) -> (res: Vec<String>)
        ensures
            res@.map_values(|n: String| n@) == keys_spec(*self),
        decreases self,
    {
        let mut res: Vec<String> = Vec::new();
        let mut i: usize = 0;
        assert(self.entries@.take(0) =~= Seq::<(String, Vec<Token>)>::empty());
        assert(res@.map_values(|n: String| n@) =~= Seq::<Seq<char>>::empty());
        while i < self.entries.len()
            invariant
                i <= self.entries@.len(),
                res@.map_values(|n: String| n@) == entry_names(self.entries@.take(i as int)),
            decreases self.entries@.len() - i,
        {
            assert(self.entries@.take(i + 1).drop_last() =~= self.entries@.take(i as int));
            let ghost before = res@;
            res.push(self.entries[i].0.clone());
            assert(res@.map_values(|n: String| n@) =~= before.map_values(|n: String| n@).push(
                self.entries@[i as int].0@,
            ));
            i = i + 1;
        }
        assert(self.entries@.take(i as int) =~= self.entries@);
        let ghost own = res@.map_values(|n: String| n@);
        let mut k: usize = 0;
        assert(self.nested_corresp@.take(0) =~= Seq::<Correspondance>::empty());
        assert(own + nested_keys_spec(self.nested_corresp@.take(0)) =~= own);
        while k < self.nested_corresp.len()
            invariant
                k <= self.nested_corresp@.len(),
                own == entry_names(self.entries@),
                res@.map_values(|n: String| n@) == own + nested_keys_spec(
                    self.nested_corresp@.take(k as int),
                ),
            decreases self.nested_corresp@.len() - k,
        {
            assert(self.nested_corresp@.take(k + 1).drop_last() =~= self.nested_corresp@.take(
                k as int,
            ));
            let inner = self.nested_corresp[k].keys();
            let ghost before = res@;
            let mut j: usize = 0;
            while j < inner.len()
                invariant
                    j <= inner@.len(),
                    res@ == before + inner@.take(j as int),
                decreases inner@.len() - j,
            {
                res.push(inner[j].clone());
                j = j + 1;
                assert(res@ =~= before + inner@.take(j as int));
            }
            assert(inner@.take(j as int) =~= inner@);
            assert((before + inner@).map_values(|n: String| n@) =~= before.map_values(
                |n: String| n@,
            ) + inner@.map_values(|n: String| n@));
            assert(own + nested_keys_spec(self.nested_corresp@.take(k + 1)) =~= own
                + nested_keys_spec(self.nested_corresp@.take(k as int)) + keys_spec(
                self.nested_corresp@[k as int],
            ));
            k = k + 1;
        }
        assert(self.nested_corresp@.take(k as int) =~= self.nested_corresp@);
        res
    }

    /// The tokens `name` stood for: its own entry, else (when `max_level`
    /// allows going down) the entry of the first repetition that binds it.
    pub fn get(&self, name: &str, max_level: usize) -> (res: Option<Vec<Token>>)
        ensures
            has_entry(self.entries@, name@) ==> (res matches Some(t) && exists|i: int|
                0 <= i < self.entries@.len() && #[trigger] self.entries@[i].0@ == name@ && t@
                    == self.entries@[i].1@),
            max_level == 0 && !has_entry(self.entries@, name@) ==> res is None,
            entries_sorted(self.entries@) && has_entry(self.entries@, name@) ==> (res matches Some(
                t,
            ) && t@ == tokens_for(self.entries@, name@)),
            res matches Some(t) ==> get_spec(*self, name@, max_level as nat) == Some(t@),
            res is None <==> get_spec(*self, name@, max_level as nat) is None,
        decreases self,
    {
        if let Some(i) = self.entry_position(name) {
            proof {
                if entries_sorted(self.entries@) {
                    lemma_tokens_for_at(self.entries@, i as int);
                }
                let k = choose|k: int| first_entry(self.entries@, name@, k);
                assert(k == i);
            }
            return Some(clone_tokens(self.entries[i].1.as_slice()));
        }
        if max_level == 0 {
            return None;
        }
        let mut i: usize = 0;
        while i < self.nested_corresp_keys.len()
            invariant
                i <= self.nested_corresp_keys@.len(),
                max_level > 0,
                !has_entry(self.entries@, name@),
                forall|j: int| 0 <= j < i ==> !names_have(#[trigger] self.nested_corresp_keys@[j]@, name@),
            decreases self.nested_corresp_keys@.len() - i,
        {
            if names_contain(&self.nested_corresp_keys[i], name) {
                proof {
                    assert(first_keys(self.nested_corresp_keys@, name@, i as int));
                    let k = choose|k: int| first_keys(self.nested_corresp_keys@, name@, k);
                    if k < i {
                        assert(!names_have(self.nested_corresp_keys@[k]@, name@));
                    }
                    if k > i {
                        assert(!names_have(self.nested_corresp_keys@[i as int]@, name@));
                    }
                    assert(k == i);
                }
                if i < self.nested_corresp.len() {
                    return self.nested_corresp[i].get(name, max_level - 1);
                }
                return None;
            }
            i = i + 1;
        }
        proof {
            assert forall|k: int| !first_keys(self.nested_corresp_keys@, name@, k) by {
                if 0 <= k < self.nested_corresp_keys@.len() {
                    assert(!names_have(self.nested_corresp_keys@[k]@, name@));
                }
            }
        }
        None
    }

    /// Adds what `other` records to what is recorded here: the tokens of
    /// each of its names after those already recorded for that name, and
    /// each of its repetitions merged with the one that binds the same names
    /// (or added).
    pub fn merge(&mut self, other: &Self)
        ensures
            forall|n: Seq<char>| #[trigger] has_entry(final(self).entries@, n) <==> (has_entry(
                old(self).entries@,
                n,
            ) || has_entry(other.entries@, n)),
            final(self).nested_corresp@.len() >= old(self).nested_corresp@.len(),
            entries_sorted(old(self).entries@) ==> entries_sorted(final(self).entries@),
            entries_sorted(old(self).entries@) && entries_sorted(other.entries@) ==> forall|
                n: Seq<char>,
            |
                #[trigger] tokens_for(final(self).entries@, n) == tokens_for(old(self).entries@, n)
                    + tokens_for(other.entries@, n),
            final(self).nested_corresp_keys@.len() >= old(self).nested_corresp_keys@.len(),
            final(self).nested_corresp_keys@.take(old(self).nested_corresp_keys@.len() as int) == old(
                self,
            ).nested_corresp_keys@,
            forall|j: int|
                0 <= j < other.nested_corresp@.len() ==> registered(
                    final(self).nested_corresp_keys@,
                    #[trigger] other.nested_corresp@[j],
                ),
            old(self).nested_corresp_keys@.len() == old(self).nested_corresp@.len() ==> {
                &&& final(self).nested_corresp_keys@.len() == final(self).nested_corresp@.len()
                &&& forall|idx: int|
                    0 <= idx < old(self).nested_corresp@.len() && (forall|j: int|
                        0 <= j < other.nested_corresp@.len() ==> !names_are(
                            old(self).nested_corresp_keys@[idx]@,
                            keys_spec(#[trigger] other.nested_corresp@[j]),
                        )) ==> #[trigger] final(self).nested_corresp@[idx] == old(
                        self,
                    ).nested_corresp@[idx]
            },
            merged_into(*old(self), *other, *final(self)),
            old(self).nested_corresp_keys@.len() == old(self).nested_corresp@.len()
                && distinct_repetitions(*other) ==> repetitions_merged(*old(self), *other, *final(self)),
        decreases other,
    {
        let ghost sorted = entries_sorted(self.entries@);
        let ghost both_sorted = sorted && entries_sorted(other.entries@);
        let mut i: usize = 0;
        assert(other.entries@.take(0) =~= Seq::<(String, Vec<Token>)>::empty());
        assert(forall|n: Seq<char>| #[trigger] tokens_for(self.entries@, n) =~= tokens_for(
            old(self).entries@,
            n,
        ) + tokens_for(other.entries@.take(0), n));
        while i < other.entries.len()
            invariant
                i <= other.entries@.len(),
                sorted == entries_sorted(old(self).entries@),
                both_sorted == (sorted && entries_sorted(other.entries@)),
                sorted ==> entries_sorted(self.entries@),
                both_sorted ==> forall|n: Seq<char>|
                    #[trigger] tokens_for(self.entries@, n) == tokens_for(old(self).entries@, n)
                        + tokens_for(other.entries@.take(i as int), n),
                self.nested_corresp@ == old(self).nested_corresp@,
                self.nested_corresp_keys@ == old(self).nested_corresp_keys@,
                forall|n: Seq<char>| #[trigger] has_entry(self.entries@, n) <==> (has_entry(
                    old(self).entries@,
                    n,
                ) || has_entry(other.entries@.take(i as int), n)),
            decreases other.entries@.len() - i,
        {
            let ghost before = self.entries@;
            let name = &other.entries[i].0;
            let ghost nm = name@;
            let position = match self.entry_position(name.as_str()) {
                Some(p) => p,
                None => {
                    let p = self.insert_entry(name.clone());
                    proof {
                        if sorted {
                            lemma_tokens_for_at(self.entries@, p as int);
                        }
                    }
                    p
                },
            };
            let ghost inserted = self.entries@;
            assert(sorted ==> entries_sorted(inserted) && forall|n: Seq<char>|
                #[trigger] tokens_for(inserted, n) == tokens_for(before, n));
            let (entry_name, mut tokens) = self.entries.remove(position);
            let mut extra = clone_tokens(other.entries[i].1.as_slice());
            tokens.append(&mut extra);
            self.entries.insert(position, (entry_name, tokens));
            proof {
                let after = self.entries@;
                assert(after.len() == inserted.len());
                assert(forall|k: int|
                    0 <= k < after.len() && k != position ==> #[trigger] after[k] == inserted[k]);
                assert(after[position as int].0 == inserted[position as int].0);
                assert(after[position as int].1@ == inserted[position as int].1@ + other.entries@[i as int].1@);
                assert(inserted[position as int].0@ == nm);
                if sorted {
                    assert forall|a: int, b: int| 0 <= a < b < after.len() implies text_lt(
                        #[trigger] after[a].0@,
                        #[trigger] after[b].0@,
                    ) by {
                        assert(after[a].0 == inserted[a].0);
                        assert(after[b].0 == inserted[b].0);
                    }
                    if both_sorted {
                        let taken = other.entries@.take(i as int);
                        assert(other.entries@.take(i + 1) =~= taken.push(other.entries@[i as int]));
                        assert forall|a: int, b: int| 0 <= a < b < taken.push(other.entries@[i as int]).len() implies text_lt(
                            #[trigger] taken.push(other.entries@[i as int])[a].0@,
                            #[trigger] taken.push(other.entries@[i as int])[b].0@,
                        ) by {
                            assert(taken.push(other.entries@[i as int])[a] == other.entries@[a]);
                            assert(taken.push(other.entries@[i as int])[b] == other.entries@[b]);
                        }
                        lemma_tokens_for_push(taken, other.entries@[i as int]);
                        lemma_tokens_for_at(inserted, position as int);
                        lemma_tokens_for_at(after, position as int);
                        assert forall|n: Seq<char>| #[trigger] tokens_for(after, n) == tokens_for(
                            old(self).entries@,
                            n,
                        ) + tokens_for(other.entries@.take(i + 1), n) by {
                            if n == nm {
                                assert(tokens_for(other.entries@.take(i + 1), n) == tokens_for(taken, n)
                                    + other.entries@[i as int].1@);
                                assert(tokens_for(after, n) =~= tokens_for(old(self).entries@, n)
                                    + tokens_for(other.entries@.take(i + 1), n));
                            } else {
                                if has_entry(inserted, n) {
                                    let k = entry_index(inserted, n);
                                    assert(k != position);
                                    lemma_tokens_for_at(inserted, k);
                                    lemma_tokens_for_at(after, k);
                                } else {
                                    assert(!has_entry(after, n)) by {
                                        if has_entry(after, n) {
                                            let k = entry_index(after, n);
                                            assert(after[k].0 == inserted[k].0);
                                        }
                                    }
                                }
                                assert(tokens_for(other.entries@.take(i + 1), n) =~= tokens_for(taken, n));
                            }
                        }
                    }
                }
            }
            proof {
                assert forall|n: Seq<char>| #[trigger] has_entry(self.entries@, n) <==> (has_entry(
                    before,
                    n,
                ) || n == other.entries@[i as int].0@) by {
                    assert(forall|k: int|
                        0 <= k < inserted.len() ==> #[trigger] self.entries@[k].0@
                            == inserted[k].0@);
                    if has_entry(self.entries@, n) {
                        let k = choose|k: int|
                            0 <= k < self.entries@.len() && #[trigger] self.entries@[k].0@ == n;
                        assert(inserted[k].0@ == n);
                        if inserted.len() == before.len() {
                            assert(inserted == before);
                        } else if k < position {
                            assert(inserted[k] == before[k]);
                        } else if k > position {
                            assert(inserted[k] == before[k - 1]);
                        }
                    }
                    if has_entry(before, n) {
                        let k = choose|k: int| 0 <= k < before.len() && #[trigger] before[k].0@ == n;
                        if inserted.len() == before.len() {
                            assert(self.entries@[k].0@ == n);
                        } else if k < position {
                            assert(self.entries@[k].0@ == n);
                        } else {
                            assert(self.entries@[k + 1].0@ == n);
                        }
                    }
                    if n == other.entries@[i as int].0@ {
                        assert(self.entries@[position as int].0@ == n);
                    }
                }
                assert forall|n: Seq<char>| #[trigger] has_entry(
                    other.entries@.take(i + 1),
                    n,
                ) <==> (has_entry(other.entries@.take(i as int), n) || n == other.entries@[i as int].0@) by {
                    if has_entry(other.entries@.take(i + 1), n) {
                        let k = choose|k: int|
                            0 <= k < i + 1 && #[trigger] other.entries@.take(i + 1)[k].0@ == n;
                        if k < i {
                            assert(other.entries@.take(i as int)[k].0@ == n);
                        }
                    }
                    if has_entry(other.entries@.take(i as int), n) {
                        let k = choose|k: int|
                            0 <= k < i && #[trigger] other.entries@.take(i as int)[k].0@ == n;
                        assert(other.entries@.take(i + 1)[k].0@ == n);
                    }
                    if n == other.entries@[i as int].0@ {
                        assert(other.entries@.take(i + 1)[i as int].0@ == n);
                    }
                }
            }
            i = i + 1;
        }
        assert(other.entries@.take(i as int) =~= other.entries@);
        let ghost merged = self.entries@;
        let ghost consistent = old(self).nested_corresp_keys@.len() == old(self).nested_corresp@.len();
        let ghost cd = consistent && distinct_repetitions(*other);
        let ghost old_len = old(self).nested_corresp@.len();
        let ghost mut places: Seq<int> = Seq::empty();
        let ghost mut from: Seq<int> = Seq::empty();
        let mut k: usize = 0;
        while k < other.nested_corresp.len()
            invariant
                k <= other.nested_corresp@.len(),
                self.entries@ == merged,
                other.nested_corresp@.len() == 0 ==> self.nested_corresp@ == old(self).nested_corresp@
                    && self.nested_corresp_keys@ == old(self).nested_corresp_keys@,
                self.nested_corresp@.len() >= old(self).nested_corresp@.len(),
                self.nested_corresp_keys@.len() >= old(self).nested_corresp_keys@.len(),
                self.nested_corresp_keys@.take(old(self).nested_corresp_keys@.len() as int) == old(
                    self,
                ).nested_corresp_keys@,
                forall|j: int|
                    0 <= j < k ==> registered(
                        self.nested_corresp_keys@,
                        #[trigger] other.nested_corresp@[j],
                    ),
                consistent == (old(self).nested_corresp_keys@.len() == old(self).nested_corresp@.len()),
                consistent ==> self.nested_corresp_keys@.len() == self.nested_corresp@.len(),
                consistent ==> forall|idx: int|
                    0 <= idx < old(self).nested_corresp@.len() && (forall|j: int|
                        0 <= j < k ==> !names_are(
                            old(self).nested_corresp_keys@[idx]@,
                            keys_spec(#[trigger] other.nested_corresp@[j]),
                        )) ==> #[trigger] self.nested_corresp@[idx] == old(self).nested_corresp@[idx],
                forall|n: Seq<char>| #[trigger] has_entry(self.entries@, n) <==> (has_entry(
                    old(self).entries@,
                    n,
                ) || has_entry(other.entries@, n)),
                old_len == old(self).nested_corresp@.len(),
                cd == (consistent && distinct_repetitions(*other)),
                places.len() == k,
                cd ==> forall|j: int|
                    0 <= j < k ==> placed(
                        *old(self),
                        #[trigger] other.nested_corresp@[j],
                        *self,
                        places[j],
                    ),
                cd ==> self.nested_corresp@.len() == old_len + from.len(),
                cd ==> forall|i: int|
                    0 <= i < from.len() ==> 0 <= #[trigger] from[i] < k && places[from[i]] == old_len + i,
                cd ==> forall|j1: int, j2: int|
                    0 <= j1 < j2 < k && #[trigger] places[j1] >= old_len && #[trigger] places[j2]
                        >= old_len ==> places[j1] < places[j2],
            decreases other.nested_corresp@.len() - k,
        {
            let nested = &other.nested_corresp[k];
            let keys = nested.keys();
            let ghost keys_before = self.nested_corresp_keys@;
            let ghost nested_before = self.nested_corresp@;
            let ghost prev = *self;
            let ghost prev_places = places;
            let ghost ks = keys_spec(other.nested_corresp@[k as int]);
            let ghost mut pos: int = 0;
            match position_of_names(&self.nested_corresp_keys, &keys) {
                Some(idx) => {
                    proof {
                        let found = self.nested_corresp_keys@[idx as int]@;
                        assert(found.map_values(|n: String| n@) =~= keys@.map_values(|n: String| n@));
                        assert(names_are(found, keys_spec(other.nested_corresp@[k as int])));
                        pos = idx as int;
                        assert forall|k2: int| 0 <= k2 < idx implies !names_are(
                            #[trigger] keys_before[k2]@,
                            ks,
                        ) by {
                            lemma_same_list_names_are(keys_before[k2]@, keys@, ks);
                        }
                        assert(first_listing(keys_before, other.nested_corresp@[k as int], pos));
                    }
                    if idx < self.nested_corresp.len() {
                        proof {
                            if cd && pos >= old_len {
                                let j = from[pos - old_len];
                                assert(0 <= j < k && prev_places[j] == pos);
                                assert(placed(*old(self), other.nested_corresp@[j], prev, prev_places[j]));
                                assert(names_are(keys_before[pos]@, keys_spec(other.nested_corresp@[j])));
                                assert(false);
                            }
                            if cd {
                                assert forall|j: int| 0 <= j < k implies !names_are(
                                    old(self).nested_corresp_keys@[pos]@,
                                    keys_spec(#[trigger] other.nested_corresp@[j]),
                                ) by {
                                    assert(keys_before.take(old(self).nested_corresp_keys@.len() as int)[pos]
                                        == keys_before[pos]);
                                }
                                assert(nested_before[pos] == old(self).nested_corresp@[pos]);
                            }
                        }
                        let mut inner = self.nested_corresp.remove(idx);
                        inner.merge(nested);
                        self.nested_corresp.insert(idx, inner);
                        proof {
                            assert forall|i: int|
                                0 <= i < nested_before.len() && i != idx implies #[trigger] self.nested_corresp@[i]
                                == nested_before[i] by {
                                if i < idx {
                                } else {
                                }
                            }
                        }
                    }
                },
                None => {
                    self.nested_corresp_keys.push(keys);
                    self.nested_corresp.push(nested.duplicate());
                    proof {
                        assert(self.nested_corresp_keys@.take(keys_before.len() as int) =~= keys_before);
                        assert(names_are(
                            self.nested_corresp_keys@[keys_before.len() as int]@,
                            keys_spec(other.nested_corresp@[k as int]),
                        ));
                        pos = keys_before.len() as int;
                        assert forall|k2: int| 0 <= k2 < pos implies !names_are(
                            #[trigger] self.nested_corresp_keys@[k2]@,
                            ks,
                        ) by {
                            assert(self.nested_corresp_keys@[k2] == keys_before[k2]);
                            lemma_same_list_names_are(keys_before[k2]@, keys@, ks);
                        }
                    }
                },
            }
            proof {
                places = places.push(pos);
                if cd {
                    assert(placed(*old(self), other.nested_corresp@[k as int], *self, pos));
                    assert forall|j: int| 0 <= j < k + 1 implies placed(
                        *old(self),
                        #[trigger] other.nested_corresp@[j],
                        *self,
                        places[j],
                    ) by {
                        if j < k {
                            let p = prev_places[j];
                            assert(places[j] == p);
                            assert(placed(*old(self), other.nested_corresp@[j], prev, p));
                            if p == pos {
                                assert(names_are(keys_before[p]@, keys_spec(other.nested_corresp@[j])));
                                assert(names_are(self.nested_corresp_keys@[pos]@, ks));
                                assert(self.nested_corresp_keys@[pos] == keys_before[pos]);
                                assert(false);
                            }
                            assert(self.nested_corresp_keys@[p] == keys_before[p]);
                            assert forall|k2: int| 0 <= k2 < p implies !names_are(
                                #[trigger] self.nested_corresp_keys@[k2]@,
                                keys_spec(other.nested_corresp@[j]),
                            ) by {
                                assert(self.nested_corresp_keys@[k2] == keys_before[k2]);
                            }
                            assert(self.nested_corresp@[p] == nested_before[p]);
                        }
                    }
                    let prev_from = from;
                    if pos >= old_len {
                        from = from.push(k as int);
                    }
                    assert forall|i: int| 0 <= i < from.len() implies 0 <= #[trigger] from[i] < k + 1
                        && places[from[i]] == old_len + i by {
                        if i < prev_from.len() {
                            assert(from[i] == prev_from[i]);
                        }
                    }
                    assert forall|j1: int, j2: int|
                        0 <= j1 < j2 < k + 1 && #[trigger] places[j1] >= old_len && #[trigger] places[j2]
                            >= old_len implies places[j1] < places[j2] by {
                        assert(places[j1] == prev_places[j1]);
                        if j2 < k {
                            assert(places[j2] == prev_places[j2]);
                        } else {
                            assert(placed(*old(self), other.nested_corresp@[j1], prev, prev_places[j1]));
                        }
                    }
                }
            }
            proof {
                assert(self.nested_corresp_keys@.take(old(self).nested_corresp_keys@.len() as int)
                    =~= keys_before.take(old(self).nested_corresp_keys@.len() as int));
                assert forall|j: int| 0 <= j < k + 1 implies registered(
                    self.nested_corresp_keys@,
                    #[trigger] other.nested_corresp@[j],
                ) by {
                    if j < k {
                        assert(registered(keys_before, other.nested_corresp@[j]));
                        let i0 = choose|i0: int|
                            0 <= i0 < keys_before.len() && #[trigger] names_are(
                                keys_before[i0]@,
                                keys_spec(other.nested_corresp@[j]),
                            );
                        assert(self.nested_corresp_keys@[i0] == keys_before[i0]);
                    }
                }
                if consistent {
                    assert forall|idx: int|
                        0 <= idx < old(self).nested_corresp@.len() && (forall|j: int|
                            0 <= j < k + 1 ==> !names_are(
                                old(self).nested_corresp_keys@[idx]@,
                                keys_spec(#[trigger] other.nested_corresp@[j]),
                            )) implies #[trigger] self.nested_corresp@[idx] == old(
                        self,
                    ).nested_corresp@[idx] by {
                        assert(keys_before[idx] == old(self).nested_corresp_keys@[idx]);
                        assert(!names_are(
                            old(self).nested_corresp_keys@[idx]@,
                            keys_spec(other.nested_corresp@[k as int]),
                        ));
                    }
                }
            }
            k = k + 1;
        }
        proof {
            if cd {
                lemma_repetitions_merged(*old(self), *other, *self, places, from);
            }
        }
    }

    /// Records the repetition `correspondance`: merged with the one that
    /// binds the same names, or added.
    pub fn insert_nested(&mut self, correspondance: Correspondance)
        ensures
            final(self).entries == old(self).entries,
            final(self).nested_corresp@.len() >= old(self).nested_corresp@.len(),
            final(self).nested_corresp@.len() > 0,
            (forall|k: int|
                0 <= k < old(self).nested_corresp_keys@.len() ==> !names_are(
                    #[trigger] old(self).nested_corresp_keys@[k]@,
                    keys_spec(correspondance),
                )) ==> {
                &&& final(self).nested_corresp@ == old(self).nested_corresp@.push(correspondance)
                &&& final(self).nested_corresp_keys@.len() == old(self).nested_corresp_keys@.len() + 1
                &&& final(self).nested_corresp_keys@.take(old(self).nested_corresp_keys@.len() as int)
                    == old(self).nested_corresp_keys@
                &&& names_are(final(self).nested_corresp_keys@.last()@, keys_spec(correspondance))
            },
            forall|idx: int|
                #![trigger old(self).nested_corresp@[idx]]
                0 <= idx < old(self).nested_corresp@.len() && idx < old(self).nested_corresp_keys@.len()
                    && names_are(old(self).nested_corresp_keys@[idx]@, keys_spec(correspondance))
                    && (forall|k: int|
                    0 <= k < idx ==> !names_are(
                        #[trigger] old(self).nested_corresp_keys@[k]@,
                        keys_spec(correspondance),
                    )) ==> {
                    &&& final(self).nested_corresp_keys@ == old(self).nested_corresp_keys@
                    &&& final(self).nested_corresp@.len() == old(self).nested_corresp@.len()
                    &&& forall|j: int|
                        0 <= j < old(self).nested_corresp@.len() && j != idx
                            ==> #[trigger] final(self).nested_corresp@[j] == old(
                            self,
                        ).nested_corresp@[j]
                    &&& forall|n: Seq<char>|
                        #[trigger] has_entry(final(self).nested_corresp@[idx].entries@, n) <==> (
                        has_entry(old(self).nested_corresp@[idx].entries@, n) || has_entry(
                            correspondance.entries@,
                            n,
                        ))
                    &&& entries_sorted(old(self).nested_corresp@[idx].entries@) && entries_sorted(
                        correspondance.entries@,
                    ) ==> forall|n: Seq<char>|
                        #[trigger] tokens_for(final(self).nested_corresp@[idx].entries@, n)
                            == tokens_for(old(self).nested_corresp@[idx].entries@, n) + tokens_for(
                            correspondance.entries@,
                            n,
                        )
                    &&& merged_into(
                        old(self).nested_corresp@[idx],
                        correspondance,
                        final(self).nested_corresp@[idx],
                    )
                },
    {
        let keys = correspondance.keys();
        let ghost kv = keys_spec(correspondance);
        proof {
            assert forall|k: int| 0 <= k < self.nested_corresp_keys@.len() implies (same_name_list(
                #[trigger] self.nested_corresp_keys@[k]@,
                keys@,
            ) <==> names_are(self.nested_corresp_keys@[k]@, kv)) by {
                lemma_same_list_names_are(self.nested_corresp_keys@[k]@, keys@, kv);
            }
        }
        match position_of_names(&self.nested_corresp_keys, &keys) {
            Some(idx) => {
                proof {
                    assert(same_name_list(self.nested_corresp_keys@[idx as int]@, keys@));
                }
                if idx < self.nested_corresp.len() {
                    let ghost before = self.nested_corresp@;
                    let mut inner = self.nested_corresp.remove(idx);
                    inner.merge(&correspondance);
                    self.nested_corresp.insert(idx, inner);
                    proof {
                        assert forall|j: int|
                            0 <= j < before.len() && j != idx implies #[trigger] self.nested_corresp@[j]
                            == before[j] by {
                            if j < idx {
                            } else {
                            }
                        }
                    }
                } else {
                    self.nested_corresp_keys.push(keys);
                    self.nested_corresp.push(correspondance);
                }
            },
            None => {
                let ghost before = self.nested_corresp_keys@;
                self.nested_corresp_keys.push(keys);
                self.nested_corresp.push(correspondance);
                proof {
                    assert(self.nested_corresp_keys@.take(before.len() as int) =~= before);
                    assert(keys@.map_values(|n: String| n@) == kv);
                }
            },
        }
    }

    /// The position of the entry named `name`, if there is one.
    pub fn entry_position(&self, name: &str) -> (res: Option<usize>)
        ensures
            res matches Some(i) ==> first_entry(self.entries@, name@, i as int),
            res is None ==> !has_entry(self.entries@, name@),
    {
        let mut i: usize = 0;
        while i < self.entries.len()
            invariant
                i <= self.entries@.len(),
                forall|j: int| 0 <= j < i ==> #[trigger] self.entries@[j].0@ != name@,
            decreases self.entries@.len() - i,
        {
            if crate::lexer::chars::text_is(self.entries[i].0.as_str(), name) {
                return Some(i);
            }
            i = i + 1;
        }
        None
    }

    /// Adds an empty entry named `name` in its place in the order of names,
    /// and gives its position.
    fn insert_entry(&mut self, name: String) -> (res: usize)
        requires
            !has_entry(old(self).entries@, name@),
        ensures
            res < final(self).entries@.len(),
            final(self).entries@ == old(self).entries@.insert(
                res as int,
                final(self).entries@[res as int],
            ),
            final(self).entries@.len() == old(self).entries@.len() + 1,
            final(self).entries@[res as int].0 == name,
            final(self).entries@[res as int].1@.len() == 0,
            forall|k: int| 0 <= k < res ==> #[trigger] final(self).entries@[k] == old(self).entries@[k],
            forall|k: int|
                res < k < final(self).entries@.len() ==> #[trigger] final(self).entries@[k] == old(
                    self,
                ).entries@[k - 1],
            entries_sorted(old(self).entries@) ==> entries_sorted(final(self).entries@),
            forall|n: Seq<char>| #[trigger] has_entry(final(self).entries@, n) <==> (has_entry(
                old(self).entries@,
                n,
            ) || n == name@),
            entries_sorted(old(self).entries@) ==> forall|n: Seq<char>|
                n != name@ ==> #[trigger] tokens_for(final(self).entries@, n) == tokens_for(
                    old(self).entries@,
                    n,
                ),
            final(self).nested_corresp == old(self).nested_corresp,
            final(self).nested_corresp_keys == old(self).nested_corresp_keys,
    {
        let mut i: usize = 0;
        while i < self.entries.len() && text_less(self.entries[i].0.as_str(), name.as_str())
            invariant
                i <= self.entries@.len(),
                self.entries@ == old(self).entries@,
                forall|k: int| 0 <= k < i ==> text_lt(#[trigger] self.entries@[k].0@, name@),
            decreases self.entries@.len() - i,
        {
            i = i + 1;
        }
        let ghost key = name@;
        let empty: Vec<Token> = Vec::new();
        self.entries.insert(i, (name, empty));
        proof {
            let before = old(self).entries@;
            let after = self.entries@;
            assert(after =~= before.insert(i as int, after[i as int]));
            assert forall|n: Seq<char>| #[trigger] has_entry(after, n) <==> (has_entry(before, n)
                || n == key) by {
                if has_entry(before, n) {
                    let k = choose|k: int| 0 <= k < before.len() && #[trigger] before[k].0@ == n;
                    if k < i {
                        assert(after[k] == before[k]);
                    } else {
                        assert(after[k + 1] == before[k]);
                    }
                }
                if n == key {
                    assert(after[i as int].0@ == n);
                }
                if has_entry(after, n) {
                    let k = choose|k: int| 0 <= k < after.len() && #[trigger] after[k].0@ == n;
                    if k < i {
                        assert(after[k] == before[k]);
                    } else if k > i {
                        assert(after[k] == before[k - 1]);
                    }
                }
            }
            if entries_sorted(before) {
                if (i as int) < before.len() {
                    assert(before[i as int].0@ != key);
                    law_text_lt_total(before[i as int].0@, key);
                }
                assert forall|a: int, b: int| 0 <= a < b < after.len() implies text_lt(
                    #[trigger] after[a].0@,
                    #[trigger] after[b].0@,
                ) by {
                    let a0 = if a < i { a } else { a - 1 };
                    let b0 = if b < i { b } else { b - 1 };
                    if a == i {
                        assert(after[b] == before[b0]);
                        if b0 > i {
                            law_text_lt_transitive(key, before[i as int].0@, before[b0].0@);
                        }
                    } else if b == i {
                        assert(after[a] == before[a0]);
                    } else {
                        assert(after[a] == before[a0]);
                        assert(after[b] == before[b0]);
                    }
                }
            }
            assert forall|n: Seq<char>| entries_sorted(before) && n != key implies #[trigger] tokens_for(after, n)
                == tokens_for(before, n) by {
                if has_entry(before, n) {
                    let k = choose|k: int| 0 <= k < before.len() && #[trigger] before[k].0@ == n;
                    assert(has_entry(after, n));
                    let ka = choose|k: int| 0 <= k < after.len() && #[trigger] after[k].0@ == n;
                    if ka < i {
                        assert(after[ka] == before[ka]);
                    } else {
                        assert(ka != i);
                        assert(after[ka] == before[ka - 1]);
                    }
                    lemma_entries_same_name(before, k, if ka < i { ka } else { ka - 1 });
                } else {
                    assert(!has_entry(after, n));
                }
            }
        }
        i
    }

    /// Records that `name` stood for `token`, unless a token of the same type
    /// is already among what it stood for.
    pub fn insert_direct(&mut self, name: String, token: Token)
        ensures
            final(self).nested_corresp == old(self).nested_corresp,
            final(self).nested_corresp_keys == old(self).nested_corresp_keys,
            forall|n: Seq<char>| #[trigger] has_entry(final(self).entries@, n) <==> (has_entry(
                old(self).entries@,
                n,
            ) || n == name@),
            entries_sorted(old(self).entries@) ==> entries_sorted(final(self).entries@),
            entries_sorted(old(self).entries@) ==> tokens_for(final(self).entries@, name@) == if has_token_like(
                tokens_for(old(self).entries@, name@),
                token.token_type,
            ) {
                tokens_for(old(self).entries@, name@)
            } else {
                tokens_for(old(self).entries@, name@).push(token)
            },
            entries_sorted(old(self).entries@) ==> forall|n: Seq<char>|
                n != name@ ==> #[trigger] tokens_for(final(self).entries@, n) == tokens_for(
                    old(self).entries@,
                    n,
                ),
    {
        let ghost key = name@;
        let ghost sorted = entries_sorted(self.entries@);
        let ghost old_tokens = tokens_for(self.entries@, key);
        let position = match self.entry_position(name.as_str()) {
            Some(i) => i,
            None => self.insert_entry(name),
        };
        let ghost before = self.entries@;
        proof {
            if sorted {
                lemma_tokens_for_at(before, position as int);
                assert(before[position as int].1@ == old_tokens);
            }
        }
        let mut found = false;
        let mut j: usize = 0;
        while j < self.entries[position].1.len()
            invariant
                position < self.entries@.len(),
                self.entries@ == before,
                j <= self.entries@[position as int].1@.len(),
                found == exists|k: int|
                    0 <= k < j && same_token_type(
                        #[trigger] self.entries@[position as int].1@[k].token_type,
                        token.token_type,
                    ),
            decreases self.entries@[position as int].1@.len() - j,
        {
            if self.entries[position].1[j].token_type.same_as(&token.token_type) {
                found = true;
            }
            j = j + 1;
        }
        assert(found == has_token_like(before[position as int].1@, token.token_type));
        if !found {
            let (entry_name, mut tokens) = self.entries.remove(position);
            tokens.push(token);
            self.entries.insert(position, (entry_name, tokens));
        }
        proof {
            let after = self.entries@;
            assert(after.len() == before.len());
            assert(forall|k: int| 0 <= k < after.len() ==> #[trigger] after[k].0 == before[k].0);
            assert(forall|k: int| 0 <= k < after.len() && k != position ==> #[trigger] after[k] == before[k]);
            assert(after[position as int].0@ == key);
            assert forall|n: Seq<char>| #[trigger] has_entry(after, n) <==> has_entry(before, n) by {
                if has_entry(before, n) {
                    let k = choose|k: int| 0 <= k < before.len() && #[trigger] before[k].0@ == n;
                    assert(after[k].0@ == n);
                }
                if has_entry(after, n) {
                    let k = choose|k: int| 0 <= k < after.len() && #[trigger] after[k].0@ == n;
                    assert(before[k].0@ == n);
                }
            }
            if sorted {
                assert forall|a: int, b: int| 0 <= a < b < after.len() implies text_lt(
                    #[trigger] after[a].0@,
                    #[trigger] after[b].0@,
                ) by {
                    assert(after[a].0@ == before[a].0@);
                    assert(after[b].0@ == before[b].0@);
                }
                assert forall|n: Seq<char>| n != key implies #[trigger] tokens_for(after, n)
                    == tokens_for(before, n) by {
                    if has_entry(before, n) {
                        let k = choose|k: int| 0 <= k < before.len() && #[trigger] before[k].0@ == n;
                        assert(k != position);
                        lemma_tokens_for_at(before, k);
                        lemma_tokens_for_at(after, k);
                    }
                }
                lemma_tokens_for_at(after, position as int);
            }
        }
    }
}

/// The names of the entries come in increasing order, so each name has at
/// most one entry.
pub closed spec fn entries_sorted(entries: Seq<(String, Vec<Token>)>) -> bool {
    forall|i: int, j: int|
        0 <= i < j < entries.len() ==> text_lt(#[trigger] entries[i].0@, #[trigger] entries[j].0@)
}

/// The tokens recorded for `name`: those of its entry, none when it has no
/// entry.
pub open spec fn tokens_for(entries: Seq<(String, Vec<Token>)>, name: Seq<char>) -> Seq<Token> {
    if has_entry(entries, name) {
        entries[entry_index(entries, name)].1@
    } else {
        Seq::empty()
    }
}

/// The position of an entry named `name`, when there is one.
pub open spec fn entry_index(entries: Seq<(String, Vec<Token>)>, name: Seq<char>) -> int {
    choose|i: int| 0 <= i < entries.len() && #[trigger] entries[i].0@ == name
}

/// Some token of `tokens` has the type `t`.
pub open spec fn has_token_like(tokens: Seq<Token>, t: TokenType) -> bool {
    exists|j: int| 0 <= j < tokens.len() && same_token_type(#[trigger] tokens[j].token_type, t)
}

/// Two entries of the same name are one, when the entries are in order.
proof fn lemma_entries_same_name(entries: Seq<(String, Vec<Token>)>, i: int, j: int)
    requires
        entries_sorted(entries),
        0 <= i < entries.len(),
        0 <= j < entries.len(),
        entries[i].0@ == entries[j].0@,
    ensures
        i == j,
{
    if i != j {
        law_text_lt_irreflexive(entries[i].0@);
        if i < j {
            assert(text_lt(entries[i].0@, entries[j].0@));
        } else {
            assert(text_lt(entries[j].0@, entries[i].0@));
        }
    }
}

/// Entries in order that bind the one name `x` are one entry.
pub proof fn lemma_only_name(entries: Seq<(String, Vec<Token>)>, x: Seq<char>)
    requires
        entries_sorted(entries),
        forall|n: Seq<char>| #[trigger] has_entry(entries, n) <==> n == x,
    ensures
        entries.len() == 1,
        entries[0].0@ == x,
        entry_names(entries) == seq![x],
{
    assert(has_entry(entries, x));
    assert(has_entry(entries, entries[0].0@));
    if entries.len() > 1 {
        assert(has_entry(entries, entries[1].0@));
        lemma_entries_same_name(entries, 0, 1);
    }
    assert(entries.drop_last() =~= Seq::<(String, Vec<Token>)>::empty());
    assert(entry_names(entries.drop_last()) =~= Seq::<Seq<char>>::empty());
}

/// Entries in order with the same names and tokens, position by position,
/// record the same.
pub proof fn lemma_same_entries(a: Seq<(String, Vec<Token>)>, b: Seq<(String, Vec<Token>)>)
    requires
        entries_sorted(a),
        a.len() == b.len(),
        forall|i: int| 0 <= i < a.len() ==> #[trigger] b[i].0 == a[i].0 && b[i].1@ == a[i].1@,
    ensures
        entries_sorted(b),
        forall|n: Seq<char>| #[trigger] tokens_for(b, n) == tokens_for(a, n),
{
    assert forall|i: int, j: int| 0 <= i < j < b.len() implies text_lt(
        #[trigger] b[i].0@,
        #[trigger] b[j].0@,
    ) by {
        assert(b[i].0 == a[i].0 && b[j].0 == a[j].0);
    }
    assert forall|n: Seq<char>| #[trigger] tokens_for(b, n) == tokens_for(a, n) by {
        if has_entry(a, n) {
            let k = entry_index(a, n);
            assert(b[k].0 == a[k].0);
            lemma_tokens_for_at(a, k);
            lemma_tokens_for_at(b, k);
        } else {
            assert(!has_entry(b, n)) by {
                if has_entry(b, n) {
                    let k = entry_index(b, n);
                    assert(b[k].0 == a[k].0);
                }
            }
        }
    }
}

/// Adding an entry at the end of entries in order records its tokens for
/// its name, which had none, and changes nothing for the other names.
proof fn lemma_tokens_for_push(entries: Seq<(String, Vec<Token>)>, e: (String, Vec<Token>))
    requires
        entries_sorted(entries.push(e)),
    ensures
        forall|n: Seq<char>| #[trigger] tokens_for(entries.push(e), n) == tokens_for(entries, n)
            + if n == e.0@ {
            e.1@
        } else {
            Seq::<Token>::empty()
        },
{
    let all = entries.push(e);
    assert forall|a: int, b: int| 0 <= a < b < entries.len() implies text_lt(
        #[trigger] entries[a].0@,
        #[trigger] entries[b].0@,
    ) by {
        assert(all[a] == entries[a] && all[b] == entries[b]);
    }
    assert forall|n: Seq<char>| #[trigger] tokens_for(all, n) == tokens_for(entries, n) + if n
        == e.0@ {
        e.1@
    } else {
        Seq::<Token>::empty()
    } by {
        if n == e.0@ {
            lemma_tokens_for_at(all, entries.len() as int);
            assert(!has_entry(entries, n)) by {
                if has_entry(entries, n) {
                    let k = entry_index(entries, n);
                    assert(all[k] == entries[k]);
                    law_text_lt_irreflexive(n);
                    assert(text_lt(all[k].0@, all[entries.len() as int].0@));
                }
            }
            assert(tokens_for(entries, n) + e.1@ =~= e.1@);
        } else {
            if has_entry(entries, n) {
                let k = entry_index(entries, n);
                assert(all[k] == entries[k]);
                lemma_tokens_for_at(entries, k);
                lemma_tokens_for_at(all, k);
            } else {
                assert(!has_entry(all, n)) by {
                    if has_entry(all, n) {
                        let k = entry_index(all, n);
                        if k < entries.len() {
                            assert(all[k] == entries[k]);
                        }
                    }
                }
            }
            assert(tokens_for(entries, n) + Seq::<Token>::empty() =~= tokens_for(entries, n));
        }
    }
}

/// In entries in order, the tokens recorded for the name of an entry are
/// those of that entry.
pub proof fn lemma_tokens_for_at(entries: Seq<(String, Vec<Token>)>, at: int)
    requires
        0 <= at < entries.len(),
        entries_sorted(entries),
    ensures
        tokens_for(entries, entries[at].0@) == entries[at].1@,
{
    let name = entries[at].0@;
    assert(has_entry(entries, name));
    let k = entry_index(entries, name);
    lemma_entries_same_name(entries, at, k);
}

} // verus!
