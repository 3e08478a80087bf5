use vstd::prelude::*;
use vstd::seq_lib::lemma_flatten_alt_concat;

use crate::parser::items::program::{
    eof_only_last, has_top_line, lemma_lines_give_some, top_lines_never_fail,
};
use crate::ast::{MacroDecl, MacroEntry, MacroFragment, MacroInvoc, Module, Program, TopLevel, TopLevelKind};
use crate::config::Config;
use crate::lexer::{Token, TokenType};
use crate::macro_expansion::correspondance::{
    copy_of, entries_sorted, first_entry, first_keys, get_spec, has_entry, keys_spec,
    lemma_copy_same_lookup, lemma_first_entry_exists, lemma_first_entry_unique,
    lemma_first_keys_unique, names_equal, names_have, tokens_for, Correspondance,
};
use crate::macro_expansion::matcher::{
    binds_name_before, bound_by, matched_plain, plain_match_succeeds, plain_pattern, MacroArgMatcher,
};
use crate::parser::parsable::clone_tokens;
use crate::parser::util::{Diagnostics, ParseError};
use crate::parser::ParseCtx;

verus! {

/// The top level is a macro invocation.
pub open spec fn is_invocation(t: TopLevel) -> bool {
    t.kind is MacroInvoc
}

/// Some top level of the program is a macro invocation.
pub open spec fn has_invocation(p: Program) -> bool {
    exists|i: int|
        0 <= i < p.module.top_levels@.len() && is_invocation(#[trigger] p.module.top_levels@[i])
}

impl Program {
    /// The first top level named `ident`.
    pub fn top_level_from_ident(&self, ident: &str) -> (res: Option<&TopLevel>)
        ensures
            res matches Some(t) ==> exists|i: int|
                0 <= i < self.module.top_levels@.len() && self.module.top_levels@[i] == *t
                    && t.ident.name@ == ident@ && forall|j: int|
                    0 <= j < i ==> #[trigger] self.module.top_levels@[j].ident.name@ != ident@,
            res is None ==> forall|j: int|
                0 <= j < self.module.top_levels@.len() ==> #[trigger] self.module.top_levels@[j].ident.name@
                    != ident@,
    {
        let mut i: usize = 0;
        while i < self.module.top_levels.len()
            invariant
                i <= self.module.top_levels@.len(),
                forall|j: int|
                    0 <= j < i ==> #[trigger] self.module.top_levels@[j].ident.name@ != ident@,
            decreases self.module.top_levels@.len() - i,
        {
            if crate::lexer::chars::text_is(self.module.top_levels[i].ident.name.as_str(), ident) {
                return Some(&self.module.top_levels[i]);
            }
            i = i + 1;
        }
        None
    }

    /// Whether some top level is a macro invocation.
    pub fn has_macro_invoc(&self) -> (res: bool)
        ensures
            res == has_invocation(*self),
    {
        let mut i: usize = 0;
        while i < self.module.top_levels.len()
            invariant
                i <= self.module.top_levels@.len(),
                forall|j: int|
                    0 <= j < i ==> !is_invocation(#[trigger] self.module.top_levels@[j]),
            decreases self.module.top_levels@.len() - i,
        {
            if let TopLevelKind::MacroInvoc(_) = &self.module.top_levels[i].kind {
                return true;
            }
            i = i + 1;
        }
        false
    }
}

/// Two fragments are the same: the same variable, the same token, or
/// repetitions of the same fragments.
pub open spec fn same_fragment(a: MacroFragment, b: MacroFragment) -> bool
    decreases a,
{
    match a {
        MacroFragment::Ident(x) => b == MacroFragment::Ident(x),
        MacroFragment::Token(t) => b == MacroFragment::Token(t),
        MacroFragment::Repetition(xs) => {
            proof {
                assert(decreases_to!(xs => xs@));
            }
            b is Repetition && same_fragments(xs@, b->Repetition_0@)
        },
    }
}

/// Two lists of fragments are the same, fragment by fragment.
pub open spec fn same_fragments(xs: Seq<MacroFragment>, ys: Seq<MacroFragment>) -> bool
    decreases xs,
{
    xs.len() == ys.len() && forall|i: int| 0 <= i < xs.len() ==> same_fragment(#[trigger] xs[i], ys[i])
}

impl MacroFragment {
    /// A copy of the fragment.
    pub fn duplicate(&self) -> (res: Self)
        ensures
            same_fragment(*self, res),
        decreases self,
    {
        match self {
            MacroFragment::Ident(ident) => MacroFragment::Ident(ident.clone()),
            MacroFragment::Token(token) => MacroFragment::Token(token.clone()),
            MacroFragment::Repetition(fragments) => {
                let mut copies: Vec<MacroFragment> = Vec::new();
                let mut i: usize = 0;
                while i < fragments.len()
                    invariant
                        i <= fragments@.len(),
                        self is Repetition,
                        self->Repetition_0 == *fragments,
                        copies@.len() == i,
                        forall|k: int| 0 <= k < i ==> same_fragment(#[trigger] fragments@[k], copies@[k]),
                    decreases fragments@.len() - i,
                {
                    proof {
                        assert(decreases_to!(*self => self->Repetition_0));
                        assert(decreases_to!(*fragments => fragments@));
                        assert(decreases_to!(fragments@ => fragments@[i as int]));
                        assert(decreases_to!(*self => fragments@[i as int]));
                    }
                    copies.push(fragments[i].duplicate());
                    i = i + 1;
                }
                assert(same_fragments(fragments@, copies@));
                MacroFragment::Repetition(copies)
            },
        }
    }
}

/// Copies of the fragments.
pub fn duplicate_fragments(fragments: &Vec<MacroFragment>) -> (res: Vec<MacroFragment>)
    ensures
        same_fragments(fragments@, res@),
{
    let mut copies: Vec<MacroFragment> = Vec::new();
    let mut i: usize = 0;
    while i < fragments.len()
        invariant
            i <= fragments@.len(),
            copies@.len() == i,
            forall|k: int| 0 <= k < i ==> same_fragment(#[trigger] fragments@[k], copies@[k]),
        decreases fragments@.len() - i,
    {
        copies.push(fragments[i].duplicate());
        i = i + 1;
    }
    copies
}

impl MacroDecl {
    /// A copy of the declaration.
    pub fn duplicate(&self) -> (res: Self)
        ensures
            res.name == self.name,
            res.entries@.len() == self.entries@.len(),
            forall|i: int|
                0 <= i < self.entries@.len() ==> same_fragments(
                    #[trigger] self.entries@[i].defs@,
                    res.entries@[i].defs@,
                ) && same_fragments(self.entries@[i].body@, res.entries@[i].body@),
    {
        let mut entries: Vec<MacroEntry> = Vec::new();
        let mut i: usize = 0;
        while i < self.entries.len()
            invariant
                i <= self.entries@.len(),
                entries@.len() == i,
                forall|k: int|
                    0 <= k < i ==> same_fragments(
                        #[trigger] self.entries@[k].defs@,
                        entries@[k].defs@,
                    ) && same_fragments(self.entries@[k].body@, entries@[k].body@),
            decreases self.entries@.len() - i,
        {
            let entry = &self.entries[i];
            let defs = duplicate_fragments(&entry.defs);
            let body = duplicate_fragments(&entry.body);
            let ghost before = entries@;
            entries.push(MacroEntry { defs, body });
            proof {
                assert forall|k: int| 0 <= k < i + 1 implies same_fragments(
                    #[trigger] self.entries@[k].defs@,
                    entries@[k].defs@,
                ) && same_fragments(self.entries@[k].body@, entries@[k].body@) by {
                    if k < i {
                        assert(entries@[k] == before[k]);
                    }
                }
            }
            i = i + 1;
        }
        MacroDecl { name: self.name.clone(), entries }
    }
}

/// The names of the variables that appear directly among `fragments`, in
/// order.
pub open spec fn variable_names(fragments: Seq<MacroFragment>) -> Seq<Seq<char>>
    decreases fragments.len(),
{
    if fragments.len() == 0 {
        Seq::empty()
    } else {
        variable_names(fragments.drop_last()) + match fragments.last() {
            MacroFragment::Ident(id) => seq![id.name@],
            _ => Seq::empty(),
        }
    }
}

/// The names of the variables that appear directly in a repetition, in order.
pub fn repetition_names(repetition: &Vec<MacroFragment>) -> (res: Vec<String>)
    ensures
        res@.map_values(|n: String| n@) == variable_names(repetition@),
{
    let mut names: Vec<String> = Vec::new();
    let mut i: usize = 0;
    assert(repetition@.take(0) =~= Seq::<MacroFragment>::empty());
    assert(names@.map_values(|n: String| n@) =~= Seq::<Seq<char>>::empty());
    while i < repetition.len()
        invariant
            i <= repetition@.len(),
            names@.map_values(|n: String| n@) == variable_names(repetition@.take(i as int)),
        decreases repetition@.len() - i,
    {
        assert(repetition@.take(i + 1).drop_last() =~= repetition@.take(i as int));
        let ghost before = names@;
        if let MacroFragment::Ident(ident) = &repetition[i] {
            names.push(ident.name.clone());
            assert(names@.map_values(|n: String| n@) =~= before.map_values(|n: String| n@) + seq![
                ident.name@,
            ]);
        } else {
            assert(before.map_values(|n: String| n@) + Seq::<Seq<char>>::empty() =~= before.map_values(
                |n: String| n@,
            ));
        }
        i = i + 1;
    }
    assert(repetition@.take(i as int) =~= repetition@);
    names
}

/// The `n`-th token recorded for each name of `entries`, each alone.
fn nth_of_each(entries: &Vec<(String, Vec<Token>)>, n: usize) -> (res: Result<
    Vec<(String, Vec<Token>)>,
    ParseError,
>)
    ensures
        res matches Ok(picked) ==> picked@.len() == entries@.len() && forall|i: int|
            0 <= i < entries@.len() ==> #[trigger] picked@[i].0 == entries@[i].0 && picked@[i].1@
                == seq![entries@[i].1@[n as int]],
        res is Err <==> exists|i: int|
            0 <= i < entries@.len() && #[trigger] entries@[i].1@.len() <= n,
{
    let mut picked: Vec<(String, Vec<Token>)> = Vec::new();
    let mut i: usize = 0;
    while i < entries.len()
        invariant
            i <= entries@.len(),
            picked@.len() == i,
            forall|k: int|
                0 <= k < i ==> #[trigger] picked@[k].0 == entries@[k].0 && picked@[k].1@ == seq![
                    entries@[k].1@[n as int],
                ],
            forall|k: int| 0 <= k < i ==> #[trigger] entries@[k].1@.len() > n,
        decreases entries@.len() - i,
    {
        if entries[i].1.len() <= n {
            return Err(ParseError::MacroUnknownVar(entries[i].0.clone()));
        }
        let mut one: Vec<Token> = Vec::new();
        one.push(entries[i].1[n].clone());
        picked.push((entries[i].0.clone(), one));
        i = i + 1;
    }
    Ok(picked)
}

/// The position of the repetition that binds exactly `names`, in order.
fn find_nested(correspondances: &Correspondance, names: &Vec<String>) -> (res: Option<usize>)
    ensures
        res matches Some(i) ==> i < correspondances.nested_corresp@.len() && keys_spec(
            correspondances.nested_corresp@[i as int],
        ) == names@.map_values(|n: String| n@) && forall|j: int|
            0 <= j < i ==> keys_spec(#[trigger] correspondances.nested_corresp@[j])
                != names@.map_values(|n: String| n@),
        res is None ==> forall|j: int|
            0 <= j < correspondances.nested_corresp@.len() ==> keys_spec(
                #[trigger] correspondances.nested_corresp@[j],
            ) != names@.map_values(|n: String| n@),
{
    let mut index: usize = 0;
    while index < correspondances.nested_corresp.len()
        invariant
            index <= correspondances.nested_corresp@.len(),
            forall|j: int|
                0 <= j < index ==> keys_spec(#[trigger] correspondances.nested_corresp@[j])
                    != names@.map_values(|n: String| n@),
        decreases correspondances.nested_corresp@.len() - index,
    {
        let keys = correspondances.nested_corresp[index].keys();
        if names_equal(&keys, names) {
            assert(keys@.map_values(|n: String| n@) =~= names@.map_values(|n: String| n@));
            return Some(index);
        }
        proof {
            let km = keys@.map_values(|n: String| n@);
            let nm = names@.map_values(|n: String| n@);
            if keys@.len() != names@.len() {
                assert(km.len() != nm.len());
            } else {
                let i = choose|i: int| 0 <= i < keys@.len() && #[trigger] keys@[i]@ != names@[i]@;
                assert(km[i] == keys@[i]@);
                assert(nm[i] == names@[i]@);
            }
            assert(km != nm);
        }
        index = index + 1;
    }
    None
}

/// The tokens of fragments that are all tokens.
pub open spec fn fragment_tokens(body: Seq<MacroFragment>) -> Seq<Token>
    decreases body.len(),
{
    if body.len() == 0 {
        Seq::empty()
    } else {
        fragment_tokens(body.drop_last()).push(body.last()->Token_0)
    }
}

/// The tokens that a body without repetitions stands for, once its
/// variables are replaced by what `entries` recorded for them: a variable
/// nothing was recorded for is kept as a variable.
pub open spec fn body_tokens(body: Seq<MacroFragment>, entries: Seq<(String, Vec<Token>)>) -> Seq<Token>
    decreases body.len(),
{
    if body.len() == 0 {
        Seq::empty()
    } else {
        body_tokens(body.drop_last(), entries) + match body.last() {
            MacroFragment::Token(t) => seq![t],
            MacroFragment::Ident(id) => if has_entry(entries, id.name@) {
                tokens_for(entries, id.name@)
            } else {
                seq![Token { token_type: TokenType::MacroVar(id.name), span: id.span }]
            },
            MacroFragment::Repetition(_) => Seq::empty(),
        }
    }
}

/// The tokens that a body without repetitions stands for, where `look`
/// gives what a variable stands for: a variable nothing is found for is
/// kept as a variable.
pub open spec fn body_tokens_with(
    body: Seq<MacroFragment>,
    look: spec_fn(Seq<char>) -> Option<Seq<Token>>,
) -> Seq<Token>
    decreases body.len(),
{
    if body.len() == 0 {
        Seq::empty()
    } else {
        body_tokens_with(body.drop_last(), look) + match body.last() {
            MacroFragment::Token(t) => seq![t],
            MacroFragment::Ident(id) => match look(id.name@) {
                Some(ts) => ts,
                None => seq![Token { token_type: TokenType::MacroVar(id.name), span: id.span }],
            },
            MacroFragment::Repetition(_) => Seq::empty(),
        }
    }
}

/// The tokens that a body without repetitions stands for in `c`, looked up
/// at most `level` repetitions down.
pub open spec fn body_tokens_at(body: Seq<MacroFragment>, c: Correspondance, level: nat) -> Seq<Token> {
    body_tokens_with(body, |name: Seq<char>| get_spec(c, name, level))
}

/// What `d` finds for `name` once each of its own entries keeps only its
/// `n`-th token.
pub open spec fn picked_lookup(d: Correspondance, n: int, name: Seq<char>, level: nat) -> Option<
    Seq<Token>,
> {
    if has_entry(d.entries@, name) {
        let i = choose|i: int| first_entry(d.entries@, name, i);
        Some(seq![d.entries@[i].1@[n]])
    } else if level == 0 {
        None
    } else if exists|i: int| first_keys(d.nested_corresp_keys@, name, i) {
        let i = choose|i: int| first_keys(d.nested_corresp_keys@, name, i);
        if 0 <= i < d.nested_corresp@.len() {
            get_spec(d.nested_corresp@[i], name, (level - 1) as nat)
        } else {
            None
        }
    } else {
        None
    }
}

/// What `c` finds for `name` in the `n`-th time of its repetition at
/// `index`: that repetition's own entries keep only their `n`-th token.
pub open spec fn rep_lookup(c: Correspondance, index: int, n: int, name: Seq<char>, level: nat) -> Option<
    Seq<Token>,
> {
    if has_entry(c.entries@, name) || level == 0 {
        get_spec(c, name, level)
    } else if exists|i: int| first_keys(c.nested_corresp_keys@, name, i) {
        let i = choose|i: int| first_keys(c.nested_corresp_keys@, name, i);
        if i == index && 0 <= i < c.nested_corresp@.len() {
            picked_lookup(c.nested_corresp@[i], n, name, (level - 1) as nat)
        } else {
            get_spec(c, name, level)
        }
    } else {
        None
    }
}

/// The first `times` times of a repetition `inner` (without repetitions)
/// bound at `index` in `c`, one after the other.
pub open spec fn rep_concat(
    inner: Seq<MacroFragment>,
    c: Correspondance,
    index: int,
    times: nat,
    level: nat,
) -> Seq<Token>
    decreases times,
{
    if times == 0 {
        Seq::empty()
    } else {
        rep_concat(inner, c, index, (times - 1) as nat, level) + body_tokens_with(
            inner,
            |name: Seq<char>| rep_lookup(c, index, times - 1, name, level),
        )
    }
}

/// `index` is the first repetition of `c` that binds the names of the
/// variables of `inner`, in order, and it binds at least one.
pub open spec fn repetition_at(c: Correspondance, inner: Seq<MacroFragment>, index: int) -> bool {
    &&& 0 <= index < c.nested_corresp@.len()
    &&& keys_spec(c.nested_corresp@[index]) == variable_names(inner)
    &&& forall|j: int|
        0 <= j < index ==> keys_spec(#[trigger] c.nested_corresp@[j]) != variable_names(inner)
    &&& c.nested_corresp@[index].entries@.len() > 0
}

/// No fragment is a repetition.
pub open spec fn no_repetition(body: Seq<MacroFragment>) -> bool {
    forall|i: int| 0 <= i < body.len() ==> !(#[trigger] body[i] is Repetition)
}

/// `lemma_once_lookup`, with the entries of the repetition given as those
/// picked from the `n`-th token of each entry.
proof fn lemma_once_lookup_picked(
    c: Correspondance,
    dup: Correspondance,
    once: Correspondance,
    index: int,
    n: int,
    level: nat,
    picked: Seq<(String, Vec<Token>)>,
)
    requires
        copy_of(dup, c),
        0 <= index < c.nested_corresp@.len(),
        once.entries == dup.entries,
        once.nested_corresp_keys == dup.nested_corresp_keys,
        once.nested_corresp@ == dup.nested_corresp@.update(index, once.nested_corresp@[index]),
        once.nested_corresp@[index].nested_corresp_keys == dup.nested_corresp@[index].nested_corresp_keys,
        once.nested_corresp@[index].nested_corresp == dup.nested_corresp@[index].nested_corresp,
        once.nested_corresp@[index].entries@ == picked,
        picked.len() == c.nested_corresp@[index].entries@.len(),
        forall|i: int|
            0 <= i < c.nested_corresp@[index].entries@.len() ==> #[trigger] picked[i].0
                == c.nested_corresp@[index].entries@[i].0 && picked[i].1@ == seq![
                c.nested_corresp@[index].entries@[i].1@[n],
            ],
    ensures
        forall|name: Seq<char>|
            #[trigger] get_spec(once, name, level) == rep_lookup(c, index, n, name, level),
{
    assert forall|k: int| 0 <= k < c.nested_corresp@[index].entries@.len() implies #[trigger] once.nested_corresp@[index].entries@[k].0
        == c.nested_corresp@[index].entries@[k].0 && once.nested_corresp@[index].entries@[k].1@
        == seq![c.nested_corresp@[index].entries@[k].1@[n]] by {
        assert(once.nested_corresp@[index].entries@[k] == picked[k]);
        assert(picked[k].0 == c.nested_corresp@[index].entries@[k].0);
        assert(picked[k].1@ == seq![c.nested_corresp@[index].entries@[k].1@[n]]);
    }
    lemma_once_lookup(c, dup, once, index, n, level);
}

/// In the `n`-th time of a repetition, the correspondance built for it finds
/// what `rep_lookup` says: a copy of `c` whose repetition at `index` keeps
/// only the `n`-th token of each of its entries.
pub proof fn lemma_once_lookup(
    c: Correspondance,
    dup: Correspondance,
    once: Correspondance,
    index: int,
    n: int,
    level: nat,
)
    requires
        copy_of(dup, c),
        0 <= index < c.nested_corresp@.len(),
        once.entries == dup.entries,
        once.nested_corresp_keys == dup.nested_corresp_keys,
        once.nested_corresp@ == dup.nested_corresp@.update(index, once.nested_corresp@[index]),
        once.nested_corresp@[index].nested_corresp_keys == dup.nested_corresp@[index].nested_corresp_keys,
        once.nested_corresp@[index].nested_corresp == dup.nested_corresp@[index].nested_corresp,
        once.nested_corresp@[index].entries@.len() == c.nested_corresp@[index].entries@.len(),
        forall|k: int|
            0 <= k < c.nested_corresp@[index].entries@.len() ==> #[trigger] once.nested_corresp@[index].entries@[k].0
                == c.nested_corresp@[index].entries@[k].0 && once.nested_corresp@[index].entries@[k].1@
                == seq![c.nested_corresp@[index].entries@[k].1@[n]],
    ensures
        forall|name: Seq<char>|
            #[trigger] get_spec(once, name, level) == rep_lookup(c, index, n, name, level),
{
    assert forall|name: Seq<char>| #[trigger] get_spec(once, name, level) == rep_lookup(
        c,
        index,
        n,
        name,
        level,
    ) by {
        lemma_copy_same_lookup(dup, c);
        let ea = once.entries@;
        let ec = c.entries@;
        assert forall|k: int| 0 <= k < ea.len() implies #[trigger] ea[k].0 == ec[k].0 && ea[k].1@
            == ec[k].1@ by {
            assert(dup.entries@[k].0 == c.entries@[k].0);
        }
        if has_entry(ea, name) {
            let k = choose|k: int| 0 <= k < ea.len() && #[trigger] ea[k].0@ == name;
            assert(ea[k].0 == ec[k].0);
        }
        if has_entry(ec, name) {
            let k = choose|k: int| 0 <= k < ec.len() && #[trigger] ec[k].0@ == name;
            assert(ea[k].0 == ec[k].0);
        }
        if has_entry(ec, name) {
            lemma_first_entry_exists(ec, name);
            let ic = choose|i: int| first_entry(ec, name, i);
            let ia = choose|i: int| first_entry(ea, name, i);
            assert(ea[ic].0 == ec[ic].0);
            assert forall|j: int| 0 <= j < ic implies #[trigger] ea[j].0@ != name by {
                assert(ea[j].0 == ec[j].0);
            }
            assert(first_entry(ea, name, ic));
            lemma_first_entry_unique(ea, name, ia, ic);
        } else if level > 0 {
            let ka = once.nested_corresp_keys@;
            let kc = c.nested_corresp_keys@;
            assert forall|i: int| first_keys(ka, name, i) <==> first_keys(kc, name, i) by {
                if 0 <= i < ka.len() {
                    assert(ka[i]@ == kc[i]@);
                    if first_keys(ka, name, i) {
                        assert forall|j: int| 0 <= j < i implies !names_have(#[trigger] kc[j]@, name) by {
                            assert(ka[j]@ == kc[j]@);
                            assert(!names_have(ka[j]@, name));
                        }
                    }
                    if first_keys(kc, name, i) {
                        assert forall|j: int| 0 <= j < i implies !names_have(#[trigger] ka[j]@, name) by {
                            assert(ka[j]@ == kc[j]@);
                            assert(!names_have(kc[j]@, name));
                        }
                    }
                }
            }
            if exists|i: int| first_keys(kc, name, i) {
                let ic = choose|i: int| first_keys(kc, name, i);
                let ia = choose|i: int| first_keys(ka, name, i);
                assert(first_keys(ka, name, ic));
                lemma_first_keys_unique(ka, name, ia, ic);
                if 0 <= ic < c.nested_corresp@.len() {
                    if ic != index {
                        assert(once.nested_corresp@[ic] == dup.nested_corresp@[ic]);
                        assert(copy_of(dup.nested_corresp@[ic], c.nested_corresp@[ic]));
                        lemma_copy_same_lookup(dup.nested_corresp@[ic], c.nested_corresp@[ic]);
                        assert(get_spec(dup.nested_corresp@[ic], name, (level - 1) as nat) == get_spec(
                            c.nested_corresp@[ic],
                            name,
                            (level - 1) as nat,
                        ));
                    } else {
                        let o = once.nested_corresp@[index];
                        let d = dup.nested_corresp@[index];
                        let cn = c.nested_corresp@[index];
                        let l1 = (level - 1) as nat;
                        assert(copy_of(d, cn));
                        let eo = o.entries@;
                        let en = cn.entries@;
                        if has_entry(eo, name) {
                            let k = choose|k: int| 0 <= k < eo.len() && #[trigger] eo[k].0@ == name;
                            assert(eo[k].0 == en[k].0);
                        }
                        if has_entry(en, name) {
                            let k = choose|k: int| 0 <= k < en.len() && #[trigger] en[k].0@ == name;
                            assert(eo[k].0 == en[k].0);
                        }
                        if has_entry(en, name) {
                            lemma_first_entry_exists(en, name);
                            let jc = choose|i: int| first_entry(en, name, i);
                            let jo = choose|i: int| first_entry(eo, name, i);
                            assert(eo[jc].0 == en[jc].0);
                            assert forall|j: int| 0 <= j < jc implies #[trigger] eo[j].0@ != name by {
                                assert(eo[j].0 == en[j].0);
                            }
                            assert(first_entry(eo, name, jc));
                            lemma_first_entry_unique(eo, name, jo, jc);
                        } else if l1 > 0 {
                            let ko = o.nested_corresp_keys@;
                            let kn = cn.nested_corresp_keys@;
                            assert forall|i: int| first_keys(ko, name, i) <==> first_keys(kn, name, i) by {
                                if 0 <= i < ko.len() {
                                    assert(ko[i]@ == kn[i]@);
                                    if first_keys(ko, name, i) {
                                        assert forall|j: int| 0 <= j < i implies !names_have(
                                            #[trigger] kn[j]@,
                                            name,
                                        ) by {
                                            assert(ko[j]@ == kn[j]@);
                                            assert(!names_have(ko[j]@, name));
                                        }
                                    }
                                    if first_keys(kn, name, i) {
                                        assert forall|j: int| 0 <= j < i implies !names_have(
                                            #[trigger] ko[j]@,
                                            name,
                                        ) by {
                                            assert(ko[j]@ == kn[j]@);
                                            assert(!names_have(kn[j]@, name));
                                        }
                                    }
                                }
                            }
                            if exists|i: int| first_keys(kn, name, i) {
                                let jc = choose|i: int| first_keys(kn, name, i);
                                let jo = choose|i: int| first_keys(ko, name, i);
                                assert(first_keys(ko, name, jc));
                                lemma_first_keys_unique(ko, name, jo, jc);
                                if 0 <= jc < cn.nested_corresp@.len() {
                                    assert(copy_of(d.nested_corresp@[jc], cn.nested_corresp@[jc]));
                                    lemma_copy_same_lookup(d.nested_corresp@[jc], cn.nested_corresp@[jc]);
                                    assert(get_spec(d.nested_corresp@[jc], name, (l1 - 1) as nat) == get_spec(
                                        cn.nested_corresp@[jc],
                                        name,
                                        (l1 - 1) as nat,
                                    ));
                                }
                            }
                        }
                    }
                }
            }
        }
    }
}

/// The body of a macro entry with its variables replaced by what they
/// matched: a variable by its tokens (or kept as a variable when it matched
/// nothing), and a repetition once for each time it matched, with the
/// variables of that time.
#[verifier::rlimit(50)]
pub fn replace_body_variables(
    body: &Vec<MacroFragment>,
    correspondances: &Correspondance,
    correspondance_level: usize,
) -> (res: Result<Vec<Token>, ParseError>)
    ensures
        (forall|i: int| 0 <= i < body@.len() ==> !(#[trigger] body@[i] is Repetition)) ==> res is Ok,
        (forall|i: int| 0 <= i < body@.len() ==> #[trigger] body@[i] is Token) ==> (res matches Ok(
            tokens,
        ) && tokens@ == fragment_tokens(body@)),
        correspondance_level == 0 && entries_sorted(correspondances.entries@) && (forall|i: int|
            0 <= i < body@.len() ==> !(#[trigger] body@[i] is Repetition)) ==> (res matches Ok(
            tokens,
        ) && tokens@ == body_tokens(body@, correspondances.entries@)),
        (forall|i: int| 0 <= i < body@.len() ==> !(#[trigger] body@[i] is Repetition)) ==> (
        res matches Ok(tokens) && tokens@ == body_tokens_at(
            body@,
            *correspondances,
            correspondance_level as nat,
        )),
        body@.len() == 1 && body@[0] is Repetition && no_repetition(body@[0]->Repetition_0@)
            && correspondance_level < usize::MAX ==> (res matches Ok(tokens) ==> exists|index: int|
            repetition_at(*correspondances, body@[0]->Repetition_0@, index) && tokens@ == rep_concat(
                body@[0]->Repetition_0@,
                *correspondances,
                index,
                correspondances.nested_corresp@[index].entries@[0].1@.len(),
                (correspondance_level + 1) as nat,
            )),
        body@.len() == 1 && body@[0] is Repetition && no_repetition(body@[0]->Repetition_0@)
            && correspondance_level < usize::MAX && (exists|index: int|
            repetition_at(*correspondances, body@[0]->Repetition_0@, index) && forall|k: int|
                0 <= k < correspondances.nested_corresp@[index].entries@.len()
                    ==> #[trigger] correspondances.nested_corresp@[index].entries@[k].1@.len()
                    >= correspondances.nested_corresp@[index].entries@[0].1@.len()) ==> res is Ok,
    decreases body@,
{
    let mut res: Vec<Token> = Vec::new();
    let mut i: usize = 0;
    let ghost single = body@.len() == 1 && body@[0] is Repetition && no_repetition(
        body@[0]->Repetition_0@,
    ) && correspondance_level < usize::MAX;
    let ghost good = single && exists|index: int|
        repetition_at(*correspondances, body@[0]->Repetition_0@, index) && forall|k: int|
            0 <= k < correspondances.nested_corresp@[index].entries@.len()
                ==> #[trigger] correspondances.nested_corresp@[index].entries@[k].1@.len()
                >= correspondances.nested_corresp@[index].entries@[0].1@.len();
    assert(body@.take(0) =~= Seq::<MacroFragment>::empty());
    while i < body.len()
        invariant
            i <= body@.len(),
            i == 0 ==> res@.len() == 0,
            single == (body@.len() == 1 && body@[0] is Repetition && no_repetition(
                body@[0]->Repetition_0@,
            ) && correspondance_level < usize::MAX),
            good == (single && exists|index: int|
                repetition_at(*correspondances, body@[0]->Repetition_0@, index)
                    && forall|k: int|
                    0 <= k < correspondances.nested_corresp@[index].entries@.len()
                        ==> #[trigger] correspondances.nested_corresp@[index].entries@[k].1@.len()
                        >= correspondances.nested_corresp@[index].entries@[0].1@.len()),
            single ==> body@.len() == 1 && body@[0] is Repetition && no_repetition(
                body@[0]->Repetition_0@,
            ) && correspondance_level < usize::MAX,
            good ==> single && exists|index: int|
                repetition_at(*correspondances, body@[0]->Repetition_0@, index) && forall|k: int|
                    0 <= k < correspondances.nested_corresp@[index].entries@.len()
                        ==> #[trigger] correspondances.nested_corresp@[index].entries@[k].1@.len()
                        >= correspondances.nested_corresp@[index].entries@[0].1@.len(),
            single && i == 1 ==> exists|index: int|
                repetition_at(*correspondances, body@[0]->Repetition_0@, index) && res@ == rep_concat(
                    body@[0]->Repetition_0@,
                    *correspondances,
                    index,
                    correspondances.nested_corresp@[index].entries@[0].1@.len(),
                    (correspondance_level + 1) as nat,
                ),
            (forall|k: int| 0 <= k < body@.len() ==> #[trigger] body@[k] is Token) ==> res@
                == fragment_tokens(body@.take(i as int)),
            correspondance_level == 0 && entries_sorted(correspondances.entries@) && (forall|k: int|
                0 <= k < body@.len() ==> !(#[trigger] body@[k] is Repetition)) ==> res@
                == body_tokens(body@.take(i as int), correspondances.entries@),
            (forall|k: int| 0 <= k < body@.len() ==> !(#[trigger] body@[k] is Repetition)) ==> res@
                == body_tokens_at(body@.take(i as int), *correspondances, correspondance_level as nat),
        decreases body@.len() - i,
    {
        assert(body@.take(i + 1).drop_last() =~= body@.take(i as int));
        match &body[i] {
            MacroFragment::Ident(name) => {
                match correspondances.get(name.name.as_str(), correspondance_level) {
                    Some(mut tokens) => {
                        res.append(&mut tokens);
                    },
                    None => {
                        res.push(
                            Token {
                                token_type: TokenType::MacroVar(name.name.clone()),
                                span: name.span.clone(),
                            },
                        );
                    },
                }
            },
            MacroFragment::Token(token) => {
                res.push(token.clone());
            },
            MacroFragment::Repetition(repetition) => {
                assert(body@[i as int] is Repetition);
                let names = repetition_names(repetition);
                let index = match find_nested(correspondances, &names) {
                    Some(index) => index,
                    None => {
                        return Err(
                            crate::parser::util::parse_error::no_correspondance("repetition"),
                        );
                    },
                };
                let nested = &correspondances.nested_corresp[index];
                proof {
                    if single {
                        assert(names@.map_values(|n: String| n@) == variable_names(repetition@));
                    }
                    if good {
                        let ix = choose|ix: int|
                            repetition_at(*correspondances, body@[0]->Repetition_0@, ix) && forall|k: int|
                                0 <= k < correspondances.nested_corresp@[ix].entries@.len()
                                    ==> #[trigger] correspondances.nested_corresp@[ix].entries@[k].1@.len()
                                    >= correspondances.nested_corresp@[ix].entries@[0].1@.len();
                        assert(ix == index);
                    }
                }
                if nested.entries.len() == 0 {
                    return Err(crate::parser::util::parse_error::no_correspondance("repetition"));
                }
                let times = nested.entries[0].1.len();
                let ghost cval = *correspondances;
                let ghost lv = (correspondance_level + 1) as nat;
                proof {
                    if single {
                        assert(repetition_at(cval, repetition@, index as int));
                    }
                }
                let mut n: usize = 0;
                while n < times
                    invariant
                        n <= times,
                        i < body@.len(),
                        body@[i as int] is Repetition,
                        body@[i as int]->Repetition_0 == *repetition,
                        index < correspondances.nested_corresp@.len(),
                        nested == correspondances.nested_corresp@[index as int],
                        cval == *correspondances,
                        times == nested.entries@[0].1@.len(),
                        nested.entries@.len() > 0,
                        single ==> i == 0 && no_repetition(repetition@) && correspondance_level
                            < usize::MAX && lv == correspondance_level + 1,
                        single ==> res@ == rep_concat(repetition@, cval, index as int, n as nat, lv),
                        good ==> forall|k: int|
                            0 <= k < nested.entries@.len() ==> #[trigger] nested.entries@[k].1@.len()
                                >= times,
                        single == (body@.len() == 1 && body@[0] is Repetition && no_repetition(
                            body@[0]->Repetition_0@,
                        ) && correspondance_level < usize::MAX),
                        good == (single && exists|index: int|
                            repetition_at(*correspondances, body@[0]->Repetition_0@, index)
                                && forall|k: int|
                                0 <= k < correspondances.nested_corresp@[index].entries@.len()
                                    ==> #[trigger] correspondances.nested_corresp@[index].entries@[k].1@.len()
                                    >= correspondances.nested_corresp@[index].entries@[0].1@.len()),
                    decreases times - n,
                {
                    let mut once = correspondances.duplicate();
                    let ghost dup = once;
                    let mut inner = once.nested_corresp.remove(index);
                    proof {
                        if good {
                            assert forall|k: int| 0 <= k < nested.entries@.len() implies !(
                            #[trigger] nested.entries@[k].1@.len() <= n) by {}
                        }
                    }
                    let picked = nth_of_each(&nested.entries, n)?;
                    let ghost picked_view = picked@;
                    inner.entries = picked;
                    once.nested_corresp.insert(index, inner);
                    proof {
                        assert(once.nested_corresp@[index as int].entries@ == picked_view);
                        let k = i as int;
                        assert(decreases_to!(body@ => body@[k]));
                        assert(decreases_to!(body@[k] => body@[k]->Repetition_0));
                        assert(decreases_to!(*repetition => repetition@));
                        assert(decreases_to!(body@ => repetition@));
                        assert(once.nested_corresp@ =~= dup.nested_corresp@.update(
                            index as int,
                            once.nested_corresp@[index as int],
                        ));
                        lemma_once_lookup_picked(cval, dup, once, index as int, n as int, lv, picked_view);
                    }
                    let ghost before = res@;
                    let mut part = replace_body_variables(
                        repetition,
                        &once,
                        correspondance_level.saturating_add(1),
                    )?;
                    res.append(&mut part);
                    proof {
                        if single {
                            let f1 = |name: Seq<char>| get_spec(once, name, lv);
                            let f2 = |name: Seq<char>| rep_lookup(cval, index as int, n as int, name, lv);
                            assert(f1 =~= f2);
                            let f3 = |name: Seq<char>| rep_lookup(
                                cval,
                                index as int,
                                (n + 1) as nat - 1,
                                name,
                                lv,
                            );
                            assert(f2 =~= f3);
                            assert(rep_concat(repetition@, cval, index as int, (n + 1) as nat, lv)
                                == rep_concat(repetition@, cval, index as int, n as nat, lv)
                                + body_tokens_with(repetition@, f3));
                        }
                    }
                    n = n + 1;
                }
            },
        }
        i = i + 1;
    }
    assert(body@.take(i as int) =~= body@);
    Ok(res)
}

/// The tokens of a body without repetitions once matched by the pattern
/// `p` (without repetitions) on `args`: each variable of the pattern by the
/// arguments it bound, any other variable kept as a variable.
pub open spec fn expansion_tokens(body: Seq<MacroFragment>, p: Seq<MacroFragment>, args: Seq<Token>) -> Seq<Token>
    decreases body.len(),
{
    if body.len() == 0 {
        Seq::empty()
    } else {
        expansion_tokens(body.drop_last(), p, args) + match body.last() {
            MacroFragment::Token(t) => seq![t],
            MacroFragment::Ident(id) => if binds_name_before(p, p.len() as int, id.name@) {
                bound_by(p, args, p.len() as int, id.name@)
            } else {
                seq![Token { token_type: TokenType::MacroVar(id.name), span: id.span }]
            },
            MacroFragment::Repetition(_) => Seq::empty(),
        }
    }
}

/// A body replaced with what a plain pattern matched is its expansion.
pub proof fn lemma_body_tokens_matched(
    body: Seq<MacroFragment>,
    c: Correspondance,
    p: Seq<MacroFragment>,
    args: Seq<Token>,
)
    requires
        matched_plain(c, p, args, p.len() as int),
    ensures
        body_tokens(body, c.entries@) == expansion_tokens(body, p, args),
    decreases body.len(),
{
    if body.len() > 0 {
        lemma_body_tokens_matched(body.drop_last(), c, p, args);
        if let MacroFragment::Ident(id) = body.last() {
            assert(has_entry(c.entries@, id.name@) == binds_name_before(p, p.len() as int, id.name@));
            assert(tokens_for(c.entries@, id.name@) == bound_by(p, args, p.len() as int, id.name@));
        }
    }
}

/// Parsing `ts` as a program can give the top levels `tls`.
pub open spec fn parses_to<'a>(ts: Seq<Token>, tls: Seq<TopLevel>) -> bool {
    exists|s: &'a [Token], c: &mut ParseCtx, r: Result<(Program, &'a [Token]), Diagnostics>|
        s@ == ts && #[trigger] Program::parse.ensures((s, c), r) && (r matches Ok((prog, _))
            && prog.module.top_levels@ == tls)
}

/// The entries of a macro whose patterns match `args`, in order, give the
/// top levels `parts`, one part each: the program that its expansion parses
/// to.
pub open spec fn expanded_as(entries: Seq<MacroEntry>, args: Seq<Token>, parts: Seq<Seq<TopLevel>>) -> bool
    decreases entries.len(),
{
    if entries.len() == 0 {
        parts.len() == 0
    } else if plain_match_succeeds(entries.last().defs@, args, true) {
        &&& parts.len() > 0
        &&& expanded_as(entries.drop_last(), args, parts.drop_last())
        &&& parses_to(
            expansion_tokens(entries.last().body@, entries.last().defs@, args),
            parts.last(),
        )
    } else {
        expanded_as(entries.drop_last(), args, parts)
    }
}

/// Every entry of `entries` has a pattern and a body without repetitions.
pub open spec fn plain_entries(entries: Seq<MacroEntry>) -> bool {
    forall|i: int|
        0 <= i < entries.len() ==> plain_pattern(#[trigger] entries[i].defs@) && no_repetition(
            entries[i].body@,
        )
}

/// Parsing the tokens `ts` as a program cannot fail and gives at least one
/// top level: each line is a top level that always reads, there is one, and
/// no end of file comes before the last token.
pub open spec fn expansion_parses(ts: Seq<Token>) -> bool {
    top_lines_never_fail(ts, 0) && eof_only_last(ts) && has_top_line(ts)
}

/// An invocation of `decl` with `args` expands: its entries have patterns
/// and bodies without repetitions, one of them matches, and the expansion
/// of each that matches parses.
pub open spec fn expand_ok(decl: MacroDecl, args: Seq<Token>) -> bool {
    &&& plain_entries(decl.entries@)
    &&& exists|i: int|
        0 <= i < decl.entries@.len() && #[trigger] plain_match_succeeds(
            decl.entries@[i].defs@,
            args,
            true,
        )
    &&& forall|i: int|
        0 <= i < decl.entries@.len() && #[trigger] plain_match_succeeds(
            decl.entries@[i].defs@,
            args,
            true,
        ) ==> expansion_parses(
            expansion_tokens(decl.entries@[i].body@, decl.entries@[i].defs@, args),
        )
}

/// The top levels that an invocation of `macro_decl` with `args` stands for:
/// those of the body of each entry whose pattern matches the arguments, its
/// variables replaced. No entry matching is an error.
pub fn expand_top_level(macro_decl: &MacroDecl, args: &Vec<Token>) -> (res: Result<
    Vec<TopLevel>,
    Diagnostics,
>)
    ensures
        res matches Ok(top_levels) ==> top_levels@.len() > 0,
        res matches Err(d) ==> d.errors@.len() > 0,
        (forall|i: int|
            0 <= i < macro_decl.entries@.len() ==> plain_pattern(
                #[trigger] macro_decl.entries@[i].defs@,
            ) && !plain_match_succeeds(macro_decl.entries@[i].defs@, args@, true)) ==> (res matches Err(
            d,
        ) && d.errors@ == seq![ParseError::MacroNoCorrespondance(macro_decl.name)]),
        plain_entries(macro_decl.entries@) ==> (res matches Ok(top_levels) ==> exists|
            parts: Seq<Seq<TopLevel>>,
        |
            #[trigger] expanded_as(macro_decl.entries@, args@, parts)
                && top_levels@ == parts.flatten()),
        expand_ok(*macro_decl, args@) ==> res is Ok,
{
    let mut top_levels: Vec<TopLevel> = Vec::new();
    let mut i: usize = 0;
    let ghost mut parts: Seq<Seq<TopLevel>> = Seq::empty();
    let ghost good = expand_ok(*macro_decl, args@);
    proof {
        assert(macro_decl.entries@.take(0) =~= Seq::<MacroEntry>::empty());
    }
    while i < macro_decl.entries.len()
        invariant
            i <= macro_decl.entries@.len(),
            plain_entries(macro_decl.entries@) ==> expanded_as(
                macro_decl.entries@.take(i as int),
                args@,
                parts,
            ) && top_levels@ == parts.flatten(),
            (forall|k: int|
                0 <= k < macro_decl.entries@.len() ==> plain_pattern(
                    #[trigger] macro_decl.entries@[k].defs@,
                ) && !plain_match_succeeds(macro_decl.entries@[k].defs@, args@, true))
                ==> top_levels@.len() == 0,
            good == expand_ok(*macro_decl, args@),
            good && (exists|j: int|
                0 <= j < i && #[trigger] plain_match_succeeds(
                    macro_decl.entries@[j].defs@,
                    args@,
                    true,
                )) ==> top_levels@.len() > 0,
        decreases macro_decl.entries@.len() - i,
    {
        let entry = &macro_decl.entries[i];
        let ghost taken = macro_decl.entries@.take(i + 1);
        proof {
            assert(taken.drop_last() =~= macro_decl.entries@.take(i as int));
            assert(taken.last() == macro_decl.entries@[i as int]);
        }
        let mut matcher = MacroArgMatcher::new(args.as_slice(), entry.defs.as_slice());
        let correspondances = match matcher.run() {
            Ok(correspondances) => correspondances,
            Err(_) => {
                proof {
                    if plain_entries(macro_decl.entries@) {
                        assert(plain_pattern(macro_decl.entries@[i as int].defs@));
                        assert(!plain_match_succeeds(entry.defs@, args@, true));
                        assert(expanded_as(taken, args@, parts));
                    }
                }
                i = i + 1;
                continue ;
            },
        };
        let body = match replace_body_variables(&entry.body, &correspondances, 0) {
            Ok(body) => body,
            Err(e) => {
                return Err(Diagnostics::from_error(e));
            },
        };
        proof {
            if plain_entries(macro_decl.entries@) {
                assert(plain_pattern(macro_decl.entries@[i as int].defs@));
                assert(no_repetition(entry.body@));
                lemma_body_tokens_matched(entry.body@, correspondances, entry.defs@, args@);
            }
        }
        let config = Config::default();
        let mut parse_ctx = ParseCtx::new(&config);
        proof {
            if good {
                assert(plain_match_succeeds(entry.defs@, args@, true));
                assert(expansion_parses(expansion_tokens(entry.body@, entry.defs@, args@)));
            }
        }
        let (program, program_rest) = Program::parse(body.as_slice(), &mut parse_ctx)?;
        let ghost tl = program.module.top_levels@;
        let mut expanded = program.module.top_levels;
        top_levels.append(&mut expanded);
        proof {
            if good {
                assert(plain_match_succeeds(entry.defs@, args@, true));
                assert(expansion_parses(expansion_tokens(entry.body@, entry.defs@, args@)));
                lemma_lines_give_some(body@, 0, tl, program_rest@);
            }
            if plain_entries(macro_decl.entries@) {
                assert(parses_to(body@, tl));
                let before = parts;
                before.lemma_flatten_push(tl);
                parts = before.push(tl);
                assert(parts.drop_last() =~= before);
                assert(parts.last() == tl);
                assert(expanded_as(taken, args@, parts));
            }
        }
        i = i + 1;
    }
    proof {
        assert(macro_decl.entries@.take(i as int) =~= macro_decl.entries@);
    }
    if top_levels.len() == 0 {
        return Err(
            Diagnostics::from_error(ParseError::MacroNoCorrespondance(macro_decl.name.clone())),
        );
    }
    Ok(top_levels)
}

/// The invocation at `index` and what it expands with, if it is listed.
fn find_invocation(decls: &Vec<(usize, MacroDecl, Vec<Token>)>, index: usize) -> (res: Option<usize>)
    ensures
        res matches Some(k) ==> first_listed(decls@, index as int, k as int),
        res is None ==> forall|k: int| 0 <= k < decls@.len() ==> #[trigger] decls@[k].0 != index,
{
    let mut k: usize = 0;
    while k < decls.len()
        invariant
            k <= decls@.len(),
            forall|j: int| 0 <= j < k ==> #[trigger] decls@[j].0 != index,
        decreases decls@.len() - k,
    {
        if decls[k].0 == index {
            return Some(k);
        }
        k = k + 1;
    }
    None
}

/// `k` is the first position of `decls` listed for the top level at `index`.
pub open spec fn first_listed(decls: Seq<(usize, MacroDecl, Vec<Token>)>, index: int, k: int) -> bool {
    &&& 0 <= k < decls.len()
    &&& decls[k].0 == index
    &&& forall|j: int| 0 <= j < k ==> #[trigger] decls[j].0 != index
}

/// The invocation at `i` is listed in `decls`, and no entry of the first
/// declaration listed for it matches its arguments.
pub open spec fn unmatched_at(initial: Seq<TopLevel>, decls: Seq<(usize, MacroDecl, Vec<Token>)>, i: int) -> bool {
    exists|k: int|
        #[trigger] first_listed(decls, i, k) && is_listed(initial, decls, i) && no_entry_matches(
            decls[k].1,
            decls[k].2@,
        )
}

/// Each invocation of `initial` listed in `decls` expands, with the first
/// declaration listed for it.
pub open spec fn listed_expand(initial: Seq<TopLevel>, decls: Seq<(usize, MacroDecl, Vec<Token>)>) -> bool {
    forall|i: int, k: int|
        #![trigger first_listed(decls, i, k)]
        0 <= i < initial.len() && is_listed(initial, decls, i) && first_listed(decls, i, k)
            ==> expand_ok(decls[k].1, decls[k].2@)
}

/// The top level at `index` is an invocation listed in `decls`.
pub open spec fn is_listed(initial: Seq<TopLevel>, decls: Seq<(usize, MacroDecl, Vec<Token>)>, index: int) -> bool {
    &&& is_invocation(initial[index])
    &&& exists|k: int| 0 <= k < decls.len() && #[trigger] decls[k].0 == index
}

/// `parts` gives, for each top level of `initial`, what stands for it in
/// `result`: the top level itself, or the nonempty expansion of a listed
/// invocation.
pub open spec fn expansion_parts(
    initial: Seq<TopLevel>,
    decls: Seq<(usize, MacroDecl, Vec<Token>)>,
    parts: Seq<Seq<TopLevel>>,
    result: Seq<TopLevel>,
) -> bool {
    &&& parts.len() == initial.len()
    &&& parts.flatten_alt() == result
    &&& forall|i: int|
        #![trigger parts[i]]
        0 <= i < parts.len() ==> if is_listed(initial, decls, i) {
            parts[i].len() > 0
        } else {
            parts[i] == seq![initial[i]]
        }
    &&& forall|i: int, k: int|
        #![trigger first_listed(decls, i, k)]
        0 <= i < parts.len() && is_listed(initial, decls, i) && first_listed(decls, i, k)
            && plain_entries(decls[k].1.entries@) ==> exists|sub: Seq<Seq<TopLevel>>|
            #[trigger] expanded_as(decls[k].1.entries@, decls[k].2@, sub) && parts[i] == sub.flatten()
}

/// The program with each listed invocation (by its position) replaced by
/// what it expands to; the other top levels are kept, in order.
#[verifier::rlimit(50)]
pub fn expand_macros_once(program: Program, decls: &Vec<(usize, MacroDecl, Vec<Token>)>) -> (res: Result<
    Program,
    Diagnostics,
>)
    ensures
        res matches Ok(p) ==> p.module.name == program.module.name && p.module.filepath
            == program.module.filepath && p.module.is_inline == program.module.is_inline,
        (forall|i: int|
            0 <= i < program.module.top_levels@.len() ==> !is_invocation(
                #[trigger] program.module.top_levels@[i],
            )) ==> (res matches Ok(p) && p.module.top_levels@ == program.module.top_levels@),
        res matches Ok(p) ==> exists|parts: Seq<Seq<TopLevel>>|
            #[trigger] expansion_parts(program.module.top_levels@, decls@, parts, p.module.top_levels@),
        res matches Err(d) ==> d.errors@.len() > 0,
        listed_expand(program.module.top_levels@, decls@) ==> res is Ok,
        (exists|i: int| 0 <= i < program.module.top_levels@.len() && #[trigger] unmatched_at(
            program.module.top_levels@,
            decls@,
            i,
        )) ==> res is Err,
{
    let Program { module } = program;
    let Module { name, top_levels, is_inline, filepath, comment } = module;
    let ghost initial = top_levels@;
    let mut remaining = top_levels;
    let total: usize = remaining.len();
    let mut expanded: Vec<TopLevel> = Vec::new();
    let mut index: usize = 0;
    let ghost mut parts: Seq<Seq<TopLevel>> = Seq::empty();
    while remaining.len() > 0
        invariant
            index + remaining@.len() == initial.len(),
            initial.len() == total,
            initial == program.module.top_levels@,
            remaining@ == initial.skip(index as int),
            (forall|i: int| 0 <= i < initial.len() ==> !is_invocation(#[trigger] initial[i]))
                ==> expanded@ == initial.take(index as int),
            parts.len() == index,
            parts.flatten_alt() == expanded@,
            forall|i: int|
                #![trigger parts[i]]
                0 <= i < index ==> if is_listed(initial, decls@, i) {
                    parts[i].len() > 0
                } else {
                    parts[i] == seq![initial[i]]
                },
            forall|i: int| 0 <= i < index ==> !#[trigger] unmatched_at(initial, decls@, i),
            forall|i: int, k: int|
                #![trigger first_listed(decls@, i, k)]
                0 <= i < index && is_listed(initial, decls@, i) && first_listed(decls@, i, k)
                    && plain_entries(decls@[k].1.entries@) ==> exists|sub: Seq<Seq<TopLevel>>|
                    #[trigger] expanded_as(decls@[k].1.entries@, decls@[k].2@, sub) && parts[i]
                        == sub.flatten(),
        decreases remaining@.len(),
    {
        let top_level = remaining.remove(0);
        assert(top_level == initial[index as int]);
        assert(is_invocation(initial[index as int]) == (top_level.kind is MacroInvoc));
        let is_macro_invocation = match &top_level.kind {
            TopLevelKind::MacroInvoc(_) => true,
            _ => false,
        };
        let listed = if is_macro_invocation {
            find_invocation(decls, index)
        } else {
            None
        };
        let ghost before = expanded@;
        let ghost before_parts = parts;
        match listed {
            Some(k) => {
                assert(is_invocation(initial[index as int]));
                let mut produced = expand_top_level(&decls[k].1, &decls[k].2)?;
                proof {
                    if unmatched_at(initial, decls@, index as int) {
                        let k2 = choose|k2: int| #[trigger] first_listed(decls@, index as int, k2)
                            && is_listed(initial, decls@, index as int) && no_entry_matches(
                            decls@[k2].1,
                            decls@[k2].2@,
                        );
                        if k2 < k as int {
                            assert(decls@[k2].0 != index);
                        }
                        if k2 > k as int {
                            assert(decls@[k as int].0 != index);
                        }
                        assert(k2 == k as int);
                        assert(no_entry_matches(decls@[k as int].1, decls@[k as int].2@));
                        assert(false);
                    }
                }
                let ghost part = produced@;
                expanded.append(&mut produced);
                proof {
                    assert(is_listed(initial, decls@, index as int));
                    parts = parts.push(part);
                    assert(parts.drop_last() =~= before_parts);
                    assert forall|i: int, k2: int|
                        #![trigger first_listed(decls@, i, k2)]
                        0 <= i < index + 1 && is_listed(initial, decls@, i) && first_listed(
                            decls@,
                            i,
                            k2,
                        ) && plain_entries(decls@[k2].1.entries@) implies exists|
                        sub: Seq<Seq<TopLevel>>,
                    |
                        #[trigger] expanded_as(decls@[k2].1.entries@, decls@[k2].2@, sub)
                            && parts[i] == sub.flatten() by {
                        if i < index {
                            assert(parts[i] == before_parts[i]);
                        } else {
                            assert(k2 == k as int);
                        }
                    }
                }
            },
            None => {
                proof {
                    if is_invocation(initial[index as int]) {
                        assert(!is_listed(initial, decls@, index as int));
                    }
                    assert(!is_listed(initial, decls@, index as int));
                    assert(!unmatched_at(initial, decls@, index as int));
                    parts = parts.push(seq![top_level]);
                    assert(parts.drop_last() =~= before_parts);
                    assert forall|i: int, k2: int|
                        #![trigger first_listed(decls@, i, k2)]
                        0 <= i < index + 1 && is_listed(initial, decls@, i) && first_listed(
                            decls@,
                            i,
                            k2,
                        ) && plain_entries(decls@[k2].1.entries@) implies exists|
                        sub: Seq<Seq<TopLevel>>,
                    |
                        #[trigger] expanded_as(decls@[k2].1.entries@, decls@[k2].2@, sub)
                            && parts[i] == sub.flatten() by {
                        if i < index {
                            assert(parts[i] == before_parts[i]);
                        } else {
                            if is_listed(initial, decls@, i) && first_listed(decls@, i, k2) {
                                assert(decls@[k2].0 != index);
                            }
                        }
                    }
                }
                expanded.push(top_level);
                assert(expanded@ =~= before + seq![initial[index as int]]);
            },
        }
        index = index + 1;
        assert(remaining@ =~= initial.skip(index as int));
        assert(initial.take(index as int).drop_last() =~= initial.take(index - 1));
    }
    assert(initial.take(index as int) =~= initial);
    assert(expansion_parts(initial, decls@, parts, expanded@));
    let result = Program { module: Module { name, top_levels: expanded, is_inline, filepath, comment } };
    assert(expansion_parts(program.module.top_levels@, decls@, parts, result.module.top_levels@));
    Ok(result)
}

/// No top level of `tls` is an invocation.
pub open spec fn invocation_free(tls: Seq<TopLevel>) -> bool {
    forall|i: int| 0 <= i < tls.len() ==> !is_invocation(#[trigger] tls[i])
}

/// `j` is the first top level of `p` named `name`.
pub open spec fn resolves(p: Program, name: Seq<char>, j: int) -> bool {
    &&& 0 <= j < p.module.top_levels@.len()
    &&& p.module.top_levels@[j].ident.name@ == name
    &&& forall|k: int| 0 <= k < j ==> #[trigger] p.module.top_levels@[k].ident.name@ != name
}

/// The top level at `i` invokes the macro declared at `j`: the first top
/// level named as the invocation is that declaration.
pub open spec fn invoc_decl(p: Program, i: int, j: int) -> bool {
    &&& 0 <= i < p.module.top_levels@.len()
    &&& p.module.top_levels@[i].kind matches TopLevelKind::MacroInvoc(inv) && resolves(
        p,
        inv.name.name@,
        j,
    )
    &&& p.module.top_levels@[j].kind is MacroDecl
}

/// The arguments of the invocation at `i`.
pub open spec fn invoc_args(p: Program, i: int) -> Seq<Token> {
    p.module.top_levels@[i].kind->MacroInvoc_0.args@
}

/// The declaration at `j`.
pub open spec fn decl_at(p: Program, j: int) -> MacroDecl {
    p.module.top_levels@[j].kind->MacroDecl_0
}

/// `a` is a copy of `b`: the same entries, fragment by fragment.
pub open spec fn copy_decl(a: MacroDecl, b: MacroDecl) -> bool {
    &&& a.entries@.len() == b.entries@.len()
    &&& forall|e: int|
        0 <= e < b.entries@.len() ==> same_fragments(#[trigger] b.entries@[e].defs@, a.entries@[e].defs@)
            && same_fragments(b.entries@[e].body@, a.entries@[e].body@)
}

/// The `k`-th of `decls` is an invocation of `p` of a declared macro, with
/// a copy of the declaration and the invocation's arguments.
pub open spec fn listed_well(p: Program, decls: Seq<(usize, MacroDecl, Vec<Token>)>, k: int) -> bool {
    exists|j: int|
        #[trigger] invoc_decl(p, decls[k].0 as int, j) && copy_decl(decls[k].1, decl_at(p, j))
            && decls[k].2@ == invoc_args(p, decls[k].0 as int)
}

/// `decls` lists, in order of position, each invocation of `p` whose name
/// is that of a macro declaration, with a copy of that declaration and the
/// invocation's arguments.
pub open spec fn lists_invocations(p: Program, decls: Seq<(usize, MacroDecl, Vec<Token>)>) -> bool {
    &&& forall|k: int| 0 <= k < decls.len() ==> #[trigger] listed_well(p, decls, k)
    &&& forall|k1: int, k2: int|
        0 <= k1 < k2 < decls.len() ==> #[trigger] decls[k1].0 < #[trigger] decls[k2].0
    &&& forall|i: int, j: int|
        #[trigger] invoc_decl(p, i, j) ==> exists|k: int|
            0 <= k < decls.len() && #[trigger] decls[k].0 == i
}

/// No entry of `decl` matches `args`, and all of them have patterns without
/// repetitions.
pub open spec fn no_entry_matches(decl: MacroDecl, args: Seq<Token>) -> bool {
    forall|e: int|
        0 <= e < decl.entries@.len() ==> plain_pattern(#[trigger] decl.entries@[e].defs@)
            && !plain_match_succeeds(decl.entries@[e].defs@, args, true)
}

/// Whatever the expansion of each matching entry of `decl` parses to holds
/// no invocation.
pub open spec fn stays_plain(decl: MacroDecl, args: Seq<Token>) -> bool {
    forall|e: int|
        0 <= e < decl.entries@.len() && plain_match_succeeds(#[trigger] decl.entries@[e].defs@, args, true)
            ==> parses_plain(
            expansion_tokens(decl.entries@[e].body@, decl.entries@[e].defs@, args),
        )
}

/// Whatever parsing `ts` as a program gives holds no invocation.
pub open spec fn parses_plain(ts: Seq<Token>) -> bool {
    forall|s: &[Token], c: &mut ParseCtx, r: Result<(Program, &[Token]), Diagnostics>|
        s@ == ts && #[trigger] Program::parse.ensures((s, c), r) && r is Ok ==> invocation_free(
            r->Ok_0.0.module.top_levels@,
        )
}

/// Every invocation of `p` is of a declared macro that expands, and whose
/// expansion holds no invocation: one round of expansion is enough.
pub open spec fn one_round(p: Program) -> bool {
    forall|i: int|
        0 <= i < p.module.top_levels@.len() && is_invocation(#[trigger] p.module.top_levels@[i])
            ==> exists|j: int|
            #[trigger] invoc_decl(p, i, j) && expand_ok(decl_at(p, j), invoc_args(p, i))
                && stays_plain(decl_at(p, j), invoc_args(p, i))
}

/// Some invocation of `p` is of a declared macro none of whose entries
/// matches its arguments.
pub open spec fn has_unmatched(p: Program) -> bool {
    exists|i: int, j: int|
        #[trigger] invoc_decl(p, i, j) && no_entry_matches(decl_at(p, j), invoc_args(p, i))
}

/// Fragments without repetitions that are the same are equal.
pub proof fn lemma_same_plain_fragments(xs: Seq<MacroFragment>, ys: Seq<MacroFragment>)
    requires
        same_fragments(xs, ys),
        no_repetition(xs),
    ensures
        xs == ys,
{
    assert forall|i: int| 0 <= i < xs.len() implies xs[i] == ys[i] by {
        assert(same_fragment(xs[i], ys[i]));
        assert(!(xs[i] is Repetition));
    }
    assert(xs =~= ys);
}

/// A pattern without repetitions is the same as its copy.
pub proof fn lemma_same_plain_pattern(xs: Seq<MacroFragment>, ys: Seq<MacroFragment>)
    requires
        same_fragments(xs, ys),
        plain_pattern(xs),
    ensures
        xs == ys,
{
    assert forall|i: int| 0 <= i < xs.len() implies xs[i] == ys[i] by {
        assert(same_fragment(xs[i], ys[i]));
        assert(!(xs[i] is Repetition));
    }
    assert(xs =~= ys);
}

/// What an expansion whose entries stay plain gives holds no invocation.
pub proof fn lemma_expanded_free(entries: Seq<MacroEntry>, args: Seq<Token>, parts: Seq<Seq<TopLevel>>, decl: MacroDecl)
    requires
        expanded_as(entries, args, parts),
        stays_plain(decl, args),
        entries.len() <= decl.entries@.len(),
        forall|e: int| 0 <= e < entries.len() ==> #[trigger] entries[e] == decl.entries@[e],
    ensures
        invocation_free(parts.flatten()),
    decreases entries.len(),
{
    if entries.len() == 0 {
        assert(parts.len() == 0);
        assert(parts.flatten() =~= Seq::<TopLevel>::empty());
    } else {
        let init = entries.drop_last();
        assert forall|e: int| 0 <= e < init.len() implies #[trigger] init[e] == decl.entries@[e] by {
            assert(init[e] == entries[e]);
        }
        let last = entries.last();
        assert(last == decl.entries@[entries.len() - 1]);
        if plain_match_succeeds(last.defs@, args, true) {
            lemma_expanded_free(init, args, parts.drop_last(), decl);
            let (s, c, r) = choose|s: &[Token], c: &mut ParseCtx, r: Result<(Program, &[Token]), Diagnostics>|
                s@ == expansion_tokens(last.body@, last.defs@, args) && #[trigger] Program::parse.ensures(
                    (s, c),
                    r,
                ) && (r matches Ok((prog, _)) && prog.module.top_levels@ == parts.last());
            assert(Program::parse.ensures((s, c), r));
            assert(invocation_free(parts.last()));
            parts.drop_last().lemma_flatten_push(parts.last());
            assert(parts.drop_last().push(parts.last()) =~= parts);
            let f = parts.flatten();
            let a = parts.drop_last().flatten();
            assert forall|i: int| 0 <= i < f.len() implies !is_invocation(#[trigger] f[i]) by {
                if i < a.len() {
                    assert(f[i] == a[i]);
                } else {
                    assert(f[i] == parts.last()[i - a.len()]);
                }
            }
        } else {
            lemma_expanded_free(init, args, parts, decl);
        }
    }
}

/// Parts each free of invocations give top levels free of them.
pub proof fn lemma_parts_free(parts: Seq<Seq<TopLevel>>)
    requires
        forall|i: int| 0 <= i < parts.len() ==> invocation_free(#[trigger] parts[i]),
    ensures
        invocation_free(parts.flatten_alt()),
    decreases parts.len(),
{
    if parts.len() > 0 {
        let init = parts.drop_last();
        assert forall|i: int| 0 <= i < init.len() implies invocation_free(#[trigger] init[i]) by {
            assert(init[i] == parts[i]);
        }
        lemma_parts_free(init);
        let a = init.flatten_alt();
        let f = parts.flatten_alt();
        assert(f == a + parts.last());
        assert(invocation_free(parts[parts.len() - 1]));
        assert forall|i: int| 0 <= i < f.len() implies !is_invocation(#[trigger] f[i]) by {
            if i < a.len() {
                assert(f[i] == a[i]);
            } else {
                assert(f[i] == parts.last()[i - a.len()]);
            }
        }
    }
}

/// `f` places each top level of `a` that is no invocation in `b`: the same
/// top level, and in the same order.
pub open spec fn keeps_in_order(a: Seq<TopLevel>, b: Seq<TopLevel>, f: Seq<int>) -> bool {
    &&& f.len() == a.len()
    &&& forall|i: int|
        0 <= i < a.len() && !is_invocation(a[i]) ==> 0 <= #[trigger] f[i] < b.len() && b[f[i]] == a[i]
    &&& forall|i: int, j: int|
        0 <= i < j < a.len() && !is_invocation(a[i]) && !is_invocation(a[j]) ==> #[trigger] f[i]
            < #[trigger] f[j]
}

/// The top levels of `a` that are no invocation are in `b`, in the same
/// order.
pub open spec fn others_kept(a: Seq<TopLevel>, b: Seq<TopLevel>) -> bool {
    exists|f: Seq<int>| #[trigger] keeps_in_order(a, b, f)
}

/// A sequence keeps its own top levels in order.
pub proof fn lemma_others_kept_refl(a: Seq<TopLevel>)
    ensures
        others_kept(a, a),
{
    let f = Seq::new(a.len(), |i: int| i);
    assert(keeps_in_order(a, a, f));
}

/// Keeping the others in order twice keeps them in order.
pub proof fn lemma_others_kept_trans(a: Seq<TopLevel>, b: Seq<TopLevel>, c: Seq<TopLevel>)
    requires
        others_kept(a, b),
        others_kept(b, c),
    ensures
        others_kept(a, c),
{
    let f = choose|f: Seq<int>| #[trigger] keeps_in_order(a, b, f);
    let g = choose|g: Seq<int>| #[trigger] keeps_in_order(b, c, g);
    let h = Seq::new(a.len(), |i: int| if 0 <= f[i] < g.len() { g[f[i]] } else { 0 });
    assert forall|i: int| 0 <= i < a.len() && !is_invocation(a[i]) implies 0 <= #[trigger] h[i] < c.len()
        && c[h[i]] == a[i] by {
        assert(b[f[i]] == a[i]);
        assert(!is_invocation(b[f[i]]));
        assert(0 <= g[f[i]] < c.len());
    }
    assert forall|i: int, j: int|
        0 <= i < j < a.len() && !is_invocation(a[i]) && !is_invocation(a[j]) implies #[trigger] h[i]
        < #[trigger] h[j] by {
        assert(f[i] < f[j]);
        assert(b[f[i]] == a[i] && b[f[j]] == a[j]);
    }
    assert(keeps_in_order(a, c, h));
}

/// Where the `i`-th part stands in the flattened parts.
proof fn lemma_part_at(parts: Seq<Seq<TopLevel>>, i: int)
    requires
        0 <= i < parts.len(),
    ensures
        parts.flatten_alt() == parts.take(i).flatten_alt() + parts[i] + parts.skip(i + 1).flatten_alt(),
{
    assert(parts =~= parts.take(i) + seq![parts[i]] + parts.skip(i + 1));
    lemma_flatten_alt_concat(parts.take(i) + seq![parts[i]], parts.skip(i + 1));
    lemma_flatten_alt_concat(parts.take(i), seq![parts[i]]);
    let one = seq![parts[i]];
    assert(one.drop_last() =~= Seq::<Seq<TopLevel>>::empty());
    assert(one.drop_last().flatten_alt() =~= Seq::<TopLevel>::empty());
    assert(one.last() == parts[i]);
    assert(one.flatten_alt() == one.drop_last().flatten_alt() + one.last());
    assert(one.flatten_alt() =~= parts[i]);
}

/// The parts before a later part are at least as long as those up to an
/// earlier one.
proof fn lemma_part_offsets(parts: Seq<Seq<TopLevel>>, i: int, j: int)
    requires
        0 <= i < j <= parts.len(),
    ensures
        parts.take(j).flatten_alt().len() >= parts.take(i).flatten_alt().len() + parts[i].len(),
{
    let t = parts.take(j);
    assert(t =~= parts.take(i + 1) + t.skip(i + 1));
    lemma_flatten_alt_concat(parts.take(i + 1), t.skip(i + 1));
    assert(parts.take(i + 1).drop_last() =~= parts.take(i));
}

/// An expansion keeps the top levels that are no invocation, in order.
pub proof fn lemma_expansion_keeps_others(
    initial: Seq<TopLevel>,
    decls: Seq<(usize, MacroDecl, Vec<Token>)>,
    parts: Seq<Seq<TopLevel>>,
    result: Seq<TopLevel>,
)
    requires
        expansion_parts(initial, decls, parts, result),
    ensures
        others_kept(initial, result),
{
    let f = Seq::new(initial.len(), |i: int| parts.take(i).flatten_alt().len() as int);
    assert forall|i: int| 0 <= i < initial.len() && !is_invocation(initial[i]) implies 0 <= #[trigger] f[i]
        < result.len() && result[f[i]] == initial[i] by {
        assert(!is_listed(initial, decls, i));
        assert(parts[i] == seq![initial[i]]);
        lemma_part_at(parts, i);
        assert(result[f[i]] == parts[i][0]);
    }
    assert forall|i: int, j: int|
        0 <= i < j < initial.len() && !is_invocation(initial[i]) && !is_invocation(initial[j]) implies #[trigger] f[i]
        < #[trigger] f[j] by {
        assert(parts[i] == seq![initial[i]]);
        lemma_part_offsets(parts, i, j);
    }
    assert(keeps_in_order(initial, result, f));
}

/// The first top level named `name` is at one place only.
pub proof fn lemma_resolves_unique(p: Program, name: Seq<char>, j1: int, j2: int)
    requires
        resolves(p, name, j1),
        resolves(p, name, j2),
    ensures
        j1 == j2,
{
    assert(p.module.top_levels@[j1].ident.name@ == name);
    assert(p.module.top_levels@[j2].ident.name@ == name);
}

/// What holds of a declaration without repetitions holds of its copy.
pub proof fn lemma_copy_keeps(a: MacroDecl, b: MacroDecl, args: Seq<Token>)
    requires
        copy_decl(a, b),
    ensures
        expand_ok(b, args) ==> expand_ok(a, args),
        expand_ok(b, args) && stays_plain(b, args) ==> stays_plain(a, args),
        no_entry_matches(b, args) ==> no_entry_matches(a, args),
{
    if expand_ok(b, args) {
        assert forall|e: int| 0 <= e < b.entries@.len() implies #[trigger] a.entries@[e].defs@
            == b.entries@[e].defs@ && a.entries@[e].body@ == b.entries@[e].body@ by {
            assert(same_fragments(b.entries@[e].defs@, a.entries@[e].defs@));
            lemma_same_plain_pattern(b.entries@[e].defs@, a.entries@[e].defs@);
            lemma_same_plain_fragments(b.entries@[e].body@, a.entries@[e].body@);
        }
        let i = choose|i: int|
            0 <= i < b.entries@.len() && #[trigger] plain_match_succeeds(b.entries@[i].defs@, args, true);
        assert(a.entries@[i].defs@ == b.entries@[i].defs@);
        assert(plain_match_succeeds(a.entries@[i].defs@, args, true));
    }
    if no_entry_matches(b, args) {
        assert forall|e: int| 0 <= e < a.entries@.len() implies plain_pattern(
            #[trigger] a.entries@[e].defs@,
        ) && !plain_match_succeeds(a.entries@[e].defs@, args, true) by {
            assert(same_fragments(b.entries@[e].defs@, a.entries@[e].defs@));
            lemma_same_plain_pattern(b.entries@[e].defs@, a.entries@[e].defs@);
        }
    }
}

/// Each invocation of the program whose name is first that of a macro
/// declaration, by position, with a copy of the declaration and of its
/// arguments.
fn list_invocations(program: &Program) -> (decls: Vec<(usize, MacroDecl, Vec<Token>)>)
    ensures
        lists_invocations(*program, decls@),
{
    let mut decls: Vec<(usize, MacroDecl, Vec<Token>)> = Vec::new();
    let mut i: usize = 0;
    while i < program.module.top_levels.len()
        invariant
            i <= program.module.top_levels@.len(),
            forall|k: int| 0 <= k < decls@.len() ==> #[trigger] listed_well(*program, decls@, k),
            forall|k: int| 0 <= k < decls@.len() ==> #[trigger] decls@[k].0 < i,
            forall|k1: int, k2: int|
                0 <= k1 < k2 < decls@.len() ==> #[trigger] decls@[k1].0 < #[trigger] decls@[k2].0,
            forall|i2: int, j: int|
                0 <= i2 < i && #[trigger] invoc_decl(*program, i2, j) ==> exists|k: int|
                    0 <= k < decls@.len() && #[trigger] decls@[k].0 == i2,
        decreases program.module.top_levels@.len() - i,
    {
        let ghost before = decls@;
        if let TopLevelKind::MacroInvoc(invocation) = &program.module.top_levels[i].kind {
            let found = program.top_level_from_ident(invocation.name.name.as_str());
            match found {
                Some(declared) => {
                    let ghost idx = choose|idx: int|
                        0 <= idx < program.module.top_levels@.len()
                            && program.module.top_levels@[idx] == *declared
                            && declared.ident.name@ == invocation.name.name@ && forall|j: int|
                            0 <= j < idx ==> #[trigger] program.module.top_levels@[j].ident.name@
                                != invocation.name.name@;
                    assert(resolves(*program, invocation.name.name@, idx));
                    if let TopLevelKind::MacroDecl(decl) = &declared.kind {
                        let copy = decl.duplicate();
                        let args = clone_tokens(invocation.args.as_slice());
                        decls.push((i, copy, args));
                        proof {
                            assert(invoc_decl(*program, i as int, idx));
                            assert(decl_at(*program, idx) == *decl);
                            assert(copy_decl(decls@[before.len() as int].1, decl_at(*program, idx)));
                            assert(program.module.top_levels@[i as int].kind == TopLevelKind::MacroInvoc(
                                *invocation,
                            ));
                            assert(decls@[before.len() as int].2@ == invoc_args(*program, i as int));
                            assert(invoc_decl(*program, decls@[before.len() as int].0 as int, idx));
                            assert(listed_well(*program, decls@, before.len() as int));
                            assert forall|k: int| 0 <= k < decls@.len() implies #[trigger] listed_well(
                                *program,
                                decls@,
                                k,
                            ) by {
                                if k < before.len() {
                                    assert(decls@[k] == before[k]);
                                    assert(listed_well(*program, before, k));
                                    let j = choose|j: int|
                                        #[trigger] invoc_decl(*program, before[k].0 as int, j)
                                            && copy_decl(before[k].1, decl_at(*program, j))
                                            && before[k].2@ == invoc_args(*program, before[k].0 as int);
                                    assert(invoc_decl(*program, decls@[k].0 as int, j));
                                }
                            }
                            assert forall|i2: int, j: int|
                                0 <= i2 < i + 1 && #[trigger] invoc_decl(*program, i2, j) implies exists|k: int|
                                0 <= k < decls@.len() && #[trigger] decls@[k].0 == i2 by {
                                if i2 < i {
                                    let k = choose|k: int| 0 <= k < before.len() && #[trigger] before[k].0 == i2;
                                    assert(decls@[k] == before[k]);
                                } else {
                                    assert(decls@[before.len() as int].0 == i2);
                                }
                            }
                        }
                    } else {
                        proof {
                            assert forall|j: int| !#[trigger] invoc_decl(*program, i as int, j) by {
                                if invoc_decl(*program, i as int, j) {
                                    lemma_resolves_unique(*program, invocation.name.name@, idx, j);
                                }
                            }
                        }
                    }
                },
                None => {
                    proof {
                        assert forall|j: int| !#[trigger] invoc_decl(*program, i as int, j) by {
                            if invoc_decl(*program, i as int, j) {
                                assert(program.module.top_levels@[j].ident.name@ == invocation.name.name@);
                            }
                        }
                    }
                },
            }
        }
        i = i + 1;
    }
    decls
}

/// `q` is `p` with each invocation of a declared macro replaced by what it
/// expands to, and every other top level kept, in order.
pub open spec fn expands_to_once(p: Program, q: Program) -> bool {
    exists|decls: Seq<(usize, MacroDecl, Vec<Token>)>, parts: Seq<Seq<TopLevel>>|
        lists_invocations(p, decls) && #[trigger] expansion_parts(
            p.module.top_levels@,
            decls,
            parts,
            q.module.top_levels@,
        )
}

/// Listed invocations of a program on which one round is enough expand.
proof fn lemma_one_round_listed(p: Program, decls: Seq<(usize, MacroDecl, Vec<Token>)>)
    requires
        lists_invocations(p, decls),
        one_round(p),
    ensures
        listed_expand(p.module.top_levels@, decls),
        forall|i: int, k: int|
            #![trigger first_listed(decls, i, k)]
            0 <= i < p.module.top_levels@.len() && is_listed(p.module.top_levels@, decls, i)
                && first_listed(decls, i, k) ==> expand_ok(decls[k].1, decls[k].2@) && stays_plain(
                decls[k].1,
                decls[k].2@,
            ),
{
    assert forall|i: int, k: int|
        #![trigger first_listed(decls, i, k)]
        0 <= i < p.module.top_levels@.len() && is_listed(p.module.top_levels@, decls, i)
            && first_listed(decls, i, k) implies expand_ok(decls[k].1, decls[k].2@) && stays_plain(
            decls[k].1,
            decls[k].2@,
        ) by {
        assert(listed_well(p, decls, k));
        let j = choose|j: int|
            #[trigger] invoc_decl(p, decls[k].0 as int, j) && copy_decl(decls[k].1, decl_at(p, j))
                && decls[k].2@ == invoc_args(p, decls[k].0 as int);
        assert(is_invocation(p.module.top_levels@[i]));
        let j2 = choose|j2: int|
            #[trigger] invoc_decl(p, i, j2) && expand_ok(decl_at(p, j2), invoc_args(p, i)) && stays_plain(
                decl_at(p, j2),
                invoc_args(p, i),
            );
        let name = p.module.top_levels@[i].kind->MacroInvoc_0.name.name@;
        lemma_resolves_unique(p, name, j, j2);
        lemma_copy_keeps(decls[k].1, decl_at(p, j), invoc_args(p, i));
    }
}

/// An invocation that no entry of its declaration matches is listed
/// unmatched.
proof fn lemma_unmatched_listed(p: Program, decls: Seq<(usize, MacroDecl, Vec<Token>)>)
    requires
        lists_invocations(p, decls),
        has_unmatched(p),
    ensures
        exists|i: int| 0 <= i < p.module.top_levels@.len() && #[trigger] unmatched_at(
            p.module.top_levels@,
            decls,
            i,
        ),
{
    let (i, j) = choose|i: int, j: int|
        #[trigger] invoc_decl(p, i, j) && no_entry_matches(decl_at(p, j), invoc_args(p, i));
    let k = choose|k: int| 0 <= k < decls.len() && #[trigger] decls[k].0 == i;
    assert(first_listed(decls, i, k)) by {
        assert forall|k2: int| 0 <= k2 < k implies #[trigger] decls[k2].0 != i by {
            assert(decls[k2].0 < decls[k].0);
        }
    }
    assert(listed_well(p, decls, k));
    let j1 = choose|j1: int|
        #[trigger] invoc_decl(p, decls[k].0 as int, j1) && copy_decl(decls[k].1, decl_at(p, j1))
            && decls[k].2@ == invoc_args(p, decls[k].0 as int);
    let name = p.module.top_levels@[i].kind->MacroInvoc_0.name.name@;
    lemma_resolves_unique(p, name, j, j1);
    lemma_copy_keeps(decls[k].1, decl_at(p, j), invoc_args(p, i));
    assert(is_listed(p.module.top_levels@, decls, i));
    assert(unmatched_at(p.module.top_levels@, decls, i));
}

/// One round on a program on which it is enough leaves no invocation.
proof fn lemma_one_round_free(
    p: Program,
    decls: Seq<(usize, MacroDecl, Vec<Token>)>,
    parts: Seq<Seq<TopLevel>>,
    result: Seq<TopLevel>,
)
    requires
        lists_invocations(p, decls),
        one_round(p),
        expansion_parts(p.module.top_levels@, decls, parts, result),
    ensures
        invocation_free(result),
{
    let initial = p.module.top_levels@;
    lemma_one_round_listed(p, decls);
    assert forall|i: int| 0 <= i < parts.len() implies invocation_free(#[trigger] parts[i]) by {
        if is_listed(initial, decls, i) {
            let k = choose|k: int| 0 <= k < decls.len() && #[trigger] decls[k].0 == i;
            assert(first_listed(decls, i, k)) by {
                assert forall|k2: int| 0 <= k2 < k implies #[trigger] decls[k2].0 != i by {
                    assert(decls[k2].0 < decls[k].0);
                }
            }
            assert(expand_ok(decls[k].1, decls[k].2@));
            let sub = choose|sub: Seq<Seq<TopLevel>>|
                #[trigger] expanded_as(decls[k].1.entries@, decls[k].2@, sub) && parts[i] == sub.flatten();
            lemma_expanded_free(decls[k].1.entries@, decls[k].2@, sub, decls[k].1);
        } else {
            assert(parts[i] == seq![initial[i]]);
            if is_invocation(initial[i]) {
                let j = choose|j: int|
                    #[trigger] invoc_decl(p, i, j) && expand_ok(decl_at(p, j), invoc_args(p, i))
                        && stays_plain(decl_at(p, j), invoc_args(p, i));
                let k = choose|k: int| 0 <= k < decls.len() && #[trigger] decls[k].0 == i;
                assert(is_listed(initial, decls, i));
            }
            assert forall|t: int| 0 <= t < parts[i].len() implies !is_invocation(#[trigger] parts[i][t]) by {
                assert(parts[i][t] == initial[i]);
            }
        }
    }
    lemma_parts_free(parts);
}

/// The program with its macro invocations expanded, again and again until
/// none is left; an invocation of a macro declared after it, or not at all,
/// is never expanded, and more than a hundred rounds is an error.
pub fn expand_macros(program: Program) -> (res: Result<Program, Diagnostics>)
    ensures
        res matches Ok(p) ==> !has_invocation(p),
        !has_invocation(program) ==> (res matches Ok(p) && p == program),
        res matches Err(d) ==> d.errors@.len() > 0,
        one_round(program) ==> (res matches Ok(q) && invocation_free(q.module.top_levels@) && (
        has_invocation(program) ==> expands_to_once(program, q))),
        has_unmatched(program) ==> res is Err,
        res matches Ok(q) ==> others_kept(program.module.top_levels@, q.module.top_levels@),
{
    let mut current = program;
    let mut depth: usize = 0;
    proof {
        lemma_others_kept_refl(program.module.top_levels@);
    }
    while current.has_macro_invoc()
        invariant
            depth <= 100,
            !has_invocation(program) ==> current == program,
            one_round(program) ==> (depth == 0 && current == program) || (!has_invocation(current)
                && expands_to_once(program, current)),
            has_unmatched(program) ==> depth == 0 && current == program,
            others_kept(program.module.top_levels@, current.module.top_levels@),
        decreases 100 - depth,
    {
        let decls = list_invocations(&current);
        let ghost before = current;
        proof {
            if one_round(before) {
                lemma_one_round_listed(before, decls@);
            }
            if has_unmatched(before) {
                lemma_unmatched_listed(before, decls@);
            }
        }
        current = expand_macros_once(current, &decls)?;
        proof {
            let parts = choose|parts: Seq<Seq<TopLevel>>|
                #[trigger] expansion_parts(before.module.top_levels@, decls@, parts, current.module.top_levels@);
            lemma_expansion_keeps_others(
                before.module.top_levels@,
                decls@,
                parts,
                current.module.top_levels@,
            );
            lemma_others_kept_trans(
                program.module.top_levels@,
                before.module.top_levels@,
                current.module.top_levels@,
            );
        }
        proof {
            if one_round(program) {
                assert(before == program);
                let parts = choose|parts: Seq<Seq<TopLevel>>|
                    #[trigger] expansion_parts(before.module.top_levels@, decls@, parts, current.module.top_levels@);
                lemma_one_round_free(before, decls@, parts, current.module.top_levels@);
                assert(expands_to_once(program, current));
            }
        }
        depth = depth + 1;
        if depth > 100 {
            return Err(
                Diagnostics::from_error(
                    ParseError::InternalError(String::from_str("Macro expansion depth exceeded (>100)")),
                ),
            );
        }
    }
    proof {
        if one_round(program) && !(depth == 0 && current == program) {
            assert forall|i: int| 0 <= i < current.module.top_levels@.len() implies !is_invocation(
                #[trigger] current.module.top_levels@[i],
            ) by {}
        }
        if one_round(program) && depth == 0 && current == program {
            assert forall|i: int| 0 <= i < current.module.top_levels@.len() implies !is_invocation(
                #[trigger] current.module.top_levels@[i],
            ) by {}
        }
    }
    Ok(current)
}

} // verus!
