use vstd::prelude::*;

use crate::ast::MacroFragment;
use crate::lexer::token::same_token_type;
use crate::lexer::{Token, TokenType};
use crate::macro_expansion::correspondance::{
    copy_of, entries_sorted, entry_names, has_entry, has_token_like, keys_spec, lemma_only_name,
    lemma_same_entries, lemma_tokens_for_at, names_are, nested_keys_spec, tokens_for, Correspondance,
};
use crate::macro_expansion::expand::variable_names;
use crate::parser::util::ParseError;

verus! {

/// `rest` is what is left of `all` once some of its first elements are taken.
pub open spec fn is_tail<T>(rest: Seq<T>, all: Seq<T>) -> bool {
    rest.len() <= all.len() && rest == all.skip(all.len() - rest.len())
}

/// One way of matching the arguments of an invocation against a pattern:
/// the arguments and the part of the pattern left, and what the variables
/// were matched with so far.
pub struct MacroThread<'a> {
    pub args: &'a [Token],
    pub tokens: &'a [MacroFragment],
    pub correspondances: Correspondance,
}

/// The thread is done: with `must_be_completed`, both the pattern and the
/// arguments are used up; otherwise either of them is.
pub open spec fn is_solution(t: MacroThread, must_be_completed: bool) -> bool {
    if must_be_completed {
        t.tokens@.len() == 0 && t.args@.len() == 0
    } else {
        t.tokens@.len() == 0 || t.args@.len() == 0
    }
}

/// What each thread matched so far has its names in order.
pub open spec fn threads_sorted(threads: Seq<MacroThread>) -> bool {
    forall|i: int| 0 <= i < threads.len() ==> entries_sorted(#[trigger] threads[i].correspondances.entries@)
}

/// Every name bound by `entries` is among `names`.
pub open spec fn binds_only(entries: Seq<(String, Vec<Token>)>, names: Seq<Seq<char>>) -> bool {
    forall|n: Seq<char>| #[trigger] has_entry(entries, n) ==> names.contains(n)
}

/// Two lists of entries bind the same names.
pub open spec fn same_bound_names(a: Seq<(String, Vec<Token>)>, b: Seq<(String, Vec<Token>)>) -> bool {
    forall|n: Seq<char>| #[trigger] has_entry(a, n) <==> has_entry(b, n)
}

/// What each thread matched so far binds only variables of `pattern`.
pub open spec fn threads_bind_only(threads: Seq<MacroThread>, pattern: Seq<MacroFragment>) -> bool {
    forall|i: int|
        0 <= i < threads.len() ==> binds_only(
            #[trigger] threads[i].correspondances.entries@,
            variable_names(pattern),
        )
}

/// The name of a variable of a pattern is among the variables of the
/// pattern.
proof fn lemma_variable_name_at(pattern: Seq<MacroFragment>, k: int)
    requires
        0 <= k < pattern.len(),
        pattern[k] is Ident,
    ensures
        variable_names(pattern).contains(pattern[k]->Ident_0.name@),
    decreases pattern.len(),
{
    let init = pattern.drop_last();
    if k == pattern.len() - 1 {
        let names = variable_names(pattern);
        assert(names == variable_names(init) + seq![pattern[k]->Ident_0.name@]);
        assert(names[names.len() - 1] == pattern[k]->Ident_0.name@);
    } else {
        assert(init[k] == pattern[k]);
        lemma_variable_name_at(init, k);
        let names = variable_names(pattern);
        let i = choose|i: int| 0 <= i < variable_names(init).len() && variable_names(init)[i]
            == pattern[k]->Ident_0.name@;
        assert(names[i] == variable_names(init)[i]);
    }
}

/// Every thread has what is left of the arguments and of the pattern of
/// `start`, and has its names in order.
pub open spec fn threads_from(threads: Seq<MacroThread>, start: (Seq<Token>, Seq<MacroFragment>)) -> bool {
    &&& forall|q: int|
        0 <= q < threads.len() ==> is_tail(#[trigger] threads[q].args@, start.0) && is_tail(
            threads[q].tokens@,
            start.1,
        )
    &&& threads_sorted(threads)
    &&& threads_bind_only(threads, start.1)
}

/// A pattern without repetitions.
pub open spec fn plain_pattern(p: Seq<MacroFragment>) -> bool {
    forall|i: int| 0 <= i < p.len() ==> !(#[trigger] p[i] is Repetition)
}

/// A fragment of a pattern matches an argument: a variable any name, a token
/// a token of its type.
pub open spec fn fragment_matches(f: MacroFragment, t: Token) -> bool {
    match f {
        MacroFragment::Ident(_) => t.token_type is Ident,
        MacroFragment::Token(x) => same_token_type(x.token_type, t.token_type),
        MacroFragment::Repetition(_) => false,
    }
}

/// The first `k` fragments of `p` match the first `k` arguments.
pub open spec fn prefix_matches(p: Seq<MacroFragment>, args: Seq<Token>, k: int) -> bool {
    &&& 0 <= k <= p.len()
    &&& k <= args.len()
    &&& forall|i: int| 0 <= i < k ==> fragment_matches(#[trigger] p[i], args[i])
}

/// One of the first `k` fragments of `p` is the variable `n`.
pub open spec fn binds_name_before(p: Seq<MacroFragment>, k: int, n: Seq<char>) -> bool {
    exists|i: int| 0 <= i < k && #[trigger] p[i] is Ident && p[i]->Ident_0.name@ == n
}

/// What the variable `n` stood for once the first `k` fragments of `p` are
/// matched with the first `k` arguments: the arguments matched by it, in
/// order, each kept unless one of its type was kept before.
pub open spec fn bound_by(p: Seq<MacroFragment>, args: Seq<Token>, k: int, n: Seq<char>) -> Seq<Token>
    decreases k,
{
    if k <= 0 {
        Seq::empty()
    } else {
        let prev = bound_by(p, args, k - 1, n);
        if p[k - 1] is Ident && p[k - 1]->Ident_0.name@ == n && !has_token_like(
            prev,
            args[k - 1].token_type,
        ) {
            prev.push(args[k - 1])
        } else {
            prev
        }
    }
}

/// `c` is what matching the first `k` fragments of a pattern without
/// repetitions with the first `k` arguments binds: the variables met, each
/// to what it stood for, and no repetition.
pub open spec fn matched_plain(c: Correspondance, p: Seq<MacroFragment>, args: Seq<Token>, k: int) -> bool {
    &&& entries_sorted(c.entries@)
    &&& c.nested_corresp@.len() == 0
    &&& forall|n: Seq<char>| #[trigger] has_entry(c.entries@, n) <==> binds_name_before(p, k, n)
    &&& forall|n: Seq<char>| #[trigger] tokens_for(c.entries@, n) == bound_by(p, args, k, n)
}

/// How far a pattern and arguments are matched: as far as the shorter goes.
pub open spec fn match_length(p: Seq<MacroFragment>, args: Seq<Token>) -> int {
    if p.len() <= args.len() {
        p.len() as int
    } else {
        args.len() as int
    }
}

/// Whether matching a pattern without repetitions succeeds: all of the
/// pattern against all of the arguments (`complete`), else as far as the
/// shorter goes.
pub open spec fn plain_match_succeeds(p: Seq<MacroFragment>, args: Seq<Token>, complete: bool) -> bool {
    if complete {
        p.len() == args.len() && prefix_matches(p, args, p.len() as int)
    } else {
        prefix_matches(p, args, match_length(p, args))
    }
}

/// The thread at step `s` of matching a pattern without repetitions: what is
/// left of both, and what the first `s` fragments bound.
pub open spec fn thread_at(t: MacroThread, start: (Seq<Token>, Seq<MacroFragment>), s: int) -> bool {
    &&& t.args@ == start.0.skip(s)
    &&& t.tokens@ == start.1.skip(s)
    &&& matched_plain(t.correspondances, start.1, start.0, s)
}

/// The thread of a pattern without repetitions is still alive at step `s`.
pub open spec fn alive_at(start: (Seq<Token>, Seq<MacroFragment>), s: int) -> bool {
    s <= match_length(start.1, start.0) && prefix_matches(start.1, start.0, s)
}

/// The threads at step `s` of matching a pattern without repetitions: one
/// while it matches, none after.
pub open spec fn plain_threads_at(threads: Seq<MacroThread>, start: (Seq<Token>, Seq<MacroFragment>), s: int) -> bool {
    &&& alive_at(start, s) ==> threads.len() == 1 && thread_at(threads[0], start, s)
    &&& !alive_at(start, s) ==> threads.len() == 0
}

/// A pattern that is one repetition of one fragment without repetitions,
/// and arguments, at least one, each of which that fragment matches.
pub open spec fn repeats_plain(p: Seq<MacroFragment>, args: Seq<Token>) -> bool {
    &&& p.len() == 1
    &&& p[0] is Repetition
    &&& p[0]->Repetition_0@.len() == 1
    &&& plain_pattern(p[0]->Repetition_0@)
    &&& args.len() > 0
    &&& forall|i: int| 0 <= i < args.len() ==> fragment_matches(p[0]->Repetition_0@[0], #[trigger] args[i])
}

/// What a repetition of the variable `x` gathered: nothing directly, and,
/// once it matched, one repetition recorded under the names `[x]`, whose
/// tokens for `x` are `bound`, in order.
pub open spec fn gathered(c: Correspondance, x: Seq<char>, bound: Seq<Token>) -> bool {
    &&& c.entries@.len() == 0
    &&& if bound.len() == 0 {
        c.nested_corresp@.len() == 0 && c.nested_corresp_keys@.len() == 0
    } else {
        &&& c.nested_corresp@.len() == 1
        &&& c.nested_corresp_keys@.len() == 1
        &&& names_are(c.nested_corresp_keys@[0]@, seq![x])
        &&& entries_sorted(c.nested_corresp@[0].entries@)
        &&& tokens_for(c.nested_corresp@[0].entries@, x) == bound
        &&& c.nested_corresp@[0].entries@.len() == 1
        &&& c.nested_corresp@[0].entries@[0].0@ == x
        &&& c.nested_corresp@[0].entries@[0].1@ == bound
        &&& c.nested_corresp@[0].nested_corresp@.len() == 0
    }
}

/// What a repetition gathered binds the one name `x`.
pub proof fn lemma_gathered_keys(c: Correspondance, x: Seq<char>, bound: Seq<Token>)
    requires
        gathered(c, x, bound),
        bound.len() > 0,
    ensures
        keys_spec(c) == seq![x],
{
    let n0 = c.nested_corresp@[0];
    assert(entry_names(c.entries@) =~= Seq::<Seq<char>>::empty());
    assert(nested_keys_spec(n0.nested_corresp@) =~= Seq::<Seq<char>>::empty());
    assert(n0.entries@.drop_last() =~= Seq::<(String, Vec<Token>)>::empty());
    assert(entry_names(n0.entries@.drop_last()) =~= Seq::<Seq<char>>::empty());
    assert(entry_names(n0.entries@) =~= seq![x]);
    assert(keys_spec(n0) =~= seq![x]);
    assert(c.nested_corresp@.drop_last() =~= Seq::<Correspondance>::empty());
    assert(nested_keys_spec(c.nested_corresp@.drop_last()) =~= Seq::<Seq<char>>::empty());
    assert(nested_keys_spec(c.nested_corresp@) =~= seq![x]);
}

/// A copy gathered what the correspondance it copies gathered.
proof fn lemma_gathered_copy(a: Correspondance, b: Correspondance, x: Seq<char>, bound: Seq<Token>)
    requires
        copy_of(a, b),
        gathered(b, x, bound),
    ensures
        gathered(a, x, bound),
{
    if bound.len() > 0 {
        assert(a.nested_corresp_keys@[0]@ == b.nested_corresp_keys@[0]@);
        assert(copy_of(a.nested_corresp@[0], b.nested_corresp@[0]));
        let ea = a.nested_corresp@[0].entries@;
        let eb = b.nested_corresp@[0].entries@;
        assert forall|i: int| 0 <= i < eb.len() implies #[trigger] ea[i].0 == eb[i].0 && ea[i].1@
            == eb[i].1@ by {
            assert(a.nested_corresp@[0].entries@[i].0 == b.nested_corresp@[0].entries@[i].0);
        }
        lemma_same_entries(eb, ea);
        assert(ea[0].0 == eb[0].0);
        assert(a.nested_corresp@[0].nested_corresp@.len() == b.nested_corresp@[0].nested_corresp@.len());
    }
}

/// `inner` binds `x`, to `t` alone, and nothing else.
pub open spec fn single_binding(inner: Correspondance, x: Seq<char>, t: Token) -> bool {
    &&& entries_sorted(inner.entries@)
    &&& inner.nested_corresp@.len() == 0
    &&& forall|n: Seq<char>| #[trigger] has_entry(inner.entries@, n) <==> n == x
    &&& tokens_for(inner.entries@, x) == seq![t]
}

/// A copy of `corr` with the repetition `inner` recorded: merged with the
/// one that binds the same names, or added.
fn with_repetition(corr: &Correspondance, inner: Correspondance) -> (res: Correspondance)
    ensures
        forall|n: Seq<char>| #[trigger] has_entry(res.entries@, n) <==> has_entry(corr.entries@, n),
        entries_sorted(corr.entries@) ==> entries_sorted(res.entries@),
        forall|x: Seq<char>, bound: Seq<Token>, t: Token|
            #![trigger gathered(*corr, x, bound), single_binding(inner, x, t)]
            gathered(*corr, x, bound) && single_binding(inner, x, t) ==> gathered(
                res,
                x,
                bound.push(t),
            ),
{
    let mut matched = corr.duplicate();
    let ghost dup = matched;
    let ghost inner_view = inner;
    matched.insert_nested(inner);
    proof {
        assert forall|x: Seq<char>, bound: Seq<Token>, t: Token|
            #![trigger gathered(*corr, x, bound), single_binding(inner_view, x, t)]
            gathered(*corr, x, bound) && single_binding(inner_view, x, t) implies gathered(
            matched,
            x,
            bound.push(t),
        ) by {
            lemma_gathered_copy(dup, *corr, x, bound);
            lemma_only_name(inner_view.entries@, x);
            assert(nested_keys_spec(inner_view.nested_corresp@) =~= Seq::<Seq<char>>::empty());
            assert(keys_spec(inner_view) =~= seq![x]);
            assert(gathered(dup, x, bound));
            assert(matched.entries == dup.entries);
            assert(matched.entries@.len() == 0);
            if bound.len() == 0 {
                assert(dup.nested_corresp_keys@.len() == 0);
                assert(matched.nested_corresp@ == dup.nested_corresp@.push(inner_view));
                assert(matched.nested_corresp@[0] == inner_view);
                assert(matched.nested_corresp_keys@.len() == 1);
                assert(names_are(matched.nested_corresp_keys@[0]@, seq![x]));
                assert(entries_sorted(matched.nested_corresp@[0].entries@));
                assert(seq![t] =~= bound.push(t));
                assert(tokens_for(matched.nested_corresp@[0].entries@, x) == bound.push(t));
                lemma_tokens_for_at(inner_view.entries@, 0);
            } else {
                assert(names_are(dup.nested_corresp_keys@[0]@, keys_spec(inner_view)));
                let first = dup.nested_corresp@[0];
                assert(entries_sorted(first.entries@));
                assert(tokens_for(matched.nested_corresp@[0].entries@, x) == tokens_for(
                    dup.nested_corresp@[0].entries@,
                    x,
                ) + tokens_for(inner_view.entries@, x));
                assert(matched.nested_corresp_keys@ == dup.nested_corresp_keys@);
                assert(matched.nested_corresp@.len() == 1);
                assert(entries_sorted(matched.nested_corresp@[0].entries@));
                assert(tokens_for(matched.nested_corresp@[0].entries@, x) == bound.push(t));
                let merged = matched.nested_corresp@[0].entries@;
                assert forall|n: Seq<char>| #[trigger] has_entry(merged, n) <==> n == x by {
                    if n == x {
                        assert(has_entry(first.entries@, n)) by {
                            assert(first.entries@[0].0@ == x);
                        }
                    }
                    if has_entry(first.entries@, n) {
                        let k = choose|k: int| 0 <= k < first.entries@.len() && #[trigger] first.entries@[k].0@ == n;
                        assert(k == 0);
                    }
                }
                lemma_only_name(merged, x);
                lemma_tokens_for_at(merged, 0);
            }
        }
    }
    matched
}

/// At step `s` of matching a repetition of the variable `x`: the thread
/// repeats on with the first `s` arguments gathered, or it has no pattern
/// left, and then, when it also has no argument left, it gathered them all.
pub open spec fn thread_shape(t: MacroThread, start: (Seq<Token>, Seq<MacroFragment>), s: int, x: Seq<char>) -> bool {
    ||| goes_on_at(t, start, s) && gathered(t.correspondances, x, start.0.take(s))
    ||| t.tokens@.len() == 0 && (t.args@.len() == 0 ==> gathered(t.correspondances, x, start.0))
}

/// Adding a thread of the shape of the others keeps them all of that shape.
proof fn lemma_shape_push(
    threads: Seq<MacroThread>,
    t: MacroThread,
    start: (Seq<Token>, Seq<MacroFragment>),
    s: int,
    x: Seq<char>,
)
    requires
        forall|q: int| 0 <= q < threads.len() ==> #[trigger] thread_shape(threads[q], start, s, x),
        thread_shape(t, start, s, x),
    ensures
        forall|q: int|
            0 <= q < threads.push(t).len() ==> #[trigger] thread_shape(threads.push(t)[q], start, s, x),
{
    assert forall|q: int| 0 <= q < threads.push(t).len() implies #[trigger] thread_shape(
        threads.push(t)[q],
        start,
        s,
        x,
    ) by {
        if q < threads.len() {
            assert(threads.push(t)[q] == threads[q]);
        }
    }
}

/// The thread that repeats on: past the first `s` arguments, with the whole
/// pattern still to match.
pub open spec fn goes_on_at(t: MacroThread, start: (Seq<Token>, Seq<MacroFragment>), s: int) -> bool {
    t.args@ == start.0.skip(s) && t.tokens@ == start.1
}

/// Some thread repeats on past the first `s` arguments.
pub open spec fn has_go_on(threads: Seq<MacroThread>, start: (Seq<Token>, Seq<MacroFragment>), s: int) -> bool {
    exists|q: int| 0 <= q < threads.len() && #[trigger] goes_on_at(threads[q], start, s)
}

/// Some thread is done.
pub open spec fn has_solution(threads: Seq<MacroThread>, must_be_completed: bool) -> bool {
    exists|q: int| 0 <= q < threads.len() && is_solution(#[trigger] threads[q], must_be_completed)
}

/// The steps allowed are enough to match a pattern without repetitions: at
/// least one more than the steps the matching takes, or as many where the
/// pattern and the arguments are as long.
proof fn lemma_steps_enough(la: int, lp: int, fuel: int)
    requires
        0 <= la <= usize::MAX,
        0 <= lp <= usize::MAX,
        ({
            let sa = if la + 1 > usize::MAX { usize::MAX as int } else { la + 1 };
            let sb = if lp + 1 > usize::MAX { usize::MAX as int } else { lp + 1 };
            fuel == if sa * sb > usize::MAX { usize::MAX as int } else { sa * sb }
        }),
    ensures
        ({
            let k = if lp <= la { lp } else { la };
            fuel >= k + 1 || (la == lp && fuel >= k)
        }),
{
    let sa = if la + 1 > usize::MAX { usize::MAX as int } else { la + 1 };
    let sb = if lp + 1 > usize::MAX { usize::MAX as int } else { lp + 1 };
    assert(sa * sb >= sa && sa * sb >= sb) by (nonlinear_arith)
        requires
            sa >= 1,
            sb >= 1,
    ;
}

/// A variable that matches an argument extends what was bound by one step.
proof fn lemma_plain_step_ident(
    start: (Seq<Token>, Seq<MacroFragment>),
    s: int,
    before: Correspondance,
    after: Correspondance,
    name: Seq<char>,
    arg: Token,
)
    requires
        0 <= s < start.1.len(),
        s < start.0.len(),
        matched_plain(before, start.1, start.0, s),
        start.1[s] is Ident,
        start.1[s]->Ident_0.name@ == name,
        arg == start.0[s],
        after.nested_corresp@.len() == before.nested_corresp@.len(),
        forall|n: Seq<char>| #[trigger] has_entry(after.entries@, n) <==> (has_entry(
            before.entries@,
            n,
        ) || n == name),
        entries_sorted(after.entries@),
        tokens_for(after.entries@, name) == if has_token_like(
            tokens_for(before.entries@, name),
            arg.token_type,
        ) {
            tokens_for(before.entries@, name)
        } else {
            tokens_for(before.entries@, name).push(arg)
        },
        forall|n: Seq<char>|
            n != name ==> #[trigger] tokens_for(after.entries@, n) == tokens_for(before.entries@, n),
    ensures
        matched_plain(after, start.1, start.0, s + 1),
{
    let p = start.1;
    assert forall|n: Seq<char>| #[trigger] has_entry(after.entries@, n) <==> binds_name_before(p, s + 1, n) by {
        if binds_name_before(p, s + 1, n) && n != name {
            let i = choose|i: int| 0 <= i < s + 1 && #[trigger] p[i] is Ident && p[i]->Ident_0.name@ == n;
            assert(i < s);
            assert(binds_name_before(p, s, n));
        }
        if n == name {
            assert(p[s] is Ident && p[s]->Ident_0.name@ == n);
        }
        if binds_name_before(p, s, n) {
            let i = choose|i: int| 0 <= i < s && #[trigger] p[i] is Ident && p[i]->Ident_0.name@ == n;
            assert(0 <= i < s + 1);
        }
    }
    assert forall|n: Seq<char>| #[trigger] tokens_for(after.entries@, n) == bound_by(p, start.0, s + 1, n) by {
        assert(tokens_for(before.entries@, n) == bound_by(p, start.0, s, n));
    }
}

/// A token that matches an argument binds nothing more.
proof fn lemma_plain_step_token(
    start: (Seq<Token>, Seq<MacroFragment>),
    s: int,
    before: Correspondance,
    after: Correspondance,
)
    requires
        0 <= s < start.1.len(),
        s < start.0.len(),
        matched_plain(before, start.1, start.0, s),
        start.1[s] is Token,
        after.nested_corresp@.len() == before.nested_corresp@.len(),
        forall|n: Seq<char>| #[trigger] has_entry(after.entries@, n) <==> has_entry(before.entries@, n),
        entries_sorted(before.entries@) ==> entries_sorted(after.entries@) && forall|n: Seq<char>|
            #[trigger] tokens_for(after.entries@, n) == tokens_for(before.entries@, n),
    ensures
        matched_plain(after, start.1, start.0, s + 1),
{
    let p = start.1;
    assert forall|n: Seq<char>| #[trigger] has_entry(after.entries@, n) <==> binds_name_before(p, s + 1, n) by {
        if binds_name_before(p, s + 1, n) {
            let i = choose|i: int| 0 <= i < s + 1 && #[trigger] p[i] is Ident && p[i]->Ident_0.name@ == n;
            assert(i < s);
            assert(binds_name_before(p, s, n));
        }
        if binds_name_before(p, s, n) {
            let i = choose|i: int| 0 <= i < s && #[trigger] p[i] is Ident && p[i]->Ident_0.name@ == n;
            assert(0 <= i < s + 1);
        }
    }
    assert forall|n: Seq<char>| #[trigger] tokens_for(after.entries@, n) == bound_by(p, start.0, s + 1, n) by {
        assert(tokens_for(before.entries@, n) == bound_by(p, start.0, s, n));
    }
}

/// Adds a thread that has what is left of the arguments and of the pattern of
/// `start`.
fn push_thread<'a>(
    threads: &mut Vec<MacroThread<'a>>,
    thread: MacroThread<'a>,
    start: Ghost<(Seq<Token>, Seq<MacroFragment>)>,
)
    requires
        threads_from(old(threads)@, start@),
        is_tail(thread.args@, start@.0),
        is_tail(thread.tokens@, start@.1),
        entries_sorted(thread.correspondances.entries@),
        binds_only(thread.correspondances.entries@, variable_names(start@.1)),
    ensures
        final(threads)@ == old(threads)@.push(thread),
        threads_from(final(threads)@, start@),
        forall|s: int|
            has_go_on(old(threads)@, start@, s) ==> #[trigger] has_go_on(final(threads)@, start@, s),
        forall|m: bool| has_solution(old(threads)@, m) ==> #[trigger] has_solution(final(threads)@, m),
{
    let ghost before = threads@;
    threads.push(thread);
    proof {
        assert forall|s: int| has_go_on(before, start@, s) implies #[trigger] has_go_on(
            threads@,
            start@,
            s,
        ) by {
            let q = choose|q: int| 0 <= q < before.len() && #[trigger] goes_on_at(before[q], start@, s);
            assert(threads@[q] == before[q]);
        }
        assert forall|m: bool| has_solution(before, m) implies #[trigger] has_solution(threads@, m) by {
            let q = choose|q: int| 0 <= q < before.len() && is_solution(#[trigger] before[q], m);
            assert(threads@[q] == before[q]);
        }
    }
    proof {
        assert forall|q: int| 0 <= q < threads@.len() implies is_tail(
            #[trigger] threads@[q].args@,
            start@.0,
        ) && is_tail(threads@[q].tokens@, start@.1) by {
            if q < before.len() {
                assert(threads@[q] == before[q]);
            }
        }
        assert forall|q: int| 0 <= q < threads@.len() implies entries_sorted(
            #[trigger] threads@[q].correspondances.entries@,
        ) by {
            if q < before.len() {
                assert(threads@[q] == before[q]);
            }
        }
        assert forall|q: int| 0 <= q < threads@.len() implies binds_only(
            #[trigger] threads@[q].correspondances.entries@,
            variable_names(start@.1),
        ) by {
            if q < before.len() {
                assert(threads@[q] == before[q]);
            }
        }
    }
}

/// Whether one of the threads is done.
pub fn has_one_solution(threads: &Vec<MacroThread>, must_be_completed: bool) -> (res: bool)
    ensures
        res == exists|i: int|
            0 <= i < threads@.len() && is_solution(#[trigger] threads@[i], must_be_completed),
{
    let mut i: usize = 0;
    while i < threads.len()
        invariant
            i <= threads@.len(),
            forall|j: int| 0 <= j < i ==> !is_solution(#[trigger] threads@[j], must_be_completed),
        decreases threads@.len() - i,
    {
        let thread = &threads[i];
        let done = if must_be_completed {
            thread.tokens.len() == 0 && thread.args.len() == 0
        } else {
            thread.tokens.len() == 0 || thread.args.len() == 0
        };
        if done {
            return true;
        }
        i = i + 1;
    }
    false
}

/// The kind of thread that is looked for, by order of preference: pattern
/// and arguments used up (0), arguments used up (1), pattern used up (2).
pub open spec fn thread_fits(t: MacroThread, kind: int) -> bool {
    if kind == 0 {
        t.tokens@.len() == 0 && t.args@.len() == 0
    } else if kind == 1 {
        t.args@.len() == 0
    } else {
        t.tokens@.len() == 0
    }
}

/// The first thread of the given kind.
fn first_fitting(threads: &Vec<MacroThread>, kind: u8) -> (res: Option<usize>)
    ensures
        res matches Some(i) ==> i < threads@.len() && thread_fits(threads@[i as int], kind as int)
            && forall|j: int| 0 <= j < i ==> !thread_fits(#[trigger] threads@[j], kind as int),
        res is None ==> forall|j: int|
            0 <= j < threads@.len() ==> !thread_fits(#[trigger] threads@[j], kind as int),
{
    let mut i: usize = 0;
    while i < threads.len()
        invariant
            i <= threads@.len(),
            forall|j: int| 0 <= j < i ==> !thread_fits(#[trigger] threads@[j], kind as int),
        decreases threads@.len() - i,
    {
        let thread = &threads[i];
        let fits = if kind == 0 {
            thread.tokens.len() == 0 && thread.args.len() == 0
        } else if kind == 1 {
            thread.args.len() == 0
        } else {
            thread.tokens.len() == 0
        };
        if fits {
            return Some(i);
        }
        i = i + 1;
    }
    None
}

/// The thread to take the match from: the first one that used up both the
/// pattern and the arguments, else the first that used up the arguments,
/// else the first that used up the pattern.
pub fn get_correspondances_thread(threads: &Vec<MacroThread>) -> (res: Option<usize>)
    ensures
        res matches Some(i) ==> i < threads@.len() && exists|kind: int|
            0 <= kind <= 2 && thread_fits(threads@[i as int], kind) && (forall|j: int|
                0 <= j < i ==> !thread_fits(#[trigger] threads@[j], kind)) && (forall|k: int, j: int|
                0 <= k < kind && 0 <= j < threads@.len() ==> !#[trigger] thread_fits(threads@[j], k)),
        res is None ==> forall|j: int|
            0 <= j < threads@.len() ==> #[trigger] threads@[j].tokens@.len() > 0 && threads@[j].args@.len()
                > 0,
{
    if let Some(i) = first_fitting(threads, 0) {
        assert(thread_fits(threads@[i as int], 0));
        return Some(i);
    }
    if let Some(i) = first_fitting(threads, 1) {
        assert(thread_fits(threads@[i as int], 1));
        return Some(i);
    }
    if let Some(i) = first_fitting(threads, 2) {
        assert(thread_fits(threads@[i as int], 2));
        return Some(i);
    }
    proof {
        assert forall|j: int| 0 <= j < threads@.len() implies #[trigger] threads@[j].tokens@.len() > 0
            && threads@[j].args@.len() > 0 by {
            assert(!thread_fits(threads@[j], 1));
            assert(!thread_fits(threads@[j], 2));
        }
    }
    None
}

/// Matches the arguments of an invocation against a pattern, trying all the
/// ways a repetition can match at once.
pub struct MacroArgMatcher<'a> {
    pub threads: Vec<MacroThread<'a>>,
    pub must_be_completed: bool,
    /// The arguments and the pattern the matching started from.
    pub start: Ghost<(Seq<Token>, Seq<MacroFragment>)>,
}

impl<'a> MacroArgMatcher<'a> {
    /// The matching of `args` against the pattern `thread`, not yet started.
    pub fn new(args: &'a [Token], thread: &'a [MacroFragment]) -> (res: Self)
        ensures
            res.threads@.len() == 1,
            res.threads@[0].args@ == args@,
            res.threads@[0].tokens@ == thread@,
            !res.must_be_completed,
            res.start@ == (args@, thread@),
            res.wf(),
            res.fresh(),
    {
        assert(args@.skip(0) =~= args@);
        assert(thread@.skip(0) =~= thread@);
        let mut threads: Vec<MacroThread<'a>> = Vec::new();
        threads.push(MacroThread { args, tokens: thread, correspondances: Correspondance::new() });
        MacroArgMatcher { threads, must_be_completed: false, start: Ghost((args@, thread@)) }
    }

    /// The matching has not started: one thread, with all the arguments, all
    /// the pattern, and nothing bound.
    pub open spec fn fresh(&self) -> bool {
        &&& self.threads@.len() == 1
        &&& self.threads@[0].args@ == self.start@.0
        &&& self.threads@[0].tokens@ == self.start@.1
        &&& self.threads@[0].correspondances.entries@.len() == 0
        &&& self.threads@[0].correspondances.nested_corresp@.len() == 0
        &&& self.threads@[0].correspondances.nested_corresp_keys@.len() == 0
    }

    /// Every thread has what is left of the arguments and of the pattern
    /// the matching started from.
    pub open spec fn wf(&self) -> bool {
        &&& forall|i: int|
            0 <= i < self.threads@.len() ==> is_tail(#[trigger] self.threads@[i].args@, self.start@.0)
                && is_tail(self.threads@[i].tokens@, self.start@.1)
        &&& threads_sorted(self.threads@)
        &&& threads_bind_only(self.threads@, self.start@.1)
    }

    /// Matches all the arguments against the whole pattern.
    pub fn run(&mut self) -> (res: Result<Correspondance, ParseError>)
        requires
            old(self).wf(),
        ensures
            final(self).must_be_completed,
            final(self).start@ == old(self).start@,
            res matches Ok(c) ==> entries_sorted(c.entries@),
            res matches Ok(c) ==> binds_only(c.entries@, variable_names(old(self).start@.1)),
            old(self).fresh() && plain_pattern(old(self).start@.1) ==> (res is Ok
                <==> plain_match_succeeds(old(self).start@.1, old(self).start@.0, true)),
            old(self).fresh() && plain_pattern(old(self).start@.1) ==> (res matches Ok(c)
                ==> matched_plain(
                c,
                old(self).start@.1,
                old(self).start@.0,
                old(self).start@.1.len() as int,
            )),
            old(self).fresh() && repeats_plain(old(self).start@.1, old(self).start@.0) ==> res is Ok,
            old(self).fresh() && repeats_plain(old(self).start@.1, old(self).start@.0)
                && old(self).start@.1[0]->Repetition_0@[0] is Ident ==> (res matches Ok(c) && gathered(
                c,
                old(self).start@.1[0]->Repetition_0@[0]->Ident_0.name@,
                old(self).start@.0,
            ) && keys_spec(c) == seq![old(self).start@.1[0]->Repetition_0@[0]->Ident_0.name@]),
    {
        self.must_be_completed = true;
        let (correspondances, _) = self.match_threads()?;
        proof {
            let start = old(self).start@;
            if old(self).fresh() && repeats_plain(start.1, start.0) && start.1[0]->Repetition_0@[0] is Ident {
                lemma_gathered_keys(correspondances, start.1[0]->Repetition_0@[0]->Ident_0.name@, start.0);
            }
        }
        Ok(correspondances)
    }

    /// Advances all the threads one step at a time until one of them is
    /// done (or none is left), and gives what the best one matched and the
    /// arguments it left.
    pub fn match_threads(&mut self) -> (res: Result<(Correspondance, &'a [Token]), ParseError>)
        requires
            old(self).wf(),
        ensures
            final(self).start@ == old(self).start@,
            final(self).must_be_completed == old(self).must_be_completed,
            res matches Ok((_, rest)) ==> is_tail(rest@, old(self).start@.0),
            res matches Ok((_, rest)) ==> old(self).must_be_completed ==> rest@.len() == 0,
            res matches Ok((c, _)) ==> entries_sorted(c.entries@),
            res matches Ok((c, _)) ==> binds_only(c.entries@, variable_names(old(self).start@.1)),
            (exists|i: int|
                0 <= i < old(self).threads@.len() && is_solution(
                    #[trigger] old(self).threads@[i],
                    old(self).must_be_completed,
                )) ==> res is Ok,
            old(self).threads@.len() == 0 ==> res is Err,
            old(self).fresh() && plain_pattern(old(self).start@.1) ==> (res is Ok
                <==> plain_match_succeeds(
                old(self).start@.1,
                old(self).start@.0,
                old(self).must_be_completed,
            )),
            old(self).fresh() && plain_pattern(old(self).start@.1) ==> (res matches Ok((c, rest))
                ==> matched_plain(
                c,
                old(self).start@.1,
                old(self).start@.0,
                match_length(old(self).start@.1, old(self).start@.0),
            ) && rest@ == old(self).start@.0.skip(
                match_length(old(self).start@.1, old(self).start@.0),
            )),
        old(self).fresh() && old(self).must_be_completed && repeats_plain(
            old(self).start@.1,
            old(self).start@.0,
        ) ==> res is Ok,
        old(self).fresh() && old(self).must_be_completed && repeats_plain(
            old(self).start@.1,
            old(self).start@.0,
        ) && old(self).start@.1[0]->Repetition_0@[0] is Ident ==> (res matches Ok((c, _)) && gathered(
            c,
            old(self).start@.1[0]->Repetition_0@[0]->Ident_0.name@,
            old(self).start@.0,
        )),
        decreases old(self).start@.1,
    {
        let ghost start = self.start@;
        let ghost plain = old(self).fresh() && plain_pattern(old(self).start@.1);
        let ghost mbc = old(self).must_be_completed;
        let ghost rep = old(self).fresh() && mbc && repeats_plain(start.1, start.0);
        let ghost repx = rep && start.1[0]->Repetition_0@[0] is Ident;
        let ghost xname = start.1[0]->Repetition_0@[0]->Ident_0.name@;
        let ghost k = match_length(start.1, start.0);
        let mut new_threads = clone_threads(&self.threads);
        let ghost mut s: int = 0;
        proof {
            if plain {
                assert(start.0.skip(0) =~= start.0);
                assert(start.1.skip(0) =~= start.1);
                assert(alive_at(start, 0));
                let c = new_threads@[0].correspondances;
                assert forall|n: Seq<char>| #[trigger] has_entry(c.entries@, n) <==> binds_name_before(
                    start.1,
                    0,
                    n,
                ) by {
                    assert(!has_entry(self.threads@[0].correspondances.entries@, n));
                }
                assert forall|n: Seq<char>| #[trigger] tokens_for(c.entries@, n) == bound_by(
                    start.1,
                    start.0,
                    0,
                    n,
                ) by {
                    assert(!has_entry(self.threads@[0].correspondances.entries@, n));
                }
                assert(new_threads@[0].args == self.threads@[0].args);
                assert(new_threads@[0].args@ == start.0.skip(0));
                assert(new_threads@[0].tokens@ == start.1.skip(0));
                assert(entries_sorted(c.entries@));
                assert(c.nested_corresp@.len() == 0);
                assert(matched_plain(c, start.1, start.0, 0));
                assert(thread_at(new_threads@[0], start, 0));
            }
        }
        proof {
            assert forall|i: int| 0 <= i < new_threads@.len() implies binds_only(
                #[trigger] new_threads@[i].correspondances.entries@,
                variable_names(start.1),
            ) by {
                assert(binds_only(self.threads@[i].correspondances.entries@, variable_names(start.1)));
                assert forall|n: Seq<char>| #[trigger] has_entry(new_threads@[i].correspondances.entries@, n)
                    implies variable_names(start.1).contains(n) by {
                    assert(same_bound_names(
                        new_threads@[i].correspondances.entries@,
                        self.threads@[i].correspondances.entries@,
                    ));
                    assert(has_entry(self.threads@[i].correspondances.entries@, n));
                }
            }
            assert forall|i: int| 0 <= i < new_threads@.len() implies is_tail(
                #[trigger] new_threads@[i].args@,
                start.0,
            ) && is_tail(new_threads@[i].tokens@, start.1) by {
                assert(new_threads@[i].args == self.threads@[i].args);
                assert(is_tail(self.threads@[i].args@, start.0));
            }
        }
        proof {
            if exists|i: int|
                0 <= i < old(self).threads@.len() && is_solution(
                    #[trigger] old(self).threads@[i],
                    old(self).must_be_completed,
                ) {
                let i = choose|i: int|
                    0 <= i < old(self).threads@.len() && is_solution(
                        #[trigger] old(self).threads@[i],
                        old(self).must_be_completed,
                    );
                assert(new_threads@[i].args == self.threads@[i].args);
                assert(is_solution(new_threads@[i], old(self).must_be_completed));
            }
        }
        let total_args = match self.threads.len() {
            0 => 0,
            _ => self.threads[0].args.len(),
        };
        // each step uses up an argument or a part of the pattern, so no
        // thread lives longer than this many steps
        let mut fuel: usize = match total_args.saturating_add(1).checked_mul(
            start_pattern_len(&self.threads).saturating_add(1),
        ) {
            Some(steps) => steps,
            None => usize::MAX,
        };
        let ghost fuel0: int = fuel as int;
        proof {
            if plain {
                lemma_steps_enough(start.0.len() as int, start.1.len() as int, fuel0);
            }
            if rep {
                assert(total_args == start.0.len());
                let sa: int = if start.0.len() + 1 > usize::MAX { usize::MAX as int } else { (start.0.len() + 1) as int };
                assert(sa >= start.0.len());
                assert(sa * 2 >= sa) by (nonlinear_arith)
                    requires
                        sa >= 0,
                ;
                assert(fuel0 >= start.0.len());
                assert(start.0.skip(0) =~= start.0);
                assert(new_threads@[0].args == old(self).threads@[0].args);
                assert(new_threads@[0].tokens == old(self).threads@[0].tokens);
                assert(new_threads@[0].args@ == start.0);
                assert(goes_on_at(new_threads@[0], start, 0));
                assert(has_go_on(new_threads@, start, 0));
                if repx {
                    assert(start.0.take(0) =~= Seq::<Token>::empty());
                    assert(gathered(old(self).threads@[0].correspondances, xname, start.0.take(0)));
                    lemma_gathered_copy(
                        new_threads@[0].correspondances,
                        old(self).threads@[0].correspondances,
                        xname,
                        start.0.take(0),
                    );
                    assert(thread_shape(new_threads@[0], start, 0, xname));
                }
            }
        }
        loop
            invariant
                self.start@ == start,
                start == old(self).start@,
                self.must_be_completed == old(self).must_be_completed,
                plain == (old(self).fresh() && plain_pattern(old(self).start@.1)),
                mbc == old(self).must_be_completed,
                k == match_length(start.1, start.0),
                plain ==> plain_threads_at(new_threads@, start, s),
                plain ==> 0 <= s && fuel as int == fuel0 - s,
                plain ==> (fuel0 >= k + 1 || (start.0.len() == start.1.len() && fuel0 >= k)),
                plain && plain_match_succeeds(start.1, start.0, mbc) ==> alive_at(start, s),
                forall|i: int|
                    0 <= i < new_threads@.len() ==> is_tail(#[trigger] new_threads@[i].args@, start.0)
                        && is_tail(new_threads@[i].tokens@, start.1),
                threads_sorted(new_threads@),
                threads_bind_only(new_threads@, start.1),
                (exists|i: int|
                    0 <= i < old(self).threads@.len() && is_solution(
                        #[trigger] old(self).threads@[i],
                        old(self).must_be_completed,
                    )) ==> (exists|i: int|
                    0 <= i < new_threads@.len() && is_solution(
                        #[trigger] new_threads@[i],
                        old(self).must_be_completed,
                    )),
                old(self).threads@.len() == 0 ==> new_threads@.len() == 0,
                rep == (old(self).fresh() && mbc && repeats_plain(start.1, start.0)),
                rep ==> 0 <= s && fuel as int == fuel0 - s && fuel0 >= start.0.len(),
                rep ==> (has_go_on(new_threads@, start, s) && s < start.0.len()) || has_solution(
                    new_threads@,
                    mbc,
                ),
                repx == (rep && start.1[0]->Repetition_0@[0] is Ident),
                xname == start.1[0]->Repetition_0@[0]->Ident_0.name@,
                repx ==> forall|q: int|
                    0 <= q < new_threads@.len() ==> #[trigger] thread_shape(new_threads@[q], start, s, xname),
            ensures
                rep ==> has_solution(new_threads@, mbc),
                repx ==> forall|q: int|
                    0 <= q < new_threads@.len() ==> #[trigger] thread_shape(new_threads@[q], start, s, xname),
                plain ==> plain_threads_at(new_threads@, start, s),
                plain && plain_match_succeeds(start.1, start.0, mbc) ==> alive_at(start, s),
                plain && alive_at(start, s) ==> is_solution(new_threads@[0], mbc),
            decreases fuel,
        {
            if has_one_solution(&new_threads, self.must_be_completed) || new_threads.len() == 0 {
                proof {
                    if rep && !has_solution(new_threads@, mbc) {
                        let q = choose|q: int| 0 <= q < new_threads@.len() && #[trigger] goes_on_at(
                            new_threads@[q],
                            start,
                            s,
                        );
                    }
                }
                break ;
            }
            if fuel == 0 {
                return Err(crate::parser::util::parse_error::no_correspondance("macro"));
            }
            fuel = fuel - 1;
            let mut new_new_threads: Vec<MacroThread<'a>> = Vec::new();
            let mut i: usize = 0;
            while i < new_threads.len()
                invariant
                    i <= new_threads@.len(),
                    self.start@ == start,
                    start == old(self).start@,
                    self.must_be_completed == old(self).must_be_completed,
                    forall|k: int|
                        0 <= k < new_threads@.len() ==> is_tail(#[trigger] new_threads@[k].args@, start.0)
                            && is_tail(new_threads@[k].tokens@, start.1),
                    threads_sorted(new_threads@),
                    threads_bind_only(new_threads@, start.1),
                    threads_from(new_new_threads@, start),
                    old(self).threads@.len() == 0 ==> new_threads@.len() == 0,
                    plain == (old(self).fresh() && plain_pattern(old(self).start@.1)),
                    mbc == old(self).must_be_completed,
                    k == match_length(start.1, start.0),
                    plain ==> plain_threads_at(new_threads@, start, s),
                    plain ==> forall|q: int|
                        0 <= q < new_threads@.len() ==> !is_solution(#[trigger] new_threads@[q], mbc),
                    plain && i == 0 ==> new_new_threads@.len() == 0,
                    plain && i > 0 ==> plain_threads_at(new_new_threads@, start, s + 1),
                    rep == (old(self).fresh() && mbc && repeats_plain(start.1, start.0)),
                    rep ==> 0 <= s && fuel as int == fuel0 - s - 1 && fuel0 >= start.0.len(),
                    rep ==> s < start.0.len() && has_go_on(new_threads@, start, s),
                    rep && (exists|q: int| 0 <= q < i && #[trigger] goes_on_at(new_threads@[q], start, s))
                        ==> (has_go_on(new_new_threads@, start, s + 1) && s + 1 < start.0.len())
                        || has_solution(new_new_threads@, mbc),
                    repx == (rep && start.1[0]->Repetition_0@[0] is Ident),
                    xname == start.1[0]->Repetition_0@[0]->Ident_0.name@,
                    repx ==> forall|q: int|
                        0 <= q < new_threads@.len() ==> #[trigger] thread_shape(new_threads@[q], start, s, xname),
                    repx ==> forall|q: int|
                        0 <= q < new_new_threads@.len() ==> #[trigger] thread_shape(
                            new_new_threads@[q],
                            start,
                            s + 1,
                            xname,
                        ),
                decreases new_threads@.len() - i,
            {
                let thread = &new_threads[i];
                let ghost thread_args = thread.args@;
                let ghost thread_tokens = thread.tokens@;
                if thread.args.len() > 0 {
                    let arg = &thread.args[0];
                    let tokens = thread.tokens;
                    if tokens.len() == 0 {
                        proof {
                            if plain {
                                assert(start.1.skip(s).len() == 0);
                                assert(!alive_at(start, s + 1));
                            }
                        }
                        i = i + 1;
                        continue ;
                    }
                    let rest_args = vstd::slice::slice_subrange(thread.args, 1, thread.args.len());
                    let rest_tokens = vstd::slice::slice_subrange(tokens, 1, tokens.len());
                    proof {
                        assert(rest_args@ =~= start.0.skip(start.0.len() - rest_args@.len()));
                        assert(rest_tokens@ =~= start.1.skip(start.1.len() - rest_tokens@.len()));
                    }
                    match &tokens[0] {
                        MacroFragment::Ident(ident) => {
                            proof {
                                if repx {
                                    assert(thread_shape(new_threads@[i as int], start, s, xname));
                                    assert(tokens@ == start.1);
                                }
                            }
                            if let TokenType::Ident(_) = arg.token_type {
                                let mut correspondances = thread.correspondances.duplicate();
                                correspondances.insert_direct(ident.name.clone(), arg.clone());
                                proof {
                                    let pos = start.1.len() - thread_tokens.len();
                                    assert(thread_tokens[0] == start.1[pos]);
                                    lemma_variable_name_at(start.1, pos);
                                    assert(binds_only(
                                        new_threads@[i as int].correspondances.entries@,
                                        variable_names(start.1),
                                    ));
                                    assert forall|n: Seq<char>| #[trigger] has_entry(
                                        correspondances.entries@,
                                        n,
                                    ) implies variable_names(start.1).contains(n) by {
                                        if n != ident.name@ {
                                            assert(has_entry(thread.correspondances.entries@, n));
                                        }
                                    }
                                }
                                proof {
                                    if plain {
                                        lemma_plain_step_ident(
                                            start,
                                            s,
                                            thread.correspondances,
                                            correspondances,
                                            ident.name@,
                                            *arg,
                                        );
                                        assert(rest_args@ =~= start.0.skip(s + 1));
                                        assert(rest_tokens@ =~= start.1.skip(s + 1));
                                    }
                                }
                                push_thread(
                                    &mut new_new_threads,
                                    MacroThread { args: rest_args, tokens: rest_tokens, correspondances },
                                    Ghost(start),
                                );
                            } else {
                                proof {
                                    if plain {
                                        assert(!fragment_matches(start.1[s], start.0[s]));
                                        assert(!prefix_matches(start.1, start.0, s + 1));
                                    }
                                }
                            }
                        },
                        MacroFragment::Token(t) => {
                            proof {
                                if repx {
                                    assert(thread_shape(new_threads@[i as int], start, s, xname));
                                    assert(tokens@ == start.1);
                                }
                            }
                            if t.token_type.same_as(&arg.token_type) {
                                let copy = thread.correspondances.duplicate();
                                proof {
                                    if plain {
                                        lemma_plain_step_token(start, s, thread.correspondances, copy);
                                        assert(rest_args@ =~= start.0.skip(s + 1));
                                        assert(rest_tokens@ =~= start.1.skip(s + 1));
                                    }
                                }
                                push_thread(
                                    &mut new_new_threads,
                                    MacroThread { args: rest_args, tokens: rest_tokens, correspondances: copy },
                                    Ghost(start),
                                );
                            } else {
                                proof {
                                    if plain {
                                        assert(!fragment_matches(start.1[s], start.0[s]));
                                        assert(!prefix_matches(start.1, start.0, s + 1));
                                    }
                                }
                            }
                        },
                        MacroFragment::Repetition(repetition) => {
                            proof {
                                if plain {
                                    assert(tokens@[0] == start.1[s]);
                                }
                            }
                            let ghost before_nothing = new_new_threads@;
                            proof {
                                if repx {
                                    assert(thread_shape(new_threads@[i as int], start, s, xname));
                                    assert(tokens@ == start.1);
                                    assert(goes_on_at(new_threads@[i as int], start, s));
                                    assert(rest_tokens@.len() == 0);
                                }
                            }
                            // the repetition matches nothing
                            let nothing = MacroThread {
                                args: thread.args,
                                tokens: rest_tokens,
                                correspondances: thread.correspondances.duplicate(),
                            };
                            proof {
                                if repx {
                                    assert(thread_shape(nothing, start, s + 1, xname));
                                    lemma_shape_push(before_nothing, nothing, start, s + 1, xname);
                                }
                            }
                            push_thread(&mut new_new_threads, nothing, Ghost(start));
                            proof {
                                let pos = start.1.len() - thread_tokens.len();
                                assert(thread_tokens[0] == start.1[pos]);
                                assert(decreases_to!(start.1 => start.1[pos]));
                                assert(decreases_to!(start.1[pos] => *repetition));
                                assert(decreases_to!(*repetition => repetition@));
                                assert(decreases_to!(start.1 => repetition@));
                            }
                            let ghost repeats_on = rep && goes_on_at(new_threads@[i as int], start, s);
                            proof {
                                if repeats_on {
                                    assert(tokens@ == start.1);
                                    assert(repetition@ == start.1[0]->Repetition_0@);
                                    assert(thread_args == start.0.skip(s));
                                    assert(thread_args[0] == start.0[s]);
                                    assert(fragment_matches(repetition@[0], thread_args[0]));
                                    assert(prefix_matches(repetition@, thread_args, 1));
                                }
                            }
                            let mut matcher = MacroArgMatcher::new(thread.args, repetition.as_slice());
                            let matched_repetition = matcher.match_threads();
                            proof {
                                if repeats_on {
                                    assert(matched_repetition is Ok);
                                }
                            }
                            if let Ok((correspondances, new_args)) = matched_repetition {
                                let ghost inner_result = correspondances;
                                let matched = with_repetition(&thread.correspondances, correspondances);
                                proof {
                                    assert(new_args@ =~= start.0.skip(start.0.len() - new_args@.len()));
                                    if repeats_on {
                                        assert(new_args@ == thread_args.skip(1));
                                        assert(new_args@ =~= start.0.skip(s + 1));
                                    }
                                    if repx && repeats_on {
                                        let body = repetition@;
                                        assert(body[0] is Ident && body[0]->Ident_0.name@ == xname);
                                        assert forall|n: Seq<char>| #[trigger] has_entry(inner_result.entries@, n)
                                            <==> n == xname by {
                                            if n == xname {
                                                assert(body[0] is Ident && body[0]->Ident_0.name@ == n);
                                                assert(binds_name_before(body, 1, n));
                                            }
                                        }
                                        assert(bound_by(body, thread_args, 0, xname) =~= Seq::<Token>::empty());
                                        assert(!has_token_like(Seq::<Token>::empty(), thread_args[0].token_type));
                                        assert(bound_by(body, thread_args, 1, xname) =~= seq![thread_args[0]]);
                                        assert(single_binding(inner_result, xname, thread_args[0]));
                                        assert(thread_shape(new_threads@[i as int], start, s, xname));
                                        assert(gathered(thread.correspondances, xname, start.0.take(s)));
                                        assert(start.0.take(s).push(thread_args[0]) =~= start.0.take(s + 1));
                                        assert(gathered(matched, xname, start.0.take(s + 1)));
                                    }
                                }
                                // the repetition matched and goes on, when it
                                // used up some arguments
                                if new_args.len() < thread.args.len() {
                                    let copy = matched.duplicate();
                                    proof {
                                        if repx && repeats_on {
                                            lemma_gathered_copy(copy, matched, xname, start.0.take(s + 1));
                                        }
                                    }
                                    let goes_on = MacroThread { args: new_args, tokens, correspondances: copy };
                                    proof {
                                        if repx {
                                            assert(goes_on_at(goes_on, start, s + 1));
                                            assert(thread_shape(goes_on, start, s + 1, xname));
                                            lemma_shape_push(new_new_threads@, goes_on, start, s + 1, xname);
                                        }
                                    }
                                    push_thread(&mut new_new_threads, goes_on, Ghost(start));
                                }
                                let ghost before_stop = new_new_threads@;
                                // the repetition matched and stops
                                let stops = MacroThread { args: new_args, tokens: rest_tokens, correspondances: matched };
                                proof {
                                    if repx {
                                        assert(rest_tokens@.len() == 0);
                                        if new_args@.len() == 0 {
                                            assert(start.0.take(s + 1) =~= start.0);
                                        }
                                        assert(thread_shape(stops, start, s + 1, xname));
                                        lemma_shape_push(before_stop, stops, start, s + 1, xname);
                                    }
                                }
                                push_thread(&mut new_new_threads, stops, Ghost(start));
                                proof {
                                    if repeats_on {
                                        if s + 1 < start.0.len() {
                                            let g = new_new_threads@[before_stop.len() - 1];
                                            assert(goes_on_at(g, start, s + 1));
                                            assert(has_go_on(new_new_threads@, start, s + 1));
                                        } else {
                                            let last = new_new_threads@[before_stop.len() as int];
                                            assert(last.args@.len() == 0);
                                            assert(last.tokens@.len() == 0);
                                            assert(is_solution(last, mbc));
                                            assert(has_solution(new_new_threads@, mbc));
                                            if repx {
                                                assert(start.0.take(s + 1) =~= start.0);
                                            }
                                        }
                                    }
                                }
                            }
                        },
                    }
                } else {
                    let done = if self.must_be_completed {
                        thread.tokens.len() == 0 && thread.args.len() == 0
                    } else {
                        thread.tokens.len() == 0
                    };
                    if done {
                        let copy = thread.correspondances.duplicate();
                        proof {
                            if repx {
                                assert(thread_shape(new_threads@[i as int], start, s, xname));
                                lemma_gathered_copy(copy, thread.correspondances, xname, start.0);
                            }
                        }
                        return Ok((copy, thread.args));
                    }
                    proof {
                        if plain {
                            assert(start.0.skip(s).len() == 0);
                            assert(!alive_at(start, s + 1));
                        }
                    }
                }
                i = i + 1;
            }
            self.threads = clone_threads(&new_new_threads);
            new_threads = new_new_threads;
            proof {
                s = s + 1;
            }
        }
        let chosen = get_correspondances_thread(&new_threads);
        proof {
            if plain && alive_at(start, s) {
                let t0 = new_threads@[0];
                assert(s == k);
                if mbc {
                    assert(thread_fits(t0, 0));
                } else if t0.args@.len() == 0 {
                    assert(thread_fits(t0, 1));
                } else {
                    assert(thread_fits(t0, 2));
                }
            }
            if exists|i: int|
                0 <= i < new_threads@.len() && is_solution(
                    #[trigger] new_threads@[i],
                    old(self).must_be_completed,
                ) {
                let j = choose|j: int|
                    0 <= j < new_threads@.len() && is_solution(
                        #[trigger] new_threads@[j],
                        old(self).must_be_completed,
                    );
                if old(self).must_be_completed {
                    assert(thread_fits(new_threads@[j], 0));
                } else if new_threads@[j].args@.len() == 0 {
                    assert(thread_fits(new_threads@[j], 1));
                } else {
                    assert(thread_fits(new_threads@[j], 2));
                }
                assert(chosen is Some);
                if old(self).must_be_completed {
                    let i = chosen->Some_0 as int;
                    let kind = choose|kind: int|
                        0 <= kind <= 2 && thread_fits(new_threads@[i], kind) && (forall|m: int|
                            0 <= m < i ==> !thread_fits(#[trigger] new_threads@[m], kind)) && (forall|k: int, m: int|
                            0 <= k < kind && 0 <= m < new_threads@.len() ==> !#[trigger] thread_fits(new_threads@[m], k));
                    if kind > 0 {
                        assert(!thread_fits(new_threads@[j], 0));
                    }
                }
            }
        }
        match chosen {
            Some(i) => {
                if self.must_be_completed && (new_threads[i].args.len() > 0) {
                    return Err(crate::parser::util::parse_error::no_correspondance("macro"));
                }
                let copy = new_threads[i].correspondances.duplicate();
                proof {
                    if repx {
                        let t = new_threads@[i as int];
                        assert(thread_shape(t, start, s, xname));
                        assert(has_solution(new_threads@, mbc));
                        let j = choose|j: int| 0 <= j < new_threads@.len() && is_solution(
                            #[trigger] new_threads@[j],
                            mbc,
                        );
                        assert(thread_fits(new_threads@[j], 0));
                        let kind = choose|kind: int|
                            0 <= kind <= 2 && thread_fits(new_threads@[i as int], kind) && (forall|m: int|
                                0 <= m < i ==> !thread_fits(#[trigger] new_threads@[m], kind)) && (forall|k: int, m: int|
                                0 <= k < kind && 0 <= m < new_threads@.len() ==> !#[trigger] thread_fits(new_threads@[m], k));
                        assert(kind == 0);
                        assert(t.tokens@.len() == 0 && t.args@.len() == 0);
                        lemma_gathered_copy(copy, t.correspondances, xname, start.0);
                    }
                }
                Ok((copy, new_threads[i].args))
            },
            None => Err(crate::parser::util::parse_error::no_correspondance("macro")),
        }
    }
}

/// The length of the pattern of the first thread.
fn start_pattern_len(threads: &Vec<MacroThread>) -> (res: usize)
    ensures
        threads@.len() == 0 ==> res == 0,
        threads@.len() > 0 ==> res == threads@[0].tokens@.len(),
{
    if threads.len() == 0 {
        0
    } else {
        threads[0].tokens.len()
    }
}

/// Copies of the threads.
#[verifier::rlimit(40)]
pub fn clone_threads<'a>(threads: &Vec<MacroThread<'a>>) -> (res: Vec<MacroThread<'a>>)
    ensures
        res@.len() == threads@.len(),
        threads_sorted(threads@) ==> threads_sorted(res@),
        forall|j: int|
            0 <= j < threads@.len() ==> #[trigger] res@[j].args == threads@[j].args
                && res@[j].tokens == threads@[j].tokens,
        forall|j: int|
            0 <= j < threads@.len() ==> same_bound_names(
                #[trigger] res@[j].correspondances.entries@,
                threads@[j].correspondances.entries@,
            ),
        forall|j: int|
            0 <= j < threads@.len() ==> (#[trigger] res@[j]).correspondances.nested_corresp@.len()
                == threads@[j].correspondances.nested_corresp@.len(),
        forall|j: int|
            0 <= j < threads@.len() ==> copy_of(
                (#[trigger] res@[j]).correspondances,
                threads@[j].correspondances,
            ),
{
    let mut res: Vec<MacroThread<'a>> = Vec::new();
    let mut i: usize = 0;
    while i < threads.len()
        invariant
            i <= threads@.len(),
            res@.len() == i,
            forall|k: int|
                0 <= k < i ==> #[trigger] res@[k].args == threads@[k].args && res@[k].tokens
                    == threads@[k].tokens,
            threads_sorted(threads@) ==> threads_sorted(res@),
            forall|k: int|
                0 <= k < i ==> same_bound_names(
                    #[trigger] res@[k].correspondances.entries@,
                    threads@[k].correspondances.entries@,
                ),
            forall|k: int|
                0 <= k < i ==> (#[trigger] res@[k]).correspondances.nested_corresp@.len()
                    == threads@[k].correspondances.nested_corresp@.len(),
            forall|k: int|
                0 <= k < i ==> copy_of((#[trigger] res@[k]).correspondances, threads@[k].correspondances),
        decreases threads@.len() - i,
    {
        let thread = &threads[i];
        let copy = thread.correspondances.duplicate();
        let ghost before = res@;
        res.push(MacroThread { args: thread.args, tokens: thread.tokens, correspondances: copy });
        proof {
            assert(res@ == before.push(res@[i as int]));
            assert forall|k: int| 0 <= k < i + 1 implies #[trigger] res@[k].args == threads@[k].args
                && res@[k].tokens == threads@[k].tokens by {
                if k < i {
                    assert(res@[k] == before[k]);
                }
            }
            if threads_sorted(threads@) {
                assert forall|k: int| 0 <= k < res@.len() implies entries_sorted(
                    #[trigger] res@[k].correspondances.entries@,
                ) by {
                    if k < i {
                        assert(res@[k] == before[k]);
                    }
                }
            }
            assert forall|k: int| 0 <= k < i + 1 implies same_bound_names(
                #[trigger] res@[k].correspondances.entries@,
                threads@[k].correspondances.entries@,
            ) by {
                if k < i {
                    assert(res@[k] == before[k]);
                }
            }
            assert forall|k: int| 0 <= k < i + 1 implies (#[trigger] res@[k]).correspondances.nested_corresp@.len()
                == threads@[k].correspondances.nested_corresp@.len() by {
                if k < i {
                    assert(res@[k] == before[k]);
                }
            }
            assert forall|k: int| 0 <= k < i + 1 implies copy_of(
                (#[trigger] res@[k]).correspondances,
                threads@[k].correspondances,
            ) by {
                if k < i {
                    assert(res@[k] == before[k]);
                }
            }
        }
        i = i + 1;
    }
    res
}

} // verus!
