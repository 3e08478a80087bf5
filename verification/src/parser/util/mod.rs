use vstd::prelude::*;

use crate::lexer::token::same_token_type;
use crate::lexer::lexer::{fails_after, lexed};
use crate::lexer::{Lexer, LexerError, Token, TokenType};
use crate::parser::parsable::{
    is_suffix, lemma_skip_suffix, lemma_suffix_refl, lemma_suffix_trans, parse_post, Parsable,
};
use crate::parser::parse_ctx::{ctx_kept, ctx_same, ParseCtx};

pub mod named;
pub mod parse_error;

pub use parse_error::{Diagnostics, ParseError};

verus! {

/// `tokens` once the empty lines (an indentation followed by a line end) at
/// its start are taken off.
pub open spec fn skip_empty_lines(tokens: Seq<Token>) -> Seq<Token>
    decreases tokens.len(),
{
    if tokens.len() >= 2 && tokens[0].token_type is Indent && tokens[1].token_type is Eol {
        skip_empty_lines(tokens.skip(2))
    } else {
        tokens
    }
}

pub proof fn lemma_skip_empty_lines_suffix(tokens: Seq<Token>)
    ensures
        is_suffix(skip_empty_lines(tokens), tokens),
    decreases tokens.len(),
{
    if tokens.len() >= 2 && tokens[0].token_type is Indent && tokens[1].token_type is Eol {
        lemma_skip_empty_lines_suffix(tokens.skip(2));
        lemma_skip_suffix(tokens, 2);
        lemma_suffix_trans(skip_empty_lines(tokens.skip(2)), tokens.skip(2), tokens);
    } else {
        lemma_suffix_refl(tokens);
    }
}

/// Skipping the empty lines twice skips no more than once.
pub proof fn lemma_skip_empty_lines_idempotent(tokens: Seq<Token>)
    ensures
        skip_empty_lines(skip_empty_lines(tokens)) == skip_empty_lines(tokens),
    decreases tokens.len(),
{
    if tokens.len() >= 2 && tokens[0].token_type is Indent && tokens[1].token_type is Eol {
        lemma_skip_empty_lines_idempotent(tokens.skip(2));
    }
}

/// `tokens` starts with the indentation `level`.
pub open spec fn starts_with_indent(tokens: Seq<Token>, level: int) -> bool {
    tokens.len() > 0 && tokens[0].token_type is Indent && tokens[0].token_type->Indent_0 == level
}

/// After an item, the list goes on: `rest` starts with the delimiter (or is
/// empty, where the delimiter is the end of file).
pub open spec fn continues_with(rest: Seq<Token>, delim: TokenType) -> bool {
    (rest.len() == 0 && delim is Eof) || (rest.len() > 0 && same_token_type(
        rest[0].token_type,
        delim,
    ))
}

/// Whatever the first item of `tokens` gives, no delimiter follows it, so a
/// list stops there.
pub open spec fn stops_after_first<'a, T, F: Fn(&'a [Token], &mut ParseCtx) -> Result<
    (T, &'a [Token]),
    Diagnostics,
>>(tokens: &'a [Token], delim: Option<TokenType>, f: F) -> bool {
    &&& delim is Some
    &&& forall|c: &mut ParseCtx, r: Result<(T, &'a [Token]), Diagnostics>|
        #[trigger] f.ensures((tokens, c), r) ==> (r matches Ok((_, rest)) ==> !continues_with(
            rest@,
            delim->Some_0,
        ))
}

/// The list of `tokens` has exactly one item: whatever it gives, it leaves
/// `end`, where no delimiter follows.
pub open spec fn one_item<'a, T, F: Fn(&'a [Token], &mut ParseCtx) -> Result<
    (T, &'a [Token]),
    Diagnostics,
>>(tokens: &'a [Token], delim: Option<TokenType>, f: F, end: Seq<Token>) -> bool {
    &&& delim is Some
    &&& tokens@.len() > 0
    &&& !continues_with(end, delim->Some_0)
    &&& forall|c: &mut ParseCtx, r: Result<(T, &'a [Token]), Diagnostics>|
        #[trigger] f.ensures((tokens, c), r) ==> (r matches Ok((_, rest)) && rest@ == end)
}

/// The list of `tokens` has exactly two items: whatever the first item gives,
/// it leaves `mid`, which starts with the delimiter; whatever the second item
/// (after the delimiter) gives, it leaves `end`, where no delimiter follows.
pub open spec fn two_items<'a, T, F: Fn(&'a [Token], &mut ParseCtx) -> Result<
    (T, &'a [Token]),
    Diagnostics,
>>(tokens: &'a [Token], delim: Option<TokenType>, f: F, mid: Seq<Token>, end: Seq<Token>) -> bool {
    &&& delim is Some
    &&& tokens@.len() > 0
    &&& mid.len() > 1
    &&& mid.len() > 0 && same_token_type(mid[0].token_type, delim->Some_0)
    &&& !continues_with(end, delim->Some_0)
    &&& forall|c: &mut ParseCtx, r: Result<(T, &'a [Token]), Diagnostics>|
        #[trigger] f.ensures((tokens, c), r) ==> (r matches Ok((_, rest)) && rest@ == mid)
    &&& forall|t: &'a [Token], c: &mut ParseCtx, r: Result<(T, &'a [Token]), Diagnostics>|
        t@ == mid.skip(1) && #[trigger] f.ensures((t, c), r) ==> (r matches Ok((_, rest)) && rest@
            == end)
}

/// The error given where a token of type `token_type` is expected at the
/// start of `tokens`: the end of the tokens, or the token found there.
pub open spec fn expected_error(e: ParseError, tokens: Seq<Token>, token_type: TokenType) -> bool {
    if tokens.len() == 0 {
        e == ParseError::UnexpectedEof(token_type)
    } else {
        e matches ParseError::UnexpectedToken(t, expected) && t == tokens[0] && expected@ == seq![
            token_type,
        ]
    }
}

/// Consumes a token of the given type from the input tokens.
pub fn expect_token(tokens: &[Token], token_type: TokenType) -> (res: Result<&[Token], ParseError>)
    ensures
        tokens@.len() == 0 && token_type is Eof ==> (res matches Ok(rest) && rest@ == tokens@),
        !(tokens@.len() == 0 && token_type is Eof) ==> {
            &&& res is Ok <==> tokens@.len() > 0 && same_token_type(
                tokens@[0].token_type,
                token_type,
            )
            &&& res matches Ok(rest) ==> rest@ == tokens@.skip(1)
        },
        res matches Err(e) ==> expected_error(e, tokens@, token_type),
{
    if tokens.len() == 0 {
        if token_type.same_as(&TokenType::Eof) {
            return Ok(tokens);
        }
        return Err(ParseError::UnexpectedEof(token_type));
    }
    if !tokens[0].token_type.same_as(&token_type) {
        let mut expected: Vec<TokenType> = Vec::new();
        expected.push(token_type);
        return Err(ParseError::UnexpectedToken(tokens[0].clone(), expected));
    }
    Ok(vstd::slice::slice_subrange(tokens, 1, tokens.len()))
}

/// `expect_token`, with the error as diagnostics.
pub fn expect<'a>(tokens: &'a [Token], token_type: TokenType) -> (res: Result<&'a [Token], Diagnostics>)
    ensures
        tokens@.len() == 0 && token_type is Eof ==> (res matches Ok(rest) && rest@ == tokens@),
        !(tokens@.len() == 0 && token_type is Eof) ==> {
            &&& res is Ok <==> tokens@.len() > 0 && same_token_type(
                tokens@[0].token_type,
                token_type,
            )
            &&& res matches Ok(rest) ==> rest@ == tokens@.skip(1)
        },
        res matches Err(d) ==> d.errors@.len() == 1 && expected_error(d.errors@[0], tokens@, token_type),
{
    match expect_token(tokens, token_type) {
        Ok(rest) => Ok(rest),
        Err(e) => Err(Diagnostics::from_error(e)),
    }
}

/// A failed parse with the one error `e`.
pub fn fail<T>(e: ParseError) -> (res: Result<T, Diagnostics>)
    ensures
        res matches Err(d) && d.errors@ == seq![e],
{
    Err(Diagnostics::from_error(e))
}

/// Reading an item with `f` at `t` fails, and always with `e`.
pub open spec fn fails_with<'a, T, F: Fn(&'a [Token], &mut ParseCtx) -> Result<
    (T, &'a [Token]),
    Diagnostics,
>>(f: F, t: &'a [Token], e: Diagnostics) -> bool {
    forall|c: &mut ParseCtx, r: Result<(T, &'a [Token]), Diagnostics>|
        #[trigger] f.ensures((t, c), r) ==> r == Err::<(T, &'a [Token]), Diagnostics>(e)
}

/// Where the next item of a list with `n` items so far is read, the list
/// being at `rest`: past the delimiter that follows an item, if any.
pub open spec fn next_item_at(delim: Option<TokenType>, n: nat, rest: Seq<Token>) -> Seq<Token> {
    if delim is Some && n > 0 && rest.len() > 0 {
        rest.skip(1)
    } else {
        rest
    }
}

/// The error `d` that ended a list of `n` items leaving `rest`: none, where
/// the tokens ran out or no delimiter followed the last item; else the one
/// with which reading the next item failed.
pub open spec fn ended_with<'a, T, F: Fn(&'a [Token], &mut ParseCtx) -> Result<
    (T, &'a [Token]),
    Diagnostics,
>>(f: F, delim: Option<TokenType>, n: nat, rest: Seq<Token>, d: Diagnostics) -> bool {
    ||| d.errors@.len() == 0 && (next_item_at(delim, n, rest).len() == 0 || (delim is Some && n > 0
        && !continues_with(rest, delim->Some_0)))
    ||| exists|t: &'a [Token], c: &mut ParseCtx|
        t@ == next_item_at(delim, n, rest) && #[trigger] f.ensures(
            (t, c),
            Err::<(T, &'a [Token]), Diagnostics>(d),
        )
}

/// Parse a vector of items with `f` from the input tokens, separated by
/// `delim` when there is one. It does not consume the last delimiter token.
/// It returns the items, the remaining tokens, and the error that ended the list.
#[verifier::rlimit(50)]
pub fn parse_vec_with<'a, T, F>(
    tokens: &'a [Token],
    delim: Option<TokenType>,
    parse_ctx: &mut ParseCtx,
    f: F,
) -> (res: (Vec<T>, &'a [Token], Diagnostics)) where
    F: Fn(&'a [Token], &mut ParseCtx) -> Result<(T, &'a [Token]), Diagnostics>,

    requires
        forall|t: &'a [Token], c: &mut ParseCtx|
            is_suffix(t@, tokens@) && c.is_inside_fn_type_decl == old(
                parse_ctx,
            ).is_inside_fn_type_decl ==> #[trigger] f.requires((t, c)),
        forall|t: &'a [Token], c: &mut ParseCtx, r: Result<(T, &'a [Token]), Diagnostics>|
            #[trigger] f.ensures((t, c), r) ==> parse_post(t@, *c, *final(c), r),
    ensures
        is_suffix(res.1@, tokens@),
        ctx_kept(*old(parse_ctx), *final(parse_ctx)),
        (forall|t: &'a [Token], c: &mut ParseCtx, r: Result<(T, &'a [Token]), Diagnostics>|
            #[trigger] f.ensures((t, c), r) ==> ctx_same(*c, *final(c))) ==> ctx_same(
            *old(parse_ctx),
            *final(parse_ctx),
        ),
        res.0@.len() == 0 ==> res.1@ == tokens@,
        res.0@.len() > 0 ==> res.1@.len() < tokens@.len(),
        tokens@.len() > 0 && (forall|c: &mut ParseCtx, r: Result<(T, &'a [Token]), Diagnostics>|
            #[trigger] f.ensures((tokens, c), r) ==> r is Ok) ==> res.0@.len() > 0,
        (forall|c: &mut ParseCtx, r: Result<(T, &'a [Token]), Diagnostics>|
            #[trigger] f.ensures((tokens, c), r) ==> r is Err) ==> res.0@.len() == 0,
        stops_after_first(tokens, delim, f) ==> res.0@.len() <= 1,
        (forall|c: &mut ParseCtx, r: Result<(T, &'a [Token]), Diagnostics>|
            #[trigger] f.ensures((tokens, c), r) && c.disallowed_multiline_fn_call == old(
                parse_ctx,
            ).disallowed_multiline_fn_call ==> r is Err) ==> res.0@.len() == 0,
        forall|mid: Seq<Token>, end: Seq<Token>|
            #[trigger] two_items(tokens, delim, f, mid, end) ==> res.0@.len() == 2 && res.1@ == end,
        forall|end: Seq<Token>|
            #[trigger] one_item(tokens, delim, f, end) ==> res.0@.len() == 1 && res.1@ == end,
        forall|items: Seq<T>, rest: Seq<Token>|
            #[trigger] list_from(tokens@, tokens@, delim, f, items, rest) ==> res.0@ == items && res.1@
                == rest,
        res.0@.len() > 0 ==> first_given(tokens, f, res.0@[0]),
        forall|n: nat, rest: Seq<Token>|
            #[trigger] count_from(tokens@, tokens@, delim, f, n, rest) ==> res.0@.len() == n
                && res.1@ == rest,
        list_may(tokens@, tokens@, delim, f, res.0@, res.1@),
        ended_with(f, delim, res.0@.len(), res.1@, res.2),
        forall|e: Diagnostics| tokens@.len() > 0 && #[trigger] fails_with(f, tokens, e) ==> res.2 == e,
{
    let mut remaining_tokens = tokens;
    let mut items: Vec<T> = Vec::new();
    let mut diagnostics = Diagnostics::new();
    let mut remaining_tokens_with_delim = tokens;
    proof {
        lemma_suffix_refl(tokens@);
        assert forall|its: Seq<T>, rest: Seq<Token>|
            #[trigger] list_from(tokens@, tokens@, delim, f, its, rest) implies items@.len()
            <= its.len() && items@ == its.take(items@.len() as int) && list_from(
            remaining_tokens@,
            remaining_tokens_with_delim@,
            delim,
            f,
            its.skip(items@.len() as int),
            rest,
        ) by {
            assert(its.skip(0) =~= its);
            assert(its.take(0) =~= items@);
        }
    }
    proof {
        assert forall|rem: Seq<T>, rest: Seq<Token>|
            #[trigger] list_may(remaining_tokens@, remaining_tokens_with_delim@, delim, f, rem, rest)
            implies list_may(tokens@, tokens@, delim, f, items@ + rem, rest) by {
            assert(items@ + rem =~= rem);
        }
    }
    loop
        invariant_except_break
            diagnostics.errors@.len() == 0,
            remaining_tokens@ == next_item_at(delim, items@.len(), remaining_tokens_with_delim@),
            forall|rem: Seq<T>, rest: Seq<Token>|
                #[trigger] list_may(remaining_tokens@, remaining_tokens_with_delim@, delim, f, rem, rest)
                    ==> list_may(tokens@, tokens@, delim, f, items@ + rem, rest),
            forall|m: nat, rest: Seq<Token>|
                #[trigger] count_from(tokens@, tokens@, delim, f, m, rest) ==> items@.len() <= m
                    && count_from(
                    remaining_tokens@,
                    remaining_tokens_with_delim@,
                    delim,
                    f,
                    (m - items@.len()) as nat,
                    rest,
                ),
            forall|its: Seq<T>, rest: Seq<Token>|
                #[trigger] list_from(tokens@, tokens@, delim, f, its, rest) ==> items@.len()
                    <= its.len() && items@ == its.take(items@.len() as int) && list_from(
                    remaining_tokens@,
                    remaining_tokens_with_delim@,
                    delim,
                    f,
                    its.skip(items@.len() as int),
                    rest,
                ),
            stops_after_first(tokens, delim, f) ==> items@.len() == 0,
            items@.len() == 0 ==> *parse_ctx == *old(parse_ctx),
            (forall|c: &mut ParseCtx, r: Result<(T, &'a [Token]), Diagnostics>|
                #[trigger] f.ensures((tokens, c), r) && c.disallowed_multiline_fn_call == old(
                    parse_ctx,
                ).disallowed_multiline_fn_call ==> r is Err) ==> items@.len() == 0,
            forall|mid: Seq<Token>, end: Seq<Token>|
                #[trigger] two_items(tokens, delim, f, mid, end) ==> items@.len() <= 1 && (
                items@.len() == 1 ==> remaining_tokens@ == mid.skip(1)),
            forall|end: Seq<Token>|
                #[trigger] one_item(tokens, delim, f, end) ==> items@.len() == 0,
        invariant
            is_suffix(remaining_tokens@, tokens@),
            is_suffix(remaining_tokens_with_delim@, tokens@),
            remaining_tokens@.len() <= remaining_tokens_with_delim@.len(),
            ctx_kept(*old(parse_ctx), *parse_ctx),
            (forall|t: &'a [Token], c: &mut ParseCtx, r: Result<(T, &'a [Token]), Diagnostics>|
                #[trigger] f.ensures((t, c), r) ==> ctx_same(*c, *final(c))) ==> ctx_same(
                *old(parse_ctx),
                *parse_ctx,
            ),
            items@.len() == 0 ==> remaining_tokens_with_delim@ == tokens@,
            items@.len() == 0 ==> remaining_tokens == tokens,
            items@.len() > 0 ==> first_given(tokens, f, items@[0]),
            items@.len() > 0 ==> remaining_tokens_with_delim@.len() < tokens@.len(),
            (forall|c: &mut ParseCtx, r: Result<(T, &'a [Token]), Diagnostics>|
                #[trigger] f.ensures((tokens, c), r) ==> r is Err) ==> items@.len() == 0,
            forall|t: &'a [Token], c: &mut ParseCtx|
                is_suffix(t@, tokens@) && c.is_inside_fn_type_decl == old(
                    parse_ctx,
                ).is_inside_fn_type_decl ==> #[trigger] f.requires((t, c)),
            forall|t: &'a [Token], c: &mut ParseCtx, r: Result<(T, &'a [Token]), Diagnostics>|
                #[trigger] f.ensures((t, c), r) ==> parse_post(t@, *c, *final(c), r),
        ensures
            ended_with(f, delim, items@.len(), remaining_tokens@, diagnostics),
            forall|e: Diagnostics| tokens@.len() > 0 && #[trigger] fails_with(f, tokens, e) ==> diagnostics == e,
            is_suffix(remaining_tokens@, tokens@),
            ctx_kept(*old(parse_ctx), *parse_ctx),
            (forall|t: &'a [Token], c: &mut ParseCtx, r: Result<(T, &'a [Token]), Diagnostics>|
                #[trigger] f.ensures((t, c), r) ==> ctx_same(*c, *final(c))) ==> ctx_same(
                *old(parse_ctx),
                *parse_ctx,
            ),
            items@.len() == 0 ==> remaining_tokens@ == tokens@,
            items@.len() > 0 ==> remaining_tokens@.len() < tokens@.len(),
            items@.len() > 0 ==> first_given(tokens, f, items@[0]),
            tokens@.len() > 0 && (forall|c: &mut ParseCtx, r: Result<(T, &'a [Token]), Diagnostics>|
                #[trigger] f.ensures((tokens, c), r) ==> r is Ok) ==> items@.len() > 0,
            (forall|c: &mut ParseCtx, r: Result<(T, &'a [Token]), Diagnostics>|
                #[trigger] f.ensures((tokens, c), r) ==> r is Err) ==> items@.len() == 0,
            stops_after_first(tokens, delim, f) ==> items@.len() <= 1,
            (forall|c: &mut ParseCtx, r: Result<(T, &'a [Token]), Diagnostics>|
                #[trigger] f.ensures((tokens, c), r) && c.disallowed_multiline_fn_call == old(
                    parse_ctx,
                ).disallowed_multiline_fn_call ==> r is Err) ==> items@.len() == 0,
            forall|mid: Seq<Token>, end: Seq<Token>|
                #[trigger] two_items(tokens, delim, f, mid, end) ==> items@.len() == 2
                    && remaining_tokens@ == end,
            forall|end: Seq<Token>|
                #[trigger] one_item(tokens, delim, f, end) ==> items@.len() == 1
                    && remaining_tokens@ == end,
            forall|its: Seq<T>, rest: Seq<Token>|
                #[trigger] list_from(tokens@, tokens@, delim, f, its, rest) ==> items@ == its
                    && remaining_tokens@ == rest,
            forall|m: nat, rest: Seq<Token>|
                #[trigger] count_from(tokens@, tokens@, delim, f, m, rest) ==> items@.len() == m
                    && remaining_tokens@ == rest,
            list_may(tokens@, tokens@, delim, f, items@, remaining_tokens@),
        decreases remaining_tokens@.len(),
    {
        let ghost st = remaining_tokens@;
        let ghost wd = remaining_tokens_with_delim@;
        let ghost n = items@.len() as int;
        if remaining_tokens.len() == 0 {
            remaining_tokens = remaining_tokens_with_delim;
            proof {
                assert forall|its: Seq<T>, rest: Seq<Token>|
                    #[trigger] list_from(tokens@, tokens@, delim, f, its, rest) implies items@ == its
                    && remaining_tokens@ == rest by {
                    assert(list_from(st, wd, delim, f, its.skip(n), rest));
                    assert(its =~= its.take(n));
                }
                assert forall|m: nat, rest: Seq<Token>|
                    #[trigger] count_from(tokens@, tokens@, delim, f, m, rest) implies items@.len() == m
                    && remaining_tokens@ == rest by {
                    assert(count_from(st, wd, delim, f, (m - n) as nat, rest));
                }
                assert(list_may(st, wd, delim, f, Seq::<T>::empty(), wd));
                assert(items@ + Seq::<T>::empty() =~= items@);
            }
            break ;
        }
        let (item, new_remaining_tokens) = match f(remaining_tokens, parse_ctx) {
            Ok((item, new_remaining_tokens)) => (item, new_remaining_tokens),
            Err(e) => {
                remaining_tokens = remaining_tokens_with_delim;
                diagnostics = e;
                proof {
                    assert forall|its: Seq<T>, rest: Seq<Token>|
                        #[trigger] list_from(tokens@, tokens@, delim, f, its, rest) implies items@ == its
                        && remaining_tokens@ == rest by {
                        let rem = its.skip(n);
                        assert(list_from(st, wd, delim, f, rem, rest));
                        if !fails_on(f, st) {
                            let w = choose|w: Seq<Token>| #[trigger] gives(f, st, rem[0], w);
                            assert(gives(f, st, rem[0], w));
                        }
                        assert(its =~= its.take(n));
                    }
                    assert forall|m: nat, rest: Seq<Token>|
                        #[trigger] count_from(tokens@, tokens@, delim, f, m, rest) implies items@.len()
                        == m && remaining_tokens@ == rest by {
                        assert(count_from(st, wd, delim, f, (m - n) as nat, rest));
                        if !fails_on(f, st) {
                            let w = choose|w: Seq<Token>| #[trigger] leaves(f, st, w);
                            assert(leaves(f, st, w));
                        }
                    }
                    assert(may_fail(f, st));
                    assert(list_may(st, wd, delim, f, Seq::<T>::empty(), wd));
                    assert(items@ + Seq::<T>::empty() =~= items@);
                }
                break ;
            },
        };
        proof {
            lemma_suffix_trans(new_remaining_tokens@, remaining_tokens@, tokens@);
        }
        let ghost r = new_remaining_tokens@;
        let ghost the_item = item;
        let ghost old_items = items@;
        remaining_tokens = new_remaining_tokens;
        remaining_tokens_with_delim = new_remaining_tokens;
        items.push(item);
        proof {
            assert forall|its: Seq<T>, rest: Seq<Token>|
                #[trigger] list_from(tokens@, tokens@, delim, f, its, rest) implies n < its.len()
                && items@ == its.take(n + 1) && list_after(r, delim, f, its.skip(n + 1), rest) by {
                let rem = its.skip(n);
                assert(list_from(st, wd, delim, f, rem, rest));
                assert(!fails_on(f, st));
                let w = choose|w: Seq<Token>|
                    #[trigger] gives(f, st, rem[0], w) && list_after(w, delim, f, rem.drop_first(), rest);
                assert(gives(f, st, rem[0], w));
                assert(rem[0] == the_item && w == r);
                assert(rem.drop_first() =~= its.skip(n + 1));
                assert(items@ =~= its.take(n + 1));
            }
            assert forall|m: nat, rest: Seq<Token>|
                #[trigger] count_from(tokens@, tokens@, delim, f, m, rest) implies n < m
                && count_after(r, delim, f, (m - (n + 1)) as nat, rest) by {
                assert(count_from(st, wd, delim, f, (m - n) as nat, rest));
                assert(!fails_on(f, st));
                let w = choose|w: Seq<Token>|
                    #[trigger] leaves(f, st, w) && count_after(w, delim, f, (m - n - 1) as nat, rest);
                assert(leaves(f, st, w));
                assert(w == r);
            }
        }
        proof {
            assert(may_give(f, st, the_item, r));
            assert forall|rem: Seq<T>, rest: Seq<Token>|
                #[trigger] list_may_after(r, delim, f, rem, rest) implies list_may(
                tokens@,
                tokens@,
                delim,
                f,
                items@ + rem,
                rest,
            ) by {
                let full = seq![the_item] + rem;
                assert(full[0] == the_item);
                assert(full.drop_first() =~= rem);
                assert(list_may(st, wd, delim, f, full, rest));
                assert(items@ + rem =~= old_items + full);
            }
        }
        let ghost dl = delim;
        if let Some(ref delim) = delim {
            if let Ok(new_remaining_tokens) = expect_token(
                remaining_tokens_with_delim,
                delim.clone(),
            ) {
                proof {
                    if new_remaining_tokens@ != remaining_tokens_with_delim@ {
                        lemma_skip_suffix(remaining_tokens_with_delim@, 1);
                        lemma_suffix_trans(
                            new_remaining_tokens@,
                            remaining_tokens_with_delim@,
                            tokens@,
                        );
                    }
                }
                remaining_tokens = new_remaining_tokens
            } else {
                proof {
                    assert forall|its: Seq<T>, rest: Seq<Token>|
                        #[trigger] list_from(tokens@, tokens@, dl, f, its, rest) implies items@ == its
                        && remaining_tokens@ == rest by {
                        assert(list_after(r, dl, f, its.skip(n + 1), rest));
                        assert(!continues_with(r, *delim));
                        assert(its =~= its.take(n + 1));
                    }
                    assert forall|m: nat, rest: Seq<Token>|
                        #[trigger] count_from(tokens@, tokens@, dl, f, m, rest) implies items@.len() == m
                        && remaining_tokens@ == rest by {
                        assert(count_after(r, dl, f, (m - (n + 1)) as nat, rest));
                        assert(!continues_with(r, *delim));
                    }
                    assert(!continues_with(r, *delim));
                    assert(list_may_after(r, dl, f, Seq::<T>::empty(), r));
                    assert(items@ + Seq::<T>::empty() =~= items@);
                }
                break ;
            };
        }
        proof {
            assert forall|rem: Seq<T>, rest: Seq<Token>|
                #[trigger] list_may(remaining_tokens@, remaining_tokens_with_delim@, dl, f, rem, rest)
                implies list_may(tokens@, tokens@, dl, f, items@ + rem, rest) by {
                if let Some(d) = dl {
                    assert(continues_with(r, d));
                }
                assert(list_may_after(r, dl, f, rem, rest));
            }
        }
    }
    (items, remaining_tokens, diagnostics)
}

/// Parse a vector of items of type T: Parsable from the input tokens.
/// It does not consume the last delimiter token.
pub fn parse_vec_of<'a, T: Parsable>(
    tokens: &'a [Token],
    delim: Option<TokenType>,
    parse_ctx: &mut ParseCtx,
) -> (res: Result<(Vec<T>, &'a [Token], Diagnostics), Diagnostics>)
    ensures
        res matches Ok((items, rest, _)) && {
            &&& is_suffix(rest@, tokens@)
            &&& items@.len() == 0 ==> rest@ == tokens@
            &&& items@.len() > 0 ==> rest@.len() < tokens@.len()
        },
        ctx_kept(*old(parse_ctx), *final(parse_ctx)),
        (forall|t: &'a [Token], c: &mut ParseCtx, r: Result<(T, &'a [Token]), Diagnostics>|
            #[trigger] T::parse.ensures((t, c), r) ==> ctx_same(*c, *final(c))) ==> ctx_same(
            *old(parse_ctx),
            *final(parse_ctx),
        ),
        forall|items: Seq<T>, rest: Seq<Token>|
            #[trigger] list_from(tokens@, tokens@, delim, T::parse, items, rest) ==> (res matches Ok(
                (v, r, _),
            ) && v@ == items && r@ == rest),
        res matches Ok((v, r, _)) && list_may(tokens@, tokens@, delim, T::parse, v@, r@),
        res matches Ok((v, r, d)) && ended_with(T::parse, delim, v@.len(), r@, d),
        forall|e: Diagnostics|
            tokens@.len() > 0 && #[trigger] fails_with(T::parse, tokens, e) ==> (res matches Ok(
                (_, _, d),
            ) && d == e),
{
    Ok(parse_vec_with(tokens, delim, parse_ctx, T::parse))
}

/// The items of `t` read with `f`, separated by `delim` when there is one,
/// are `items`, and the list leaves `rest`: it ends where no item can be read
/// (leaving the tokens after the last item and before its delimiter,
/// `after`), or where no delimiter follows an item.
pub open spec fn list_from<'a, T, F: Fn(&'a [Token], &mut ParseCtx) -> Result<
    (T, &'a [Token]),
    Diagnostics,
>>(
    t: Seq<Token>,
    after: Seq<Token>,
    delim: Option<TokenType>,
    f: F,
    items: Seq<T>,
    rest: Seq<Token>,
) -> bool
    decreases items.len(), 0int,
{
    if t.len() == 0 || fails_on(f, t) {
        items.len() == 0 && rest == after
    } else {
        items.len() > 0 && exists|r: Seq<Token>|
            #[trigger] gives(f, t, items[0], r) && list_after(r, delim, f, items.drop_first(), rest)
    }
}

/// After an item that left `r`, the list goes on with `items` and leaves
/// `rest`.
pub open spec fn list_after<'a, T, F: Fn(&'a [Token], &mut ParseCtx) -> Result<
    (T, &'a [Token]),
    Diagnostics,
>>(r: Seq<Token>, delim: Option<TokenType>, f: F, items: Seq<T>, rest: Seq<Token>) -> bool
    decreases items.len(), 1int,
{
    match delim {
        None => list_from(r, r, delim, f, items, rest),
        Some(d) => if continues_with(r, d) {
            list_from(if r.len() == 0 { r } else { r.skip(1) }, r, delim, f, items, rest)
        } else {
            items.len() == 0 && rest == r
        },
    }
}

/// In some context, `f` can read `item` from `t` and leave `rest`.
pub open spec fn may_give<'a, T, F: Fn(&'a [Token], &mut ParseCtx) -> Result<
    (T, &'a [Token]),
    Diagnostics,
>>(f: F, t: Seq<Token>, item: T, rest: Seq<Token>) -> bool {
    exists|ts: &'a [Token], c: &mut ParseCtx, r: Result<(T, &'a [Token]), Diagnostics>|
        ts@ == t && #[trigger] f.ensures((ts, c), r) && (r matches Ok((x, rr)) && x == item && rr@
            == rest)
}

/// In some context, `f` can fail on `t`.
pub open spec fn may_fail<'a, T, F: Fn(&'a [Token], &mut ParseCtx) -> Result<
    (T, &'a [Token]),
    Diagnostics,
>>(f: F, t: Seq<Token>) -> bool {
    exists|ts: &'a [Token], c: &mut ParseCtx, r: Result<(T, &'a [Token]), Diagnostics>|
        ts@ == t && #[trigger] f.ensures((ts, c), r) && r is Err
}

/// The list of `t` read with `f`, separated by `delim` when there is one,
/// can be `items` and leave `rest`: each item is what `f` can read where the
/// item before it (and its delimiter) ends; the list ends where `f` can
/// fail (leaving `after`), or where no delimiter follows an item.
pub open spec fn list_may<'a, T, F: Fn(&'a [Token], &mut ParseCtx) -> Result<
    (T, &'a [Token]),
    Diagnostics,
>>(
    t: Seq<Token>,
    after: Seq<Token>,
    delim: Option<TokenType>,
    f: F,
    items: Seq<T>,
    rest: Seq<Token>,
) -> bool
    decreases items.len(), 0int,
{
    if t.len() == 0 {
        items.len() == 0 && rest == after
    } else {
        ||| items.len() == 0 && rest == after && may_fail(f, t)
        ||| items.len() > 0 && exists|r: Seq<Token>|
            #[trigger] may_give(f, t, items[0], r) && list_may_after(
                r,
                delim,
                f,
                items.drop_first(),
                rest,
            )
    }
}

/// After an item that left `r`, the list can go on with `items` and leave
/// `rest`.
pub open spec fn list_may_after<'a, T, F: Fn(&'a [Token], &mut ParseCtx) -> Result<
    (T, &'a [Token]),
    Diagnostics,
>>(r: Seq<Token>, delim: Option<TokenType>, f: F, items: Seq<T>, rest: Seq<Token>) -> bool
    decreases items.len(), 1int,
{
    match delim {
        None => list_may(r, r, delim, f, items, rest),
        Some(d) => if continues_with(r, d) {
            list_may(if r.len() == 0 { r } else { r.skip(1) }, r, delim, f, items, rest)
        } else {
            items.len() == 0 && rest == r
        },
    }
}

/// Whatever the context, `f` reads `item` from `t` and leaves `rest`.
pub open spec fn gives<'a, T, F: Fn(&'a [Token], &mut ParseCtx) -> Result<
    (T, &'a [Token]),
    Diagnostics,
>>(f: F, t: Seq<Token>, item: T, rest: Seq<Token>) -> bool {
    forall|ts: &'a [Token], c: &mut ParseCtx, r: Result<(T, &'a [Token]), Diagnostics>|
        ts@ == t && #[trigger] f.ensures((ts, c), r) ==> (r matches Ok((x, rr)) && x == item && rr@
            == rest)
}

/// Whatever the context, `f` fails on `t`.
pub open spec fn fails_on<'a, T, F: Fn(&'a [Token], &mut ParseCtx) -> Result<
    (T, &'a [Token]),
    Diagnostics,
>>(f: F, t: Seq<Token>) -> bool {
    forall|ts: &'a [Token], c: &mut ParseCtx, r: Result<(T, &'a [Token]), Diagnostics>|
        ts@ == t && #[trigger] f.ensures((ts, c), r) ==> r is Err
}

/// Whatever the context, `f` reads an item from `t` and leaves `rest`.
pub open spec fn leaves<'a, T, F: Fn(&'a [Token], &mut ParseCtx) -> Result<
    (T, &'a [Token]),
    Diagnostics,
>>(f: F, t: Seq<Token>, rest: Seq<Token>) -> bool {
    forall|ts: &'a [Token], c: &mut ParseCtx, r: Result<(T, &'a [Token]), Diagnostics>|
        ts@ == t && #[trigger] f.ensures((ts, c), r) ==> (r matches Ok((_, rr)) && rr@ == rest)
}

/// The list of `t` read with `f`, separated by `delim` when there is one,
/// has `n` items and leaves `rest` (as in `list_from`, counting the items
/// without naming them).
pub open spec fn count_from<'a, T, F: Fn(&'a [Token], &mut ParseCtx) -> Result<
    (T, &'a [Token]),
    Diagnostics,
>>(t: Seq<Token>, after: Seq<Token>, delim: Option<TokenType>, f: F, n: nat, rest: Seq<Token>) -> bool
    decreases n, 0int,
{
    if t.len() == 0 {
        n == 0 && rest == after
    } else {
        ||| n == 0 && rest == after && fails_on(f, t)
        ||| n > 0 && exists|r: Seq<Token>|
            #[trigger] leaves(f, t, r) && count_after(r, delim, f, (n - 1) as nat, rest)
    }
}

/// After an item that left `r`, the list goes on with `n` items and leaves
/// `rest`.
pub open spec fn count_after<'a, T, F: Fn(&'a [Token], &mut ParseCtx) -> Result<
    (T, &'a [Token]),
    Diagnostics,
>>(r: Seq<Token>, delim: Option<TokenType>, f: F, n: nat, rest: Seq<Token>) -> bool
    decreases n, 1int,
{
    match delim {
        None => count_from(r, r, delim, f, n, rest),
        Some(d) => if continues_with(r, d) {
            count_from(if r.len() == 0 { r } else { r.skip(1) }, r, delim, f, n, rest)
        } else {
            n == 0 && rest == r
        },
    }
}

/// `x` is one of the items that `f` can read first from `tokens`.
pub open spec fn first_given<'a, T, F: Fn(&'a [Token], &mut ParseCtx) -> Result<
    (T, &'a [Token]),
    Diagnostics,
>>(tokens: &'a [Token], f: F, x: T) -> bool {
    exists|c: &mut ParseCtx, r: Result<(T, &'a [Token]), Diagnostics>|
        #[trigger] f.ensures((tokens, c), r) && (r matches Ok((y, _)) && y == x)
}

/// The lines of `t`, one step deeper (at `deeper`), give `items` with `f`,
/// and the list leaves `rest`. Empty lines before a line are skipped. The
/// list ends where a line is not that deep (leaving the tokens after the last
/// item, `after`), or where `f` fails on one (leaving that line).
pub open spec fn lines_from<'a, T, F: Fn(&'a [Token], &mut ParseCtx) -> Result<
    (T, &'a [Token]),
    Diagnostics,
>>(
    t: Seq<Token>,
    after: Seq<Token>,
    deeper: int,
    eol: bool,
    f: F,
    items: Seq<T>,
    rest: Seq<Token>,
) -> bool
    decreases items.len(), 0int,
{
    let q = skip_empty_lines(t);
    if t.len() == 0 || !starts_with_indent(q, deeper) {
        items.len() == 0 && rest == after
    } else if fails_on(f, q.skip(1)) {
        items.len() == 0 && rest == q
    } else {
        items.len() > 0 && exists|r: Seq<Token>|
            #[trigger] gives(f, q.skip(1), items[0], r) && lines_after(
                r,
                deeper,
                eol,
                f,
                items.drop_first(),
                rest,
            )
    }
}

/// After an item that left `r`, the list goes on with `items` and leaves
/// `rest`: with `eol`, a line end follows each item, and where none follows,
/// the list ends there.
pub open spec fn lines_after<'a, T, F: Fn(&'a [Token], &mut ParseCtx) -> Result<
    (T, &'a [Token]),
    Diagnostics,
>>(r: Seq<Token>, deeper: int, eol: bool, f: F, items: Seq<T>, rest: Seq<Token>) -> bool
    decreases items.len(), 1int,
{
    if !eol {
        lines_from(r, r, deeper, eol, f, items, rest)
    } else if r.len() > 0 && r[0].token_type is Eol {
        lines_from(r.skip(1), r, deeper, eol, f, items, rest)
    } else {
        items.len() == 0 && rest == r
    }
}

/// The lines of `t`, one step deeper (at `deeper`), can give `items` with
/// `f` and leave `rest`: as `lines_from`, where each item is what `f` can
/// read on its line, and the list can end at a line where `f` can fail.
pub open spec fn lines_may<'a, T, F: Fn(&'a [Token], &mut ParseCtx) -> Result<
    (T, &'a [Token]),
    Diagnostics,
>>(
    t: Seq<Token>,
    after: Seq<Token>,
    deeper: int,
    eol: bool,
    f: F,
    items: Seq<T>,
    rest: Seq<Token>,
) -> bool
    decreases items.len(), 0int,
{
    let q = skip_empty_lines(t);
    if t.len() == 0 || !starts_with_indent(q, deeper) {
        items.len() == 0 && rest == after
    } else {
        ||| items.len() == 0 && rest == q && may_fail(f, q.skip(1))
        ||| items.len() > 0 && exists|r: Seq<Token>|
            #[trigger] may_give(f, q.skip(1), items[0], r) && lines_may_after(
                r,
                deeper,
                eol,
                f,
                items.drop_first(),
                rest,
            )
    }
}

/// After an item that left `r`, the lines can go on with `items` and leave
/// `rest`.
pub open spec fn lines_may_after<'a, T, F: Fn(&'a [Token], &mut ParseCtx) -> Result<
    (T, &'a [Token]),
    Diagnostics,
>>(r: Seq<Token>, deeper: int, eol: bool, f: F, items: Seq<T>, rest: Seq<Token>) -> bool
    decreases items.len(), 1int,
{
    if !eol {
        lines_may(r, r, deeper, eol, f, items, rest)
    } else if r.len() > 0 && r[0].token_type is Eol {
        lines_may(r.skip(1), r, deeper, eol, f, items, rest)
    } else {
        items.len() == 0 && rest == r
    }
}

/// The error `d` that ended a list of lines at level `level`, leaving
/// `rest`: none; the indentation found where the next line was looked for
/// (at `rest`, or past the line end behind it); the error with which
/// reading the item of the line indented at `rest` failed; or the missing
/// line end at `rest`.
pub open spec fn lines_ended_with<'a, T, F: Fn(&'a [Token], &mut ParseCtx) -> Result<
    (T, &'a [Token]),
    Diagnostics,
>>(f: F, rest: Seq<Token>, level: u8, d: Diagnostics) -> bool {
    ||| d.errors@.len() == 0
    ||| d.errors@.len() == 1 && (crate::parser::parse_ctx::indent_error(d.errors@[0], skip_empty_lines(rest), level)
        || crate::parser::parse_ctx::indent_error(d.errors@[0], skip_empty_lines(rest.skip(1)), level))
    ||| exists|t: &'a [Token], c: &mut ParseCtx|
        t@ == rest.skip(1) && #[trigger] f.ensures((t, c), Err::<(T, &'a [Token]), Diagnostics>(d))
    ||| d.errors@.len() == 1 && expected_error(d.errors@[0], rest, TokenType::Eol)
}

/// Parses one item per line, each line one indentation step deeper than the
/// current level. It returns the parsed items, the remaining tokens, and the
/// last diagnostic that broke the loop.
#[verifier::rlimit(50)]
pub fn parse_indented_vec_with<'a, T, F>(
    tokens: &'a [Token],
    parse_ctx: &mut ParseCtx,
    consume_eol: bool,
    f: F,
) -> (res: Result<(Vec<T>, &'a [Token], Diagnostics), Diagnostics>) where
    F: Fn(&'a [Token], &mut ParseCtx) -> Result<(T, &'a [Token]), Diagnostics>,

    requires
        forall|t: &'a [Token], c: &mut ParseCtx|
            is_suffix(t@, tokens@) && t@.len() < tokens@.len() && c.is_inside_fn_type_decl == old(
                parse_ctx,
            ).is_inside_fn_type_decl ==> #[trigger] f.requires((t, c)),
        forall|t: &'a [Token], c: &mut ParseCtx, r: Result<(T, &'a [Token]), Diagnostics>|
            #[trigger] f.ensures((t, c), r) ==> parse_post(t@, *c, *final(c), r),
    ensures
        res is Err <==> old(parse_ctx).level() + old(parse_ctx).indent_step > u8::MAX,
        res matches Ok((items, rest, _)) ==> is_suffix(rest@, tokens@),
        res matches Ok((items, rest, _)) ==> (!starts_with_indent(
            skip_empty_lines(tokens@),
            old(parse_ctx).level() + old(parse_ctx).indent_step,
        ) ==> items@.len() == 0 && rest@ == tokens@),
        ctx_kept(*old(parse_ctx), *final(parse_ctx)),
        (forall|t: &'a [Token], c: &mut ParseCtx, r: Result<(T, &'a [Token]), Diagnostics>|
            #[trigger] f.ensures((t, c), r) ==> ctx_same(*c, *final(c))) ==> ctx_same(
            *old(parse_ctx),
            *final(parse_ctx),
        ),
        forall|items: Seq<T>, rest: Seq<Token>|
            #[trigger] lines_from(
                tokens@,
                tokens@,
                old(parse_ctx).level() + old(parse_ctx).indent_step,
                consume_eol,
                f,
                items,
                rest,
            ) ==> (res matches Ok((v, r, _)) ==> v@ == items && r@ == rest),
        res matches Ok((v, r, _)) ==> lines_may(
            tokens@,
            tokens@,
            old(parse_ctx).level() + old(parse_ctx).indent_step,
            consume_eol,
            f,
            v@,
            r@,
        ),
        res matches Ok((_, r, d)) ==> lines_ended_with(
            f,
            r@,
            (old(parse_ctx).level() + old(parse_ctx).indent_step) as u8,
            d,
        ),
{
    let mut remaining_tokens = tokens;
    let mut remaining_tokens_after_match = tokens;
    let mut list: Vec<T> = Vec::new();
    let mut diagnostics = Diagnostics::new();
    parse_ctx.try_indent()?;
    let ghost inner = *parse_ctx;
    proof {
        lemma_suffix_refl(tokens@);
        assert forall|items: Seq<T>, rest: Seq<Token>|
            #[trigger] lines_from(tokens@, tokens@, inner.level() as int, consume_eol, f, items, rest)
            implies list@.len() <= items.len() && list@ == items.take(list@.len() as int) && lines_from(
            remaining_tokens@,
            remaining_tokens_after_match@,
            inner.level() as int,
            consume_eol,
            f,
            items.skip(list@.len() as int),
            rest,
        ) by {
            assert(items.skip(0) =~= items);
            assert(items.take(0) =~= list@);
        }
    }
    proof {
        assert forall|rem: Seq<T>, rest: Seq<Token>|
            #[trigger] lines_may(
                remaining_tokens@,
                remaining_tokens_after_match@,
                inner.level() as int,
                consume_eol,
                f,
                rem,
                rest,
            ) implies lines_may(tokens@, tokens@, inner.level() as int, consume_eol, f, list@ + rem, rest) by {
            assert(list@ + rem =~= rem);
        }
    }
    loop
        invariant_except_break
            diagnostics.errors@.len() == 0,
            remaining_tokens@ == remaining_tokens_after_match@ || remaining_tokens@
                == remaining_tokens_after_match@.skip(1),
            forall|rem: Seq<T>, rest: Seq<Token>|
                #[trigger] lines_may(
                    remaining_tokens@,
                    remaining_tokens_after_match@,
                    inner.level() as int,
                    consume_eol,
                    f,
                    rem,
                    rest,
                ) ==> lines_may(tokens@, tokens@, inner.level() as int, consume_eol, f, list@ + rem, rest),
            !starts_with_indent(skip_empty_lines(tokens@), inner.level() as int) ==> list@.len()
                == 0 && remaining_tokens == tokens,
            parse_ctx.level() == inner.level(),
            forall|items: Seq<T>, rest: Seq<Token>|
                #[trigger] lines_from(tokens@, tokens@, inner.level() as int, consume_eol, f, items, rest)
                    ==> list@.len() <= items.len() && list@ == items.take(list@.len() as int)
                    && lines_from(
                    remaining_tokens@,
                    remaining_tokens_after_match@,
                    inner.level() as int,
                    consume_eol,
                    f,
                    items.skip(list@.len() as int),
                    rest,
                ),
        invariant
            is_suffix(remaining_tokens@, tokens@),
            is_suffix(remaining_tokens_after_match@, tokens@),
            list@.len() == 0 ==> remaining_tokens_after_match == tokens,
            ctx_kept(inner, *parse_ctx),
            (forall|t: &'a [Token], c: &mut ParseCtx, r: Result<(T, &'a [Token]), Diagnostics>|
                #[trigger] f.ensures((t, c), r) ==> ctx_same(*c, *final(c))) ==> ctx_same(
                inner,
                *parse_ctx,
            ),
            inner.level() == old(parse_ctx).level() + old(parse_ctx).indent_step,
            inner.indent_step == old(parse_ctx).indent_step,
            inner.is_inside_fn_type_decl == old(parse_ctx).is_inside_fn_type_decl,
            forall|t: &'a [Token], c: &mut ParseCtx|
                is_suffix(t@, tokens@) && t@.len() < tokens@.len() && c.is_inside_fn_type_decl
                    == old(parse_ctx).is_inside_fn_type_decl ==> #[trigger] f.requires((t, c)),
            forall|t: &'a [Token], c: &mut ParseCtx, r: Result<(T, &'a [Token]), Diagnostics>|
                #[trigger] f.ensures((t, c), r) ==> parse_post(t@, *c, *final(c), r),
        ensures
            lines_ended_with(f, remaining_tokens@, inner.level(), diagnostics),
            is_suffix(remaining_tokens@, tokens@),
            ctx_kept(inner, *parse_ctx),
            (forall|t: &'a [Token], c: &mut ParseCtx, r: Result<(T, &'a [Token]), Diagnostics>|
                #[trigger] f.ensures((t, c), r) ==> ctx_same(*c, *final(c))) ==> ctx_same(
                inner,
                *parse_ctx,
            ),
            !starts_with_indent(skip_empty_lines(tokens@), inner.level() as int) ==> list@.len()
                == 0 && remaining_tokens@ == tokens@,
            forall|items: Seq<T>, rest: Seq<Token>|
                #[trigger] lines_from(tokens@, tokens@, inner.level() as int, consume_eol, f, items, rest)
                    ==> list@ == items && remaining_tokens@ == rest,
            lines_may(tokens@, tokens@, inner.level() as int, consume_eol, f, list@, remaining_tokens@),
        decreases remaining_tokens@.len(),
    {
        let ghost st = remaining_tokens@;
        let ghost am = remaining_tokens_after_match@;
        let ghost n = list@.len() as int;
        let ghost d = inner.level() as int;
        if remaining_tokens.len() == 0 {
            remaining_tokens = remaining_tokens_after_match;
            proof {
                assert forall|items: Seq<T>, rest: Seq<Token>|
                    #[trigger] lines_from(tokens@, tokens@, d, consume_eol, f, items, rest) implies list@
                    == items && remaining_tokens@ == rest by {
                    assert(lines_from(st, am, d, consume_eol, f, items.skip(n), rest));
                    assert(items =~= items.take(n));
                }
                assert(lines_may(st, am, d, consume_eol, f, Seq::<T>::empty(), am));
                assert(list@ + Seq::<T>::empty() =~= list@);
            }
            break ;
        }
        let ghost before_lines = remaining_tokens@;
        remaining_tokens = ignore_empty_lines(remaining_tokens);
        proof {
            lemma_skip_empty_lines_suffix(before_lines);
            lemma_suffix_trans(remaining_tokens@, before_lines, tokens@);
        }
        let tokens_backup = remaining_tokens;
        match parse_ctx.consume_indent(remaining_tokens) {
            Ok(new_remaining_tokens) => {
                proof {
                    lemma_skip_suffix(remaining_tokens@, 1);
                    lemma_suffix_trans(new_remaining_tokens@, remaining_tokens@, tokens@);
                }
                remaining_tokens = new_remaining_tokens;
            },
            Err(e) => {
                diagnostics = e;
                remaining_tokens = remaining_tokens_after_match;
                proof {
                    assert forall|items: Seq<T>, rest: Seq<Token>|
                        #[trigger] lines_from(tokens@, tokens@, d, consume_eol, f, items, rest) implies list@
                        == items && remaining_tokens@ == rest by {
                        assert(lines_from(st, am, d, consume_eol, f, items.skip(n), rest));
                        assert(!starts_with_indent(skip_empty_lines(st), d));
                        assert(items =~= items.take(n));
                    }
                    assert(lines_may(st, am, d, consume_eol, f, Seq::<T>::empty(), am));
                    assert(list@ + Seq::<T>::empty() =~= list@);
                }
                break ;
            },
        }
        let ghost q = tokens_backup@;
        let ghost line = remaining_tokens@;
        assert(line == q.skip(1));
        assert(starts_with_indent(q, d));
        match f(remaining_tokens, parse_ctx) {
            Ok((t, new_remaining_tokens)) => {
                proof {
                    lemma_suffix_trans(new_remaining_tokens@, remaining_tokens@, tokens@);
                }
                let ghost item = t;
                let ghost r = new_remaining_tokens@;
                let ghost old_list = list@;
                remaining_tokens = new_remaining_tokens;
                remaining_tokens_after_match = new_remaining_tokens;
                list.push(t);
                proof {
                    assert forall|items: Seq<T>, rest: Seq<Token>|
                        #[trigger] lines_from(tokens@, tokens@, d, consume_eol, f, items, rest) implies n
                        < items.len() && items[n] == item && list@ == items.take(n + 1) && lines_after(
                        r,
                        d,
                        consume_eol,
                        f,
                        items.skip(n + 1),
                        rest,
                    ) by {
                        let its = items.skip(n);
                        assert(lines_from(st, am, d, consume_eol, f, its, rest));
                        assert(!fails_on(f, line));
                        let w = choose|w: Seq<Token>|
                            #[trigger] gives(f, line, its[0], w) && lines_after(
                                w,
                                d,
                                consume_eol,
                                f,
                                its.drop_first(),
                                rest,
                            );
                        assert(gives(f, line, its[0], w));
                        assert(its[0] == item && w == r);
                        assert(its.drop_first() =~= items.skip(n + 1));
                        assert(list@ =~= items.take(n + 1));
                    }
                    assert(may_give(f, line, item, r));
                    assert forall|rem: Seq<T>, rest: Seq<Token>|
                        #[trigger] lines_may_after(r, d, consume_eol, f, rem, rest) implies lines_may(
                        tokens@,
                        tokens@,
                        d,
                        consume_eol,
                        f,
                        list@ + rem,
                        rest,
                    ) by {
                        let full = seq![item] + rem;
                        assert(full[0] == item);
                        assert(full.drop_first() =~= rem);
                        assert(lines_may(st, am, d, consume_eol, f, full, rest));
                        assert(list@ + rem =~= old_list + full);
                    }
                }
            },
            Err(e) => {
                diagnostics = e;
                remaining_tokens = tokens_backup;
                proof {
                    assert forall|items: Seq<T>, rest: Seq<Token>|
                        #[trigger] lines_from(tokens@, tokens@, d, consume_eol, f, items, rest) implies list@
                        == items && remaining_tokens@ == rest by {
                        let its = items.skip(n);
                        assert(lines_from(st, am, d, consume_eol, f, its, rest));
                        if !fails_on(f, line) {
                            let w = choose|w: Seq<Token>| #[trigger] gives(f, line, its[0], w);
                            assert(gives(f, line, its[0], w));
                        }
                        assert(items =~= items.take(n));
                    }
                    assert(may_fail(f, line));
                    assert(lines_may(st, am, d, consume_eol, f, Seq::<T>::empty(), q));
                    assert(list@ + Seq::<T>::empty() =~= list@);
                }
                break ;
            },
        }
        let ghost r = remaining_tokens@;
        if consume_eol {
            match expect_token(remaining_tokens, TokenType::Eol) {
                Ok(new_remaining_tokens) => {
                    proof {
                        lemma_skip_suffix(remaining_tokens@, 1);
                        lemma_suffix_trans(new_remaining_tokens@, remaining_tokens@, tokens@);
                    }
                    remaining_tokens = new_remaining_tokens;
                },
                Err(e) => {
                    diagnostics = Diagnostics::from_error(e);
                    proof {
                        assert forall|items: Seq<T>, rest: Seq<Token>|
                            #[trigger] lines_from(tokens@, tokens@, d, consume_eol, f, items, rest) implies list@
                            == items && remaining_tokens@ == rest by {
                            assert(items =~= items.take(n + 1));
                        }
                        assert(lines_may_after(r, d, consume_eol, f, Seq::<T>::empty(), r));
                        assert(list@ + Seq::<T>::empty() =~= list@);
                    }
                    break ;
                },
            }
        }
        proof {
            assert forall|items: Seq<T>, rest: Seq<Token>|
                #[trigger] lines_from(tokens@, tokens@, d, consume_eol, f, items, rest) implies list@.len()
                <= items.len() && list@ == items.take(list@.len() as int) && lines_from(
                remaining_tokens@,
                remaining_tokens_after_match@,
                d,
                consume_eol,
                f,
                items.skip(list@.len() as int),
                rest,
            ) by {
                if consume_eol {
                    assert(r.len() > 0 && r[0].token_type is Eol);
                    assert(remaining_tokens@ == r.skip(1));
                }
            }
            assert forall|rem: Seq<T>, rest: Seq<Token>|
                #[trigger] lines_may(
                    remaining_tokens@,
                    remaining_tokens_after_match@,
                    d,
                    consume_eol,
                    f,
                    rem,
                    rest,
                ) implies lines_may(tokens@, tokens@, d, consume_eol, f, list@ + rem, rest) by {
                assert(lines_may_after(r, d, consume_eol, f, rem, rest));
            }
        }
    }
    parse_ctx.dedent();
    Ok((list, remaining_tokens, diagnostics))
}

/// `parse_indented_vec_with` for a type that can parse itself.
pub fn parse_indented_vec_of<'a, T: Parsable>(
    tokens: &'a [Token],
    parse_ctx: &mut ParseCtx,
    consume_eol: bool,
) -> (res: Result<(Vec<T>, &'a [Token], Diagnostics), Diagnostics>)
    ensures
        res is Err <==> old(parse_ctx).level() + old(parse_ctx).indent_step > u8::MAX,
        res matches Ok((items, rest, _)) ==> is_suffix(rest@, tokens@),
        ctx_kept(*old(parse_ctx), *final(parse_ctx)),
        (forall|t: &'a [Token], c: &mut ParseCtx, r: Result<(T, &'a [Token]), Diagnostics>|
            #[trigger] T::parse.ensures((t, c), r) ==> ctx_same(*c, *final(c))) ==> ctx_same(
            *old(parse_ctx),
            *final(parse_ctx),
        ),
        forall|items: Seq<T>, rest: Seq<Token>|
            #[trigger] lines_from(
                tokens@,
                tokens@,
                old(parse_ctx).level() + old(parse_ctx).indent_step,
                consume_eol,
                T::parse,
                items,
                rest,
            ) ==> (res matches Ok((v, r, _)) ==> v@ == items && r@ == rest),
        res matches Ok((v, r, _)) ==> lines_may(
            tokens@,
            tokens@,
            old(parse_ctx).level() + old(parse_ctx).indent_step,
            consume_eol,
            T::parse,
            v@,
            r@,
        ),
        res matches Ok((_, r, d)) ==> lines_ended_with(
            T::parse,
            r@,
            (old(parse_ctx).level() + old(parse_ctx).indent_step) as u8,
            d,
        ),
{
    parse_indented_vec_with(tokens, parse_ctx, consume_eol, T::parse)
}

/// Consumes tokens until a token of the given type is found.
/// The last token is NOT INCLUDED
pub fn consume_tokens_until(tokens: &[Token], token_type: TokenType) -> (res: (Vec<Token>, &[Token]))
    ensures
        res.0@.len() + res.1@.len() == tokens@.len(),
        res.0@ == tokens@.take(res.0@.len() as int),
        res.1@ == tokens@.skip(res.0@.len() as int),
        forall|i: int|
            0 <= i < res.0@.len() ==> !same_token_type(#[trigger] res.0@[i].token_type, token_type),
        res.1@.len() > 0 ==> same_token_type(res.1@[0].token_type, token_type),
{
    let mut remaining_tokens = tokens;
    let mut consumed_tokens: Vec<Token> = Vec::new();
    loop
        invariant
            consumed_tokens@.len() + remaining_tokens@.len() == tokens@.len(),
            consumed_tokens@ == tokens@.take(consumed_tokens@.len() as int),
            remaining_tokens@ == tokens@.skip(consumed_tokens@.len() as int),
            forall|i: int|
                0 <= i < consumed_tokens@.len() ==> !same_token_type(
                    #[trigger] consumed_tokens@[i].token_type,
                    token_type,
                ),
        ensures
            consumed_tokens@.len() + remaining_tokens@.len() == tokens@.len(),
            consumed_tokens@ == tokens@.take(consumed_tokens@.len() as int),
            remaining_tokens@ == tokens@.skip(consumed_tokens@.len() as int),
            forall|i: int|
                0 <= i < consumed_tokens@.len() ==> !same_token_type(
                    #[trigger] consumed_tokens@[i].token_type,
                    token_type,
                ),
            remaining_tokens@.len() > 0 ==> same_token_type(
                remaining_tokens@[0].token_type,
                token_type,
            ),
        decreases remaining_tokens@.len(),
    {
        if remaining_tokens.len() == 0 {
            break ;
        }
        if remaining_tokens[0].token_type.same_as(&token_type) {
            break ;
        }
        let ghost n: int = consumed_tokens@.len() as int;
        consumed_tokens.push(remaining_tokens[0].clone());
        remaining_tokens = vstd::slice::slice_subrange(remaining_tokens, 1, remaining_tokens.len());
        proof {
            assert(consumed_tokens@ =~= tokens@.take(n + 1));
            assert(remaining_tokens@ =~= tokens@.skip(n + 1));
        }
    }
    (consumed_tokens, remaining_tokens)
}

/// Skips the empty lines at the start of `tokens`.
pub fn ignore_empty_lines(tokens: &[Token]) -> (res: &[Token])
    ensures
        res@ == skip_empty_lines(tokens@),
{
    let ghost initial = tokens@;
    let mut tokens = tokens;
    while tokens.len() >= 2 && tokens[0].token_type.is_indent() && tokens[1].token_type.same_as(
        &TokenType::Eol,
    )
        invariant
            skip_empty_lines(tokens@) == skip_empty_lines(initial),
        decreases tokens@.len(),
    {
        let ghost before = tokens@;
        tokens = vstd::slice::slice_subrange(tokens, 2, tokens.len());
        assert(tokens@ =~= before.skip(2));
    }
    tokens
}

/// Whether `tokens` starts with the token types `expected`, in order.
pub fn look_ahead(tokens: &[Token], expected: &[TokenType]) -> (res: bool)
    ensures
        res == (expected@.len() <= tokens@.len() && forall|i: int|
            0 <= i < expected@.len() ==> same_token_type(
                #[trigger] tokens@[i].token_type,
                expected@[i],
            )),
{
    if tokens.len() < expected.len() {
        return false;
    }
    let mut i: usize = 0;
    while i < expected.len()
        invariant
            expected@.len() <= tokens@.len(),
            i <= expected@.len(),
            forall|j: int|
                0 <= j < i ==> same_token_type(#[trigger] tokens@[j].token_type, expected@[j]),
        decreases expected.len() - i,
    {
        if !tokens[i].token_type.same_as(&expected[i]) {
            return false;
        }
        i = i + 1;
    }
    true
}

/// The tokens that lexing gives, without the first one (the indentation of
/// the first line) and the last one (the end of file).
pub open spec fn inner_tokens(all: Seq<Token>) -> Seq<Token> {
    if all.len() >= 2 {
        all.subrange(1, all.len() - 1)
    } else {
        Seq::empty()
    }
}

/// The tokens of `input` as the parser tests see them: no line end added at
/// the end, and neither the first indentation nor the end of file.
pub fn lex_test(input: &str) -> (res: Result<Vec<Token>, LexerError>)
    requires
        input@.len() + 2 <= usize::MAX,
    ensures
        res matches Ok(tokens) ==> forall|i: int|
            0 <= i < tokens@.len() ==> !(#[trigger] tokens@[i].token_type is Eof),
        res matches Ok(tokens) ==> exists|all: Seq<Token>, n: int|
            #[trigger] lexed(input@, 0, false, false, all, n) && tokens@ == inner_tokens(all),
        res is Err ==> exists|read: Seq<Token>| #[trigger] fails_after(input@, 0, false, read),
{
    let lexer = match Lexer::new(String::new(), input) {
        Ok(lexer) => lexer,
        Err(e) => return Err(e),
    };
    let mut lexer = lexer.with_newline_at_end(false);
    let mut tokens = lexer.collect()?;
    let ghost all = tokens@;
    // the first indentation and the end of file are left out
    tokens.remove(0);
    tokens.pop();
    assert forall|i: int| 0 <= i < tokens@.len() implies !(#[trigger] tokens@[i].token_type is Eof) by {
        assert(tokens@[i] == all[i + 1]);
    }
    proof {
        let n = choose|n: int| #[trigger] lexed(input@, 0, false, false, all, n);
        assert(lexed(input@, 0, false, false, all, n));
        assert(tokens@ =~= inner_tokens(all));
    }
    Ok(tokens)
}

} // verus!
