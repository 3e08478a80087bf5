use vstd::prelude::*;

use crate::ast::{ParseType, ParseTypeInner};
use crate::lexer::{Span, Token, TokenType};
use crate::parser::parsable::{
    is_suffix, lemma_skip_suffix, lemma_suffix_trans, parse_post, Parsable,
};
use crate::parser::parse_ctx::{ctx_same, ParseCtx};
use crate::lexer::token::same_token_type;
use crate::parser::util::{
    continues_with, count_after, count_from, expect, fail, leaves, list_may, list_may_after, may_fail,
    may_give, parse_vec_with, two_items, Diagnostics, ParseError,
};

verus! {

// Example of ParseType
// T
// T -> U
// T A, B -> U
// T (A -> B), C -> U

/// Orders the calls between type parsers on the same tokens: entering a
/// function type sets the type mode, and nothing unsets it until it returns.
pub open spec fn type_mode_measure(parse_ctx: ParseCtx) -> int {
    if parse_ctx.is_inside_fn_type_decl {
        0
    } else {
        1
    }
}

/// A type starts with a type name, a parenthesis or a bracket.
pub open spec fn starts_type(tokens: Seq<Token>) -> bool {
    tokens.len() > 0 && (tokens[0].token_type is Type || tokens[0].token_type is OpenParen
        || tokens[0].token_type is OpenBracket)
}

/// The first token is a type name that stands alone: what follows it can
/// neither be a generic argument nor continue a function type.
pub open spec fn lone_type_name(tokens: Seq<Token>) -> bool {
    &&& tokens.len() > 1
    &&& tokens[0].token_type is Type
    &&& !(tokens[1].token_type is Type || tokens[1].token_type is OpenParen
        || tokens[1].token_type is OpenBracket || tokens[1].token_type is Arrow)
}

/// The first token is a type name with no generic argument after it, as it
/// stands inside a function type, where an arrow may follow it.
pub open spec fn lone_type_in_fn(tokens: Seq<Token>) -> bool {
    &&& tokens.len() > 1
    &&& tokens[0].token_type is Type
    &&& !(tokens[1].token_type is Type || tokens[1].token_type is OpenParen
        || tokens[1].token_type is OpenBracket)
}

/// `A -> B`: two type names and an arrow, and nothing after them that goes
/// on a type.
pub open spec fn arrow_of_two_names(tokens: Seq<Token>) -> bool {
    &&& tokens.len() > 3
    &&& tokens[0].token_type is Type
    &&& tokens[1].token_type is Arrow
    &&& tokens[2].token_type is Type
    &&& !(tokens[3].token_type is Type || tokens[3].token_type is OpenParen
        || tokens[3].token_type is OpenBracket || tokens[3].token_type is Arrow)
}

/// `t` is the type named by the token `name`, with no generic arguments.
pub open spec fn is_named_type(t: ParseType, name: TokenType) -> bool {
    &&& t matches ParseType::Type(inner)
    &&& inner.generics@.len() == 0
    &&& name matches TokenType::Type(n)
    &&& inner.name@ == n@
}

/// `inner` is the type named by `tokens[0]` with the `n` type names that
/// follow it, separated by comas, as its generic arguments.
pub open spec fn named_with_args(inner: ParseTypeInner, tokens: Seq<Token>, n: nat) -> bool {
    &&& tokens[0].token_type matches TokenType::Type(name) && inner.name@ == name@
    &&& inner.generics@.len() == n
    &&& forall|i: int| 0 <= i < n ==> is_named_type(#[trigger] inner.generics@[i], tokens[2 * i + 1].token_type)
}

/// `list` is the types named by the `n` type names that follow `tokens[0]`,
/// separated by comas.
pub open spec fn names_after(list: Seq<ParseType>, tokens: Seq<Token>, n: nat) -> bool {
    &&& list.len() == n
    &&& forall|i: int| 0 <= i < n ==> is_named_type(#[trigger] list[i], tokens[2 * i + 1].token_type)
}

/// `(A, B, ...)`: at least two type names in parentheses, separated by
/// comas.
pub open spec fn tuple_of_names(tokens: Seq<Token>, n: nat) -> bool {
    &&& n >= 2
    &&& tokens.len() > 2 * n
    &&& tokens[0].token_type is OpenParen
    &&& type_args(tokens.skip(1), n)
    &&& tokens[2 * n as int].token_type is CloseParen
}

/// No arrow is among `tokens`: they cannot hold a function type.
pub open spec fn no_arrow(tokens: Seq<Token>) -> bool {
    forall|i: int| 0 <= i < tokens.len() ==> !(#[trigger] tokens[i].token_type is Arrow)
}

/// A list of at least two items read with `f`, which leaves a suffix of
/// what it reads, holds its delimiter somewhere.
pub proof fn lemma_list_has_delim<'a, T, F: Fn(&'a [Token], &mut ParseCtx) -> Result<
    (T, &'a [Token]),
    Diagnostics,
>>(t: Seq<Token>, after: Seq<Token>, d: TokenType, f: F, items: Seq<T>, rest: Seq<Token>)
    requires
        list_may(t, after, Some(d), f, items, rest),
        items.len() >= 2,
        !(d is Eof),
        forall|ts: &'a [Token], c: &mut ParseCtx, r: Result<(T, &'a [Token]), Diagnostics>|
            #[trigger] f.ensures((ts, c), r) ==> parse_post(ts@, *c, *final(c), r),
    ensures
        exists|i: int| 0 <= i < t.len() && same_token_type(#[trigger] t[i].token_type, d),
{
    let r = choose|r: Seq<Token>|
        #[trigger] may_give(f, t, items[0], r) && list_may_after(r, Some(d), f, items.drop_first(), rest);
    let (ts, c, res) = choose|ts: &'a [Token], c: &mut ParseCtx, res: Result<(T, &'a [Token]), Diagnostics>|
        ts@ == t && #[trigger] f.ensures((ts, c), res) && (res matches Ok((x, rr)) && x == items[0]
            && rr@ == r);
    assert(f.ensures((ts, c), res));
    assert(is_suffix(r, t));
    assert(items.drop_first().len() > 0);
    assert(continues_with(r, d));
    let i = t.len() - r.len();
    assert(t[i] == r[0]);
}

/// The list of `A -> B` read with `f`, which reads a type name standing
/// alone in a function type as that named type, is those two named types.
pub proof fn lemma_two_named<'a, F: Fn(&'a [Token], &mut ParseCtx) -> Result<
    (ParseType, &'a [Token]),
    Diagnostics,
>>(t: Seq<Token>, after: Seq<Token>, f: F, items: Seq<ParseType>, rest: Seq<Token>)
    requires
        arrow_of_two_names(t),
        list_may(t, after, Some(TokenType::Arrow), f, items, rest),
        items.len() == 2,
        forall|ts: &'a [Token], c: &mut ParseCtx, r: Result<(ParseType, &'a [Token]), Diagnostics>|
            #[trigger] f.ensures((ts, c), r) ==> (lone_type_in_fn(ts@) ==> (r matches Ok((ty, rr))
                && is_named_type(ty, ts@[0].token_type) && rr@ == ts@.skip(1))),
    ensures
        is_named_type(items[0], t[0].token_type),
        is_named_type(items[1], t[2].token_type),
{
    let r = choose|r: Seq<Token>|
        #[trigger] may_give(f, t, items[0], r) && list_may_after(
            r,
            Some(TokenType::Arrow),
            f,
            items.drop_first(),
            rest,
        );
    let (ts, c, res) = choose|ts: &'a [Token], c: &mut ParseCtx, res: Result<(ParseType, &'a [Token]), Diagnostics>|
        ts@ == t && #[trigger] f.ensures((ts, c), res) && (res matches Ok((x, rr)) && x == items[0]
            && rr@ == r);
    assert(f.ensures((ts, c), res));
    assert(lone_type_in_fn(t));
    assert(r == t.skip(1));
    assert(r[0] == t[1]);
    assert(continues_with(r, TokenType::Arrow));
    let t2 = r.skip(1);
    assert(t2 =~= t.skip(2));
    let items2 = items.drop_first();
    assert(list_may(t2, r, Some(TokenType::Arrow), f, items2, rest));
    let r2 = choose|r2: Seq<Token>|
        #[trigger] may_give(f, t2, items2[0], r2) && list_may_after(
            r2,
            Some(TokenType::Arrow),
            f,
            items2.drop_first(),
            rest,
        );
    let (ts2, c2, res2) = choose|ts2: &'a [Token], c2: &mut ParseCtx, res2: Result<(ParseType, &'a [Token]), Diagnostics>|
        ts2@ == t2 && #[trigger] f.ensures((ts2, c2), res2) && (res2 matches Ok((x, rr)) && x == items2[0]
            && rr@ == r2);
    assert(f.ensures((ts2, c2), res2));
    assert(t2[0] == t[2] && t2[1] == t[3]);
    assert(lone_type_in_fn(t2));
}

/// A list read with `f`, which reads a lone type name as that named type,
/// on `n` type names separated by comas is those named types, in order.
pub proof fn lemma_type_args_items<'a, F: Fn(&'a [Token], &mut ParseCtx) -> Result<
    (ParseType, &'a [Token]),
    Diagnostics,
>>(t: Seq<Token>, after: Seq<Token>, f: F, n: nat, items: Seq<ParseType>, rest: Seq<Token>)
    requires
        type_args(t, n),
        list_may(t, after, Some(TokenType::Coma), f, items, rest),
        forall|ts: &'a [Token], c: &mut ParseCtx, r: Result<(ParseType, &'a [Token]), Diagnostics>|
            #[trigger] f.ensures((ts, c), r) ==> (lone_type_name(ts@) ==> (r matches Ok((ty, rr))
                && is_named_type(ty, ts@[0].token_type) && rr@ == ts@.skip(1))),
    ensures
        items.len() == n,
        forall|i: int| 0 <= i < n ==> is_named_type(#[trigger] items[i], t[2 * i].token_type),
    decreases n,
{
    if may_fail(f, t) {
        let (ts, c, r) = choose|ts: &'a [Token], c: &mut ParseCtx, r: Result<(ParseType, &'a [Token]), Diagnostics>|
            ts@ == t && #[trigger] f.ensures((ts, c), r) && r is Err;
        assert(f.ensures((ts, c), r));
    }
    assert(items.len() > 0);
    let r = choose|r: Seq<Token>|
        #[trigger] may_give(f, t, items[0], r) && list_may_after(
            r,
            Some(TokenType::Coma),
            f,
            items.drop_first(),
            rest,
        );
    let (ts, c, res) = choose|ts: &'a [Token], c: &mut ParseCtx, res: Result<(ParseType, &'a [Token]), Diagnostics>|
        ts@ == t && #[trigger] f.ensures((ts, c), res) && (res matches Ok((x, rr)) && x == items[0]
            && rr@ == r);
    assert(f.ensures((ts, c), res));
    assert(is_named_type(items[0], t[0].token_type));
    assert(r == t.skip(1));
    if n == 1 {
        if r.len() > 0 {
            assert(r[0] == t[1]);
        }
        assert(!continues_with(r, TokenType::Coma));
        assert(items.drop_first().len() == 0);
    } else {
        assert(r[0] == t[1]);
        assert(continues_with(r, TokenType::Coma));
        assert(r.skip(1) =~= t.skip(2));
        lemma_type_args_items(t.skip(2), r, f, (n - 1) as nat, items.drop_first(), rest);
        lemma_type_args_count(t, after, f, n);
        assert forall|i: int| 0 <= i < n implies is_named_type(#[trigger] items[i], t[2 * i].token_type) by {
            if i > 0 {
                assert(items[i] == items.drop_first()[i - 1]);
                assert(t.skip(2)[2 * (i - 1)] == t[2 * i]);
            }
        }
    }
}

/// `tokens` starts with `n` type names separated by arrows, each alone (no
/// generic argument after it), and no arrow follows the last of them.
pub open spec fn arrow_names(tokens: Seq<Token>, n: nat) -> bool
    decreases n,
{
    &&& n > 0
    &&& lone_type_in_fn(tokens)
    &&& if n == 1 {
        !(tokens[1].token_type is Arrow)
    } else {
        tokens[1].token_type is Arrow && arrow_names(tokens.skip(2), (n - 1) as nat)
    }
}

/// `list` is the types named by the `n` type names of `tokens` written
/// between the arrows, in order.
pub open spec fn fn_of_names(list: Seq<ParseType>, tokens: Seq<Token>, n: nat) -> bool {
    &&& list.len() == n
    &&& forall|i: int| 0 <= i < n ==> is_named_type(#[trigger] list[i], tokens[2 * i].token_type)
}

/// The name of a named type without generic arguments, else nothing.
pub open spec fn plain_type_name(t: ParseType) -> Option<Seq<char>> {
    match t {
        ParseType::Type(inner) => if inner.generics@.len() == 0 {
            Some(inner.name@)
        } else {
            None
        },
        _ => None,
    }
}

/// The name a token of type `t` gives a type, if it is a type name.
pub open spec fn type_token_name(t: TokenType) -> Option<Seq<char>> {
    match t {
        TokenType::Type(name) => Some(name@),
        _ => None,
    }
}

/// The `n` type names written at every other token of `tokens`, starting
/// at `from`.
pub open spec fn written_type_names(tokens: Seq<Token>, from: int, n: nat) -> Seq<Option<Seq<char>>> {
    Seq::new(n, |i: int| type_token_name(tokens[from + 2 * i].token_type))
}

/// A function type read from `T1 -> T2 -> ... -> Tn` holds one type per
/// name written between the arrows, in the order written: none is dropped,
/// added or moved.
pub proof fn law_function_type_in_written_order(list: Seq<ParseType>, tokens: Seq<Token>, n: nat)
    requires
        arrow_names(tokens, n),
        fn_of_names(list, tokens, n),
    ensures
        list.map_values(|t: ParseType| plain_type_name(t)) == written_type_names(tokens, 0, n),
{
    let names = list.map_values(|t: ParseType| plain_type_name(t));
    assert forall|i: int| 0 <= i < n implies #[trigger] names[i] == written_type_names(tokens, 0, n)[i] by {
        assert(is_named_type(list[i], tokens[2 * i].token_type));
    }
    assert(names =~= written_type_names(tokens, 0, n));
}

/// A list read with `f`, which reads a lone type name as that named type,
/// on `n` type names separated by arrows is those named types, in order,
/// and it ends just after the last of them.
pub proof fn lemma_arrow_names_items<'a, F: Fn(&'a [Token], &mut ParseCtx) -> Result<
    (ParseType, &'a [Token]),
    Diagnostics,
>>(t: Seq<Token>, after: Seq<Token>, f: F, n: nat, items: Seq<ParseType>, rest: Seq<Token>)
    requires
        arrow_names(t, n),
        list_may(t, after, Some(TokenType::Arrow), f, items, rest),
        forall|ts: &'a [Token], c: &mut ParseCtx, r: Result<(ParseType, &'a [Token]), Diagnostics>|
            #[trigger] f.ensures((ts, c), r) ==> (lone_type_in_fn(ts@) ==> (r matches Ok((ty, rr))
                && is_named_type(ty, ts@[0].token_type) && rr@ == ts@.skip(1))),
    ensures
        fn_of_names(items, t, n),
        t.len() >= 2 * n - 1,
        rest == t.skip(2 * n - 1),
    decreases n,
{
    if may_fail(f, t) {
        let (ts, c, r) = choose|ts: &'a [Token], c: &mut ParseCtx, r: Result<(ParseType, &'a [Token]), Diagnostics>|
            ts@ == t && #[trigger] f.ensures((ts, c), r) && r is Err;
        assert(f.ensures((ts, c), r));
    }
    assert(items.len() > 0);
    let r = choose|r: Seq<Token>|
        #[trigger] may_give(f, t, items[0], r) && list_may_after(
            r,
            Some(TokenType::Arrow),
            f,
            items.drop_first(),
            rest,
        );
    let (ts, c, res) = choose|ts: &'a [Token], c: &mut ParseCtx, res: Result<(ParseType, &'a [Token]), Diagnostics>|
        ts@ == t && #[trigger] f.ensures((ts, c), res) && (res matches Ok((x, rr)) && x == items[0]
            && rr@ == r);
    assert(f.ensures((ts, c), res));
    assert(is_named_type(items[0], t[0].token_type));
    assert(r == t.skip(1));
    assert(r[0] == t[1]);
    if n == 1 {
        assert(!continues_with(r, TokenType::Arrow));
        assert(items.drop_first().len() == 0);
        assert(items.len() == 1);
    } else {
        assert(continues_with(r, TokenType::Arrow));
        assert(r.skip(1) =~= t.skip(2));
        lemma_arrow_names_items(t.skip(2), r, f, (n - 1) as nat, items.drop_first(), rest);
        assert(t.skip(2).skip(2 * (n - 1) - 1) =~= t.skip(2 * n - 1));
        assert forall|i: int| 0 <= i < n implies is_named_type(#[trigger] items[i], t[2 * i].token_type) by {
            if i > 0 {
                assert(items[i] == items.drop_first()[i - 1]);
                assert(t.skip(2)[2 * (i - 1)] == t[2 * i]);
            }
        }
    }
}

impl ParseType {
    /// A function type, else an array type, else a tuple (or unit) type, else
    /// a named type.
    pub fn parse<'a>(tokens: &'a [Token], parse_ctx: &mut ParseCtx) -> (res: Result<
        (Self, &'a [Token]),
        Diagnostics,
    >)
        ensures
            parse_post(tokens@, *old(parse_ctx), *final(parse_ctx), res),
            ctx_same(*old(parse_ctx), *final(parse_ctx)),
            res is Ok ==> starts_type(tokens@),
            tokens@.len() > 0 && tokens@[0].token_type is Type ==> res is Ok,
            lone_type_name(tokens@) ==> (res matches Ok((t, rest)) && is_named_type(
                t,
                tokens@[0].token_type,
            ) && rest@ == tokens@.skip(1)),
            old(parse_ctx).is_inside_fn_type_decl && lone_type_in_fn(tokens@) ==> (res matches Ok(
                (t, rest),
            ) && is_named_type(t, tokens@[0].token_type) && rest@ == tokens@.skip(1)),
            forall|n: nat|
                #![trigger type_args(tokens@.skip(1), n)]
                tokens@.len() > 1 && tokens@[0].token_type is Type && type_args(tokens@.skip(1), n) && (
                no_arrow(tokens@) || old(parse_ctx).is_inside_fn_type_decl) ==> (res matches Ok(
                    (ParseType::Type(inner), rest),
                ) && named_with_args(inner, tokens@, n) && rest@ == tokens@.skip(2 * n as int)),
            forall|n: nat|
                #![trigger type_args(tokens@.skip(1), n)]
                no_arrow(tokens@) && tuple_of_names(tokens@, n) ==> (res matches Ok(
                    (ParseType::Tuple(list), rest),
                ) && names_after(list@, tokens@, n) && rest@ == tokens@.skip(2 * n as int + 1)),
            no_arrow(tokens@) && tokens@.len() > 1 && tokens@[0].token_type is OpenParen
                && tokens@[1].token_type is CloseParen ==> (res matches Ok((ParseType::Unit, rest))
                && rest@ == tokens@.skip(2)),
            no_arrow(tokens@) && tokens@.len() > 2 && tokens@[0].token_type is OpenBracket
                && tokens@[1].token_type is Type && tokens@[2].token_type is CloseBracket ==> (
            res matches Ok((ParseType::Array(t), rest)) && is_named_type(*t, tokens@[1].token_type)
                && rest@ == tokens@.skip(3)),
            !old(parse_ctx).is_inside_fn_type_decl && arrow_of_two_names(tokens@) ==> (res matches Ok(
                (ParseType::Function(list), rest),
            ) && list@.len() == 2 && is_named_type(list@[0], tokens@[0].token_type) && is_named_type(
                list@[1],
                tokens@[2].token_type,
            ) && rest@ == tokens@.skip(3)),
            forall|n: nat|
                #![trigger arrow_names(tokens@, n)]
                !old(parse_ctx).is_inside_fn_type_decl && n >= 2 && arrow_names(tokens@, n) ==> (
                res matches Ok((ParseType::Function(list), rest)) && fn_of_names(list@, tokens@, n)
                    && rest@ == tokens@.skip(2 * n - 1)),
        decreases tokens@.len(), type_mode_measure(*parse_ctx), 2int,
    {
        if tokens.len() == 0 {
            return fail(ParseError::UnexpectedEof(TokenType::Type(String::new())));
        }
        let token = &tokens[0];
        match token.token_type {
            TokenType::Type(_) | TokenType::OpenParen | TokenType::OpenBracket => {},
            _ => {
                return fail(
                    ParseError::UnexpectedToken(
                        token.clone(),
                        vec![
                            TokenType::OpenParen,
                            TokenType::OpenBracket,
                            TokenType::Type(String::new()),
                        ],
                    ),
                );
            },
        }
        if let Ok((func, remaining_tokens)) = parse_function_type(tokens, parse_ctx) {
            return Ok((func, remaining_tokens));
        } else if let Ok((array, remaining_tokens)) = parse_array_type(tokens, parse_ctx) {
            return Ok((array, remaining_tokens));
        } else if let Ok((tuple, remaining_tokens)) = parse_tuple_type(tokens, parse_ctx) {
            return Ok((tuple, remaining_tokens));
        } else if let Ok((inner, remaining_tokens)) = ParseTypeInner::parse(tokens, parse_ctx) {
            return Ok((ParseType::Type(inner), remaining_tokens));
        } else {
            fail(
                ParseError::UnexpectedToken(
                    tokens[0].clone(),
                    vec![
                        TokenType::OpenParen,
                        TokenType::OpenBracket,
                        TokenType::Type(String::new()),
                    ],
                ),
            )
        }
    }
}

impl Parsable for ParseType {
    fn parse<'a>(tokens: &'a [Token], parse_ctx: &mut ParseCtx) -> (res: Result<
        (Self, &'a [Token]),
        Diagnostics,
    >)
        ensures
            parse_post(tokens@, *old(parse_ctx), *final(parse_ctx), res),
            ctx_same(*old(parse_ctx), *final(parse_ctx)),
            res is Ok ==> starts_type(tokens@),
            tokens@.len() > 0 && tokens@[0].token_type is Type ==> res is Ok,
            lone_type_name(tokens@) ==> (res matches Ok((t, rest)) && is_named_type(
                t,
                tokens@[0].token_type,
            ) && rest@ == tokens@.skip(1)),
            old(parse_ctx).is_inside_fn_type_decl && lone_type_in_fn(tokens@) ==> (res matches Ok(
                (t, rest),
            ) && is_named_type(t, tokens@[0].token_type) && rest@ == tokens@.skip(1)),
            forall|n: nat|
                #![trigger type_args(tokens@.skip(1), n)]
                tokens@.len() > 1 && tokens@[0].token_type is Type && type_args(tokens@.skip(1), n) && (
                no_arrow(tokens@) || old(parse_ctx).is_inside_fn_type_decl) ==> (res matches Ok(
                    (ParseType::Type(inner), rest),
                ) && named_with_args(inner, tokens@, n) && rest@ == tokens@.skip(2 * n as int)),
            forall|n: nat|
                #![trigger type_args(tokens@.skip(1), n)]
                no_arrow(tokens@) && tuple_of_names(tokens@, n) ==> (res matches Ok(
                    (ParseType::Tuple(list), rest),
                ) && names_after(list@, tokens@, n) && rest@ == tokens@.skip(2 * n as int + 1)),
            no_arrow(tokens@) && tokens@.len() > 1 && tokens@[0].token_type is OpenParen
                && tokens@[1].token_type is CloseParen ==> (res matches Ok((ParseType::Unit, rest))
                && rest@ == tokens@.skip(2)),
            no_arrow(tokens@) && tokens@.len() > 2 && tokens@[0].token_type is OpenBracket
                && tokens@[1].token_type is Type && tokens@[2].token_type is CloseBracket ==> (
            res matches Ok((ParseType::Array(t), rest)) && is_named_type(*t, tokens@[1].token_type)
                && rest@ == tokens@.skip(3)),
            !old(parse_ctx).is_inside_fn_type_decl && arrow_of_two_names(tokens@) ==> (res matches Ok(
                (ParseType::Function(list), rest),
            ) && list@.len() == 2 && is_named_type(list@[0], tokens@[0].token_type) && is_named_type(
                list@[1],
                tokens@[2].token_type,
            ) && rest@ == tokens@.skip(3)),
            forall|n: nat|
                #![trigger arrow_names(tokens@, n)]
                !old(parse_ctx).is_inside_fn_type_decl && n >= 2 && arrow_names(tokens@, n) ==> (
                res matches Ok((ParseType::Function(list), rest)) && fn_of_names(list@, tokens@, n)
                    && rest@ == tokens@.skip(2 * n - 1)),
    {
        ParseType::parse(tokens, parse_ctx)
    }
}

/// Types separated by arrows, at least two: the argument types then the
/// return type. A function type inside another one is written in parentheses.
pub fn parse_function_type<'a>(tokens: &'a [Token], parse_ctx: &mut ParseCtx) -> (res: Result<
    (ParseType, &'a [Token]),
    Diagnostics,
>)
    ensures
        parse_post(tokens@, *old(parse_ctx), *final(parse_ctx), res),
        ctx_same(*old(parse_ctx), *final(parse_ctx)),
        res matches Ok((ParseType::Function(list), _)) ==> list@.len() >= 2,
        res matches Ok((t, _)) ==> t is Function,
        lone_type_name(tokens@) ==> res is Err,
        old(parse_ctx).is_inside_fn_type_decl && !(tokens@.len() > 0 && tokens@[0].token_type
            is OpenParen) ==> res is Err,
        !old(parse_ctx).is_inside_fn_type_decl && arrow_of_two_names(tokens@) ==> (res matches Ok(
            (ParseType::Function(list), rest),
        ) && list@.len() == 2 && is_named_type(list@[0], tokens@[0].token_type) && is_named_type(
            list@[1],
            tokens@[2].token_type,
        ) && rest@ == tokens@.skip(3)),
        res is Ok ==> !no_arrow(tokens@),
        forall|n: nat|
            #![trigger arrow_names(tokens@, n)]
            !old(parse_ctx).is_inside_fn_type_decl && n >= 2 && arrow_names(tokens@, n) ==> (
            res matches Ok((ParseType::Function(list), rest)) && fn_of_names(list@, tokens@, n)
                && rest@ == tokens@.skip(2 * n - 1)),
    decreases tokens@.len(), type_mode_measure(*parse_ctx), 1int,
{
    let ghost start = *parse_ctx;
    let mut remaining_tokens = tokens;
    let mut has_toggled_inside_fn_type_decl = false;
    if parse_ctx.is_inside_fn_type_decl {
        remaining_tokens = expect(remaining_tokens, TokenType::OpenParen)?;
    }
    proof {
        if remaining_tokens@ != tokens@ {
            lemma_skip_suffix(tokens@, 1);
        } else {
            assert(tokens@.skip(0) =~= tokens@);
        }
    }
    if !parse_ctx.is_inside_fn_type_decl {
        has_toggled_inside_fn_type_decl = true;
        parse_ctx.is_inside_fn_type_decl = true;
    }
    let ghost after_open = remaining_tokens;
    let parse_item = |t: &'a [Token], c: &mut ParseCtx| -> (r: Result<(ParseType, &'a [Token]), Diagnostics>)
        requires
            is_suffix(t@, after_open@),
            c.is_inside_fn_type_decl,
        ensures
            parse_post(t@, *old(c), *final(c), r),
            ctx_same(*old(c), *final(c)),
            lone_type_name(t@) ==> (r matches Ok((_, rest)) && rest@ == t@.skip(1)),
            lone_type_in_fn(t@) ==> (r matches Ok((ty, rest)) && is_named_type(ty, t@[0].token_type)
                && rest@ == t@.skip(1)),
        { ParseType::parse(t, c) };
    proof {
        if !start.is_inside_fn_type_decl && arrow_of_two_names(tokens@) {
            assert(remaining_tokens@ == tokens@);
            assert(tokens@.skip(1).skip(1) =~= tokens@.skip(2));
            assert(tokens@.skip(2).skip(1) =~= tokens@.skip(3));
            assert(lone_type_in_fn(tokens@));
            assert(lone_type_in_fn(tokens@.skip(2)));
            assert(two_items(
                remaining_tokens,
                Some(TokenType::Arrow),
                parse_item,
                tokens@.skip(1),
                tokens@.skip(3),
            ));
        }
    }
    let (list, mut remaining_tokens, _diags) = parse_vec_with(
        remaining_tokens,
        Some(TokenType::Arrow),
        parse_ctx,
        parse_item,
    );
    proof {
        lemma_suffix_trans(remaining_tokens@, after_open@, tokens@);
        if list@.len() >= 2 {
            lemma_list_has_delim(after_open@, after_open@, TokenType::Arrow, parse_item, list@, remaining_tokens@);
            let i = choose|i: int| 0 <= i < after_open@.len() && same_token_type(
                #[trigger] after_open@[i].token_type,
                TokenType::Arrow,
            );
            let j = tokens@.len() - after_open@.len() + i;
            assert(tokens@[j] == after_open@[i]);
            assert(!no_arrow(tokens@));
        }
        if !start.is_inside_fn_type_decl && arrow_of_two_names(tokens@) {
            assert(after_open@ == tokens@);
            lemma_two_named(tokens@, tokens@, parse_item, list@, remaining_tokens@);
        }
        assert forall|n: nat|
            !start.is_inside_fn_type_decl && n >= 2 && #[trigger] arrow_names(tokens@, n) implies fn_of_names(
                list@,
                tokens@,
                n,
            ) && remaining_tokens@ == tokens@.skip(2 * n - 1) by {
            assert(after_open@ == tokens@);
            lemma_arrow_names_items(tokens@, tokens@, parse_item, n, list@, remaining_tokens@);
        }
    }
    if has_toggled_inside_fn_type_decl {
        parse_ctx.is_inside_fn_type_decl = false;
    }
    if list.len() < 2 {
        if remaining_tokens.len() == 0 {
            return fail(ParseError::UnexpectedEof(TokenType::Arrow));
        }
        return fail(ParseError::UnexpectedToken(remaining_tokens[0].clone(), vec![TokenType::Arrow]));
    }
    if parse_ctx.is_inside_fn_type_decl {
        let before_close = remaining_tokens;
        remaining_tokens = expect(remaining_tokens, TokenType::CloseParen)?;
        proof {
            lemma_skip_suffix(before_close@, 1);
            lemma_suffix_trans(remaining_tokens@, before_close@, tokens@);
        }
    }
    Ok((ParseType::Function(list), remaining_tokens))
}

/// A type in brackets.
pub fn parse_array_type<'a>(tokens: &'a [Token], parse_ctx: &mut ParseCtx) -> (res: Result<
    (ParseType, &'a [Token]),
    Diagnostics,
>)
    ensures
        parse_post(tokens@, *old(parse_ctx), *final(parse_ctx), res),
        ctx_same(*old(parse_ctx), *final(parse_ctx)),
        res matches Ok((t, _)) ==> t is Array,
        res is Ok ==> tokens@[0].token_type is OpenBracket,
        tokens@.len() > 2 && tokens@[0].token_type is OpenBracket && tokens@[1].token_type is Type
            && tokens@[2].token_type is CloseBracket ==> (res matches Ok((ParseType::Array(t), rest))
            && is_named_type(*t, tokens@[1].token_type) && rest@ == tokens@.skip(3)),
    decreases tokens@.len(), type_mode_measure(*parse_ctx), 1int,
{
    let remaining_tokens = expect(tokens, TokenType::OpenBracket)?;
    proof {
        lemma_skip_suffix(tokens@, 1);
    }
    let (ty, remaining_tokens2) = ParseType::parse(remaining_tokens, parse_ctx)?;
    proof {
        if tokens@.len() > 2 && tokens@[1].token_type is Type && tokens@[2].token_type is CloseBracket {
            assert(remaining_tokens@[0] == tokens@[1]);
            assert(remaining_tokens@[1] == tokens@[2]);
            assert(lone_type_name(remaining_tokens@));
            assert(remaining_tokens2@ =~= tokens@.skip(2));
        }
    }
    let remaining_tokens3 = expect(remaining_tokens2, TokenType::CloseBracket)?;
    proof {
        lemma_skip_suffix(remaining_tokens2@, 1);
        lemma_suffix_trans(remaining_tokens2@, remaining_tokens@, tokens@);
        lemma_suffix_trans(remaining_tokens3@, remaining_tokens2@, tokens@);
    }
    Ok((ParseType::Array(Box::new(ty)), remaining_tokens3))
}

/// Types in parentheses separated by comas: no type is the unit type, one
/// type is refused (it is not a tuple).
pub fn parse_tuple_type<'a>(tokens: &'a [Token], parse_ctx: &mut ParseCtx) -> (res: Result<
    (ParseType, &'a [Token]),
    Diagnostics,
>)
    ensures
        parse_post(tokens@, *old(parse_ctx), *final(parse_ctx), res),
        ctx_same(*old(parse_ctx), *final(parse_ctx)),
        res matches Ok((t, _)) ==> t is Unit || (t matches ParseType::Tuple(list) && list@.len()
            >= 2),
        res is Ok ==> tokens@[0].token_type is OpenParen,
        tokens@.len() > 1 && tokens@[0].token_type is OpenParen && tokens@[1].token_type is CloseParen
            ==> (res matches Ok((t, rest)) && t is Unit && rest@ == tokens@.skip(2)),
        forall|n: nat|
            #![trigger type_args(tokens@.skip(1), n)]
            tuple_of_names(tokens@, n) ==> (res matches Ok((ParseType::Tuple(list), rest)) && names_after(
                list@,
                tokens@,
                n,
            ) && rest@ == tokens@.skip(2 * n as int + 1)),
    decreases tokens@.len(), type_mode_measure(*parse_ctx), 1int,
{
    let remaining_tokens = expect(tokens, TokenType::OpenParen)?;
    proof {
        lemma_skip_suffix(tokens@, 1);
    }
    let parse_item = |t: &'a [Token], c: &mut ParseCtx| -> (r: Result<(ParseType, &'a [Token]), Diagnostics>)
        requires
            is_suffix(t@, remaining_tokens@),
        ensures
            parse_post(t@, *old(c), *final(c), r),
            ctx_same(*old(c), *final(c)),
            r is Ok ==> starts_type(t@),
            lone_type_name(t@) ==> (r matches Ok((ty, rest)) && is_named_type(ty, t@[0].token_type)
                && rest@ == t@.skip(1)),
        { ParseType::parse(t, c) };
    proof {
        assert forall|n: nat| #[trigger] type_args(tokens@.skip(1), n) implies count_from(
            remaining_tokens@,
            remaining_tokens@,
            Some(TokenType::Coma),
            parse_item,
            n,
            remaining_tokens@.skip(2 * n - 1),
        ) && remaining_tokens@.skip(2 * n - 1) =~= tokens@.skip(2 * n as int) by {
            assert(remaining_tokens@ =~= tokens@.skip(1));
            lemma_type_args_count(remaining_tokens@, remaining_tokens@, parse_item, n);
        }
    }
    let (list, remaining_tokens2, _diags) = parse_vec_with(
        remaining_tokens,
        Some(TokenType::Coma),
        parse_ctx,
        parse_item,
    );
    proof {
        assert forall|n: nat| #[trigger] type_args(tokens@.skip(1), n) implies names_after(
            list@,
            tokens@,
            n,
        ) by {
            assert(remaining_tokens@ =~= tokens@.skip(1));
            lemma_type_args_items(remaining_tokens@, remaining_tokens@, parse_item, n, list@, remaining_tokens2@);
            lemma_type_args_count(remaining_tokens@, remaining_tokens@, parse_item, n);
            assert forall|i: int| 0 <= i < n implies is_named_type(
                #[trigger] list@[i],
                tokens@[2 * i + 1].token_type,
            ) by {
                assert(remaining_tokens@[2 * i] == tokens@[2 * i + 1]);
            }
        }
    }
    let remaining_tokens3 = expect(remaining_tokens2, TokenType::CloseParen)?;
    proof {
        lemma_skip_suffix(remaining_tokens2@, 1);
        lemma_suffix_trans(remaining_tokens2@, remaining_tokens@, tokens@);
        lemma_suffix_trans(remaining_tokens3@, remaining_tokens2@, tokens@);
        assert forall|n: nat| tuple_of_names(tokens@, n) implies #[trigger] remaining_tokens3@
            == tokens@.skip(2 * n as int + 1) by {
            assert(tokens@.skip(2 * n as int).skip(1) =~= tokens@.skip(2 * n as int + 1));
        }
    }
    if list.len() == 0 {
        return Ok((ParseType::Unit, remaining_tokens3));
    }
    if list.len() == 1 {
        if remaining_tokens3.len() == 0 {
            return fail(ParseError::UnexpectedEof(TokenType::CloseParen));
        }
        return fail(
            ParseError::UnexpectedToken(
                remaining_tokens3[0].clone(),
                vec![TokenType::Coma, TokenType::CloseParen],
            ),
        );
    }
    Ok((ParseType::Tuple(list), remaining_tokens3))
}

/// `tokens` starts with `n` lone type names separated by comas, and no coma
/// follows the last of them.
pub open spec fn type_args(tokens: Seq<Token>, n: nat) -> bool
    decreases n,
{
    &&& n > 0
    &&& lone_type_name(tokens)
    &&& if n == 1 {
        !(tokens[1].token_type is Coma)
    } else {
        tokens.len() > 2 && tokens[1].token_type is Coma && type_args(tokens.skip(2), (n - 1) as nat)
    }
}

/// A list read with `f`, which reads a lone type name and leaves what
/// follows it, has `n` items on `n` such names separated by comas.
pub proof fn lemma_type_args_count<'a, F: Fn(&'a [Token], &mut ParseCtx) -> Result<
    (ParseType, &'a [Token]),
    Diagnostics,
>>(t: Seq<Token>, after: Seq<Token>, f: F, n: nat)
    requires
        type_args(t, n),
        forall|ts: &'a [Token], c: &mut ParseCtx, r: Result<(ParseType, &'a [Token]), Diagnostics>|
            #[trigger] f.ensures((ts, c), r) ==> (lone_type_name(ts@) ==> (r matches Ok((_, rest))
                && rest@ == ts@.skip(1))),
    ensures
        count_from(t, after, Some(TokenType::Coma), f, n, t.skip(2 * n - 1)),
        t.len() >= 2 * n - 1,
    decreases n,
{
    assert(leaves(f, t, t.skip(1)));
    if n == 1 {
        assert(count_after(t.skip(1), Some(TokenType::Coma), f, 0, t.skip(1)));
    } else {
        lemma_type_args_count(t.skip(2), t.skip(1), f, (n - 1) as nat);
        assert(t.skip(1).skip(1) =~= t.skip(2));
        assert(t.skip(2).skip(2 * (n - 1) - 1) =~= t.skip(2 * n - 1));
        assert(count_after(t.skip(1), Some(TokenType::Coma), f, (n - 1) as nat, t.skip(2 * n - 1)));
    }
}

impl ParseTypeInner {
    /// A type name and its generic arguments separated by comas, the whole
    /// possibly in parentheses.
    pub fn parse<'a>(tokens: &'a [Token], parse_ctx: &mut ParseCtx) -> (res: Result<
        (Self, &'a [Token]),
        Diagnostics,
    >)
        ensures
            parse_post(tokens@, *old(parse_ctx), *final(parse_ctx), res),
            ctx_same(*old(parse_ctx), *final(parse_ctx)),
            res matches Ok((inner, _)) ==> {
                let at = if tokens@[0].token_type is OpenParen {
                    1int
                } else {
                    0int
                };
                &&& at < tokens@.len()
                &&& tokens@[at].token_type matches TokenType::Type(name) && inner.name@ == name@
            },
            tokens@.len() > 1 && tokens@[0].token_type is Type && !(tokens@[1].token_type is Type
                || tokens@[1].token_type is OpenParen || tokens@[1].token_type is OpenBracket)
                ==> (res matches Ok((inner, rest)) && inner.generics@.len() == 0 && rest@ == tokens@.skip(1)),
            tokens@.len() > 0 && tokens@[0].token_type is Type ==> res is Ok,
            forall|n: nat|
                #![trigger type_args(tokens@.skip(1), n)]
                tokens@.len() > 1 && tokens@[0].token_type is Type && type_args(tokens@.skip(1), n)
                    ==> (res matches Ok((inner, rest)) && named_with_args(inner, tokens@, n) && rest@
                    == tokens@.skip(2 * n as int)),
        decreases tokens@.len(), type_mode_measure(*parse_ctx), 1int,
    {
        if tokens.len() == 0 {
            return fail(ParseError::UnexpectedEof(TokenType::Type(String::new())));
        }
        let mut remaining_tokens = tokens;
        let mut has_paren = false;
        if tokens[0].token_type.same_as(&TokenType::OpenParen) {
            remaining_tokens = vstd::slice::slice_subrange(tokens, 1, tokens.len());
            has_paren = true;
        }
        proof {
            if has_paren {
                lemma_skip_suffix(tokens@, 1);
            } else {
                assert(tokens@.skip(0) =~= tokens@);
            }
        }
        if remaining_tokens.len() == 0 {
            return fail(ParseError::UnexpectedEof(TokenType::Type(String::new())));
        }
        let token = &remaining_tokens[0];
        let (name, span) = match &token.token_type {
            TokenType::Type(name) => (name.clone(), token.span.clone()),
            _ => {
                return fail(
                    ParseError::UnexpectedToken(token.clone(), vec![TokenType::Ident(String::new())]),
                );
            },
        };
        let after_name = vstd::slice::slice_subrange(remaining_tokens, 1, remaining_tokens.len());
        proof {
            lemma_skip_suffix(remaining_tokens@, 1);
            lemma_suffix_trans(after_name@, remaining_tokens@, tokens@);
        }
        let parse_item = |t: &'a [Token], c: &mut ParseCtx| -> (r: Result<(ParseType, &'a [Token]), Diagnostics>)
            requires
                is_suffix(t@, after_name@),
            ensures
                parse_post(t@, *old(c), *final(c), r),
                ctx_same(*old(c), *final(c)),
                r is Ok ==> starts_type(t@),
                lone_type_name(t@) ==> (r matches Ok((ty, rest)) && is_named_type(ty, t@[0].token_type)
                    && rest@ == t@.skip(1)),
            { ParseType::parse(t, c) };
        proof {
            if !has_paren {
                assert forall|n: nat| #[trigger] type_args(tokens@.skip(1), n) implies count_from(
                    after_name@,
                    after_name@,
                    Some(TokenType::Coma),
                    parse_item,
                    n,
                    after_name@.skip(2 * n - 1),
                ) && after_name@.skip(2 * n - 1) =~= tokens@.skip(2 * n as int) by {
                    assert(after_name@ =~= tokens@.skip(1));
                    lemma_type_args_count(after_name@, after_name@, parse_item, n);
                }
            }
        }
        let (generics, mut remaining_tokens2, _diags) = parse_vec_with(
            after_name,
            Some(TokenType::Coma),
            parse_ctx,
            parse_item,
        );
        proof {
            lemma_suffix_trans(remaining_tokens2@, after_name@, tokens@);
        }
        proof {
            if !has_paren {
                assert forall|n: nat| #[trigger] type_args(tokens@.skip(1), n) implies names_after(
                    generics@,
                    tokens@,
                    n,
                ) by {
                    assert(after_name@ =~= tokens@.skip(1));
                    lemma_type_args_items(after_name@, after_name@, parse_item, n, generics@, remaining_tokens2@);
                    lemma_type_args_count(after_name@, after_name@, parse_item, n);
                    assert forall|i: int| 0 <= i < n implies is_named_type(
                        #[trigger] generics@[i],
                        tokens@[2 * i + 1].token_type,
                    ) by {
                        assert(after_name@[2 * i] == tokens@[2 * i + 1]);
                    }
                }
            }
        }
        if has_paren {
            let before_close = remaining_tokens2;
            remaining_tokens2 = expect(remaining_tokens2, TokenType::CloseParen)?;
            proof {
                lemma_skip_suffix(before_close@, 1);
                lemma_suffix_trans(remaining_tokens2@, before_close@, tokens@);
            }
        }
        Ok((ParseTypeInner { name, span, generics }, remaining_tokens2))
    }
}

impl Parsable for ParseTypeInner {
    fn parse<'a>(tokens: &'a [Token], parse_ctx: &mut ParseCtx) -> (res: Result<
        (Self, &'a [Token]),
        Diagnostics,
    >)
        ensures
            parse_post(tokens@, *old(parse_ctx), *final(parse_ctx), res),
            ctx_same(*old(parse_ctx), *final(parse_ctx)),
            res matches Ok((inner, _)) ==> {
                let at = if tokens@[0].token_type is OpenParen {
                    1int
                } else {
                    0int
                };
                &&& at < tokens@.len()
                &&& tokens@[at].token_type matches TokenType::Type(name) && inner.name@ == name@
            },
            tokens@.len() > 1 && tokens@[0].token_type is Type && !(tokens@[1].token_type is Type
                || tokens@[1].token_type is OpenParen || tokens@[1].token_type is OpenBracket)
                ==> (res matches Ok((inner, rest)) && inner.generics@.len() == 0 && rest@ == tokens@.skip(1)),
            tokens@.len() > 0 && tokens@[0].token_type is Type ==> res is Ok,
    {
        ParseTypeInner::parse(tokens, parse_ctx)
    }
}

} // verus!
