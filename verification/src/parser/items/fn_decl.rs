use vstd::prelude::*;

use crate::ast::{
    Block, Expression, FunctionDecl, FunctionSig, Ident, IdentOrType, LambdaDecl, Operand, ParseType,
    Pattern, PatternKind, Statement, UnaryExpr,
};
use crate::lexer::{Span, Token, TokenType};
use crate::parser::items::expression::{
    cannot_start_operand, literal_token, operand_of, simple_binop, simple_expr,
};
use crate::parser::items::matching::{
    lemma_lone_patterns_items, lone_pattern_at, lone_pattern_kind, lone_patterns, lone_patterns_read,
};
use crate::parser::items::ident::ident_name;
use crate::parser::items::parse_type::{is_named_type, lone_type_name};
use crate::parser::items::structs::name_colon_type;
use crate::parser::parsable::{
    clone_tokens, is_suffix, lemma_skip_suffix_auto, lemma_suffix_trans_auto, parse_post, skip,
};
use crate::parser::parse_ctx::{ctx_same, ParseCtx};
use crate::parser::util::{
    consume_tokens_until, expect, fail, one_item, parse_vec_with, Diagnostics, ParseError,
};

verus! {

broadcast use {lemma_suffix_trans_auto, lemma_skip_suffix_auto};

impl FunctionDecl {
    /// `name = lambda` (or `@name = lambda` for a method that takes `self`),
    /// then the end of the line.
    pub fn parse<'a>(tokens: &'a [Token], parse_ctx: &mut ParseCtx) -> (res: Result<
        (Self, &'a [Token]),
        Diagnostics,
    >)
        ensures
            parse_post(tokens@, *old(parse_ctx), *final(parse_ctx), res),
            ctx_same(*old(parse_ctx), *final(parse_ctx)),
            res matches Ok((f, _)) ==> {
                &&& f.inject_self == (tokens@[0].token_type is Arobase)
                &&& Some(f.name.name@) == ident_name(
                    tokens@[if f.inject_self {
                        1int
                    } else {
                        0int
                    }].token_type,
                )
            },
            tokens@.len() > 6 && tokens@[0].token_type is Ident && tokens@[1].token_type is Equal
                && shorthand_in_parens(tokens@.skip(2)) && tokens@[6].token_type is Eol ==> (
            res matches Ok((f, rest)) && !f.inject_self && rest@ == tokens@.skip(7)),
    {
        if tokens.len() == 0 {
            return fail(ParseError::UnexpectedEof(TokenType::Ident(String::new())));
        }
        let mut remaining_tokens = tokens;
        let mut inject_self = false;
        if tokens[0].token_type.same_as(&TokenType::Arobase) {
            remaining_tokens = skip(tokens, 1);
            inject_self = true;
        }
        let (name, remaining_tokens) = Ident::parse(remaining_tokens, parse_ctx)?;
        let remaining_tokens = expect(remaining_tokens, TokenType::Equal)?;
        proof {
            if tokens@.len() > 6 && tokens@[0].token_type is Ident && tokens@[1].token_type is Equal {
                assert(remaining_tokens@ =~= tokens@.skip(2));
                assert(tokens@.skip(2).skip(4) =~= tokens@.skip(6));
                assert(tokens@.skip(6)[0] == tokens@[6]);
            }
        }
        let (lambda, remaining_tokens) = LambdaDecl::parse(remaining_tokens, parse_ctx)?;
        let remaining_tokens = expect(remaining_tokens, TokenType::Eol)?;
        Ok((FunctionDecl { name, lambda, inject_self }, remaining_tokens))
    }
}

impl LambdaDecl {
    /// A function shorthand such as `(+2)`, else parameters separated by
    /// comas, an arrow and a body.
    pub fn parse<'a>(tokens: &'a [Token], parse_ctx: &mut ParseCtx) -> (res: Result<
        (Self, &'a [Token]),
        Diagnostics,
    >)
        ensures
            parse_post(tokens@, *old(parse_ctx), *final(parse_ctx), res),
            ctx_same(*old(parse_ctx), *final(parse_ctx)),
            res matches Ok((l, _)) ==> (l.shorthand_tokens is Some ==> tokens@[0].token_type
                is OpenParen && l.parameters@.len() == 1),
            cannot_start_operand(tokens@) ==> res is Err,
            tokens@.len() > 0 && tokens@[0].token_type is Ident && !(tokens@.len() > 1 && (
            tokens@[1].token_type is Coma || tokens@[1].token_type is Arrow
                || tokens@[1].token_type is Arobase)) ==> res is Err,
            shorthand_in_parens(tokens@) ==> (res matches Ok((l, rest)) && l.shorthand_tokens
                is Some && rest@ == tokens@.skip(4)),
            tokens@.len() > 2 && tokens@[0].token_type is Arrow && tokens@[1].token_type is Eol
                && old(parse_ctx).level() + old(parse_ctx).indent_step <= u8::MAX ==> (res matches Ok(
                (l, _),
            ) && l.parameters@.len() == 0 && l.shorthand_tokens is None),
            forall|n: nat|
                #![trigger lone_patterns(tokens@, n)]
                lone_patterns(tokens@, n) && tokens@.len() > 2 * n - 1 && tokens@[2 * n - 1].token_type
                    is Arrow ==> (res matches Ok((l, _)) ==> l.shorthand_tokens is None
                    && lone_patterns_read(l.parameters@, tokens@, n)),
        decreases tokens@.len(), 4int,
    {
        if tokens.len() == 0 {
            return fail(ParseError::UnexpectedEof(TokenType::Arrow));
        }
        if tokens[0].token_type.same_as(&TokenType::OpenParen) {
            if let Ok((lambda, remaining_tokens)) = parse_function_shorthand(tokens, parse_ctx) {
                return Ok((lambda, remaining_tokens));
            }
        }
        let parse_item = |t: &'a [Token], c: &mut ParseCtx| -> (r: Result<(Pattern, &'a [Token]), Diagnostics>)
            requires
                is_suffix(t@, tokens@),
            ensures
                parse_post(t@, *old(c), *final(c), r),
                ctx_same(*old(c), *final(c)),
                cannot_start_operand(t@) ==> r is Err,
                t@.len() > 0 && t@[0].token_type is Arrow ==> r is Err,
                lone_pattern_at(t@, 0) ==> (r matches Ok((p, rest)) && p.binding is None && rest@
                    == t@.skip(1) && lone_pattern_kind(p.kind, t@[0].token_type)),
            { Pattern::parse(t, c) };
        proof {
            if tokens@.len() > 0 && tokens@[0].token_type is Ident && !(tokens@.len() > 1 && (
            tokens@[1].token_type is Coma || tokens@[1].token_type is Arrow
                || tokens@[1].token_type is Arobase)) {
                assert(lone_pattern_at(tokens@, 0));
                assert(one_item(tokens, Some(TokenType::Coma), parse_item, tokens@.skip(1)));
            }
        }
        let (parameters, mut remaining_tokens, _diags) = parse_vec_with(
            tokens,
            Some(TokenType::Coma),
            parse_ctx,
            parse_item,
        );
        proof {
            assert forall|n: nat|
                #[trigger] lone_patterns(tokens@, n) && tokens@.len() > 2 * n - 1 && tokens@[2 * n
                    - 1].token_type is Arrow implies lone_patterns_read(parameters@, tokens@, n)
                && remaining_tokens@ == tokens@.skip(2 * n - 1) by {
                lemma_lone_patterns_items(tokens@, tokens@, parse_item, n, parameters@, remaining_tokens@);
            }
        }
        // a coma after the last parameter is allowed
        if remaining_tokens.len() > 0 && remaining_tokens[0].token_type.same_as(&TokenType::Coma) {
            remaining_tokens = skip(remaining_tokens, 1);
        }
        let remaining_tokens = expect(remaining_tokens, TokenType::Arrow)?;
        proof {
            if tokens@.len() > 2 && tokens@[0].token_type is Arrow {
                assert(remaining_tokens@ =~= tokens@.skip(1));
            }
        }
        let (body, remaining_tokens) = Block::parse(remaining_tokens, parse_ctx)?;
        Ok((LambdaDecl { parameters, body, shorthand_tokens: None }, remaining_tokens))
    }
}

/// `b` is the token type `a` with a stuck operator made a spaced one.
pub open spec fn unstuck_type(a: TokenType, b: TokenType) -> bool {
    match a {
        TokenType::StuckOperator(op) => b matches TokenType::Operator(o) && o@ == op@,
        _ => b == a,
    }
}

/// An operator token other than `!`, spaced or stuck.
pub open spec fn binary_operator_token(t: TokenType) -> bool {
    match t {
        TokenType::Operator(op) => op@ != "!"@,
        TokenType::StuckOperator(op) => op@ != "!"@,
        _ => false,
    }
}

/// The parameter `x` of a function shorthand, as an operand.
pub open spec fn is_shorthand_param(o: Operand) -> bool {
    o matches Operand::Ident(path) && path.path@.len() > 0 && (path.path@[0] matches IdentOrType::Ident(
        id,
    ) && id.name@ == seq!['x'])
}

/// The text of an operator token, spaced or stuck.
pub open spec fn operator_text(t: TokenType) -> Seq<char> {
    match t {
        TokenType::Operator(op) => op@,
        TokenType::StuckOperator(op) => op@,
        _ => Seq::empty(),
    }
}

/// `e` is `a op x`: the operand of the token `a`, the operator of the token
/// `op`, then the parameter.
pub open spec fn param_on_right(e: Expression, a: TokenType, op: TokenType) -> bool {
    e matches Expression::BinopExpr(UnaryExpr::PrimaryExpr(p), o, right) && operand_of(p.operand, a)
        && o.value@ == operator_text(op) && (*right matches Expression::UnaryExpr(
        UnaryExpr::PrimaryExpr(q),
    ) && is_shorthand_param(q.operand))
}

/// `e` is `x op a`: the parameter, the operator of the token `op`, then the
/// operand of the token `a`.
pub open spec fn param_on_left(e: Expression, op: TokenType, a: TokenType) -> bool {
    e matches Expression::BinopExpr(UnaryExpr::PrimaryExpr(p), o, right) && is_shorthand_param(
        p.operand,
    ) && o.value@ == operator_text(op) && simple_expr(*right, a)
}

/// The body of the function is the one statement `e`.
pub open spec fn body_is(l: LambdaDecl, e: Expression) -> bool {
    l.body.statements@.len() == 1 && l.body.statements@[0] == Statement::Expression(e)
}

/// What follows the parenthesis of `(+2)`: an operator, a literal or a
/// name, and the closing parenthesis.
pub open spec fn prefix_shorthand(tokens: Seq<Token>) -> bool {
    &&& tokens.len() > 2
    &&& binary_operator_token(tokens[0].token_type)
    &&& literal_token(tokens[1].token_type) || tokens[1].token_type is Ident
    &&& tokens[2].token_type is CloseParen
}

/// What follows the parenthesis of `(a/)`: a name, a spaced operator, and the
/// closing parenthesis.
pub open spec fn suffix_shorthand(tokens: Seq<Token>) -> bool {
    &&& tokens.len() > 2
    &&& tokens[0].token_type is Ident
    &&& tokens[1].token_type is Operator
    &&& binary_operator_token(tokens[1].token_type)
    &&& tokens[2].token_type is CloseParen
}

/// A function shorthand with one operator and one operand, in parentheses:
/// `(+2)` or `(a/)`.
pub open spec fn shorthand_in_parens(tokens: Seq<Token>) -> bool {
    &&& tokens.len() > 0
    &&& tokens[0].token_type is OpenParen
    &&& prefix_shorthand(tokens.skip(1)) || suffix_shorthand(tokens.skip(1))
}

/// The token with a stuck operator made a spaced one, so that it reads as a
/// binary operator.
pub fn unstick(token: &Token) -> (res: Token)
    ensures
        res.span == token.span,
        match token.token_type {
            TokenType::StuckOperator(op) => res.token_type matches TokenType::Operator(o) && o@
                == op@,
            _ => res.token_type == token.token_type,
        },
        unstuck_type(token.token_type, res.token_type),
{
    match &token.token_type {
        TokenType::StuckOperator(op) => Token {
            token_type: TokenType::Operator(op.clone()),
            span: token.span.clone(),
        },
        _ => token.clone(),
    }
}

/// The parameter `x` of a function shorthand.
fn shorthand_parameter(span: &Span) -> (res: Pattern)
    ensures
        res.binding is None,
        res.kind matches PatternKind::Ident(ident) && ident.name@ == seq!['x'],
{
    let name = String::from_str("x");
    proof {
        reveal_strlit("x");
    }
    Pattern { binding: None, kind: PatternKind::Ident(Ident { name, span: span.clone() }) }
}

/// The token `x` that stands for the parameter of a function shorthand.
fn shorthand_argument(span: &Span) -> (res: Token)
    ensures
        res.token_type matches TokenType::Ident(name) && name@ == seq!['x'],
{
    let name = String::from_str("x");
    proof {
        reveal_strlit("x");
    }
    Token { token_type: TokenType::Ident(name), span: span.clone() }
}

/// A function written as an operator with one operand missing, in
/// parentheses: `(+2)` is `x -> x + 2`, `(a/)` is `x -> a / x`, `(.prop)` is
/// `x -> x.prop`.
pub fn parse_function_shorthand<'a>(tokens: &'a [Token], parse_ctx: &mut ParseCtx) -> (res: Result<
    (LambdaDecl, &'a [Token]),
    Diagnostics,
>)
    ensures
        parse_post(tokens@, *old(parse_ctx), *final(parse_ctx), res),
        ctx_same(*old(parse_ctx), *final(parse_ctx)),
        res matches Ok((l, rest)) ==> {
            &&& tokens@[0].token_type is OpenParen
            &&& l.parameters@.len() == 1
            &&& l.shorthand_tokens matches Some(written) && written@ == tokens@.take(
                tokens@.len() - rest@.len(),
            )
        },
        shorthand_in_parens(tokens@) ==> (res matches Ok((_, rest)) && rest@ == tokens@.skip(4)),
    decreases tokens@.len(), 2int,
{
    let remaining_tokens = expect(tokens, TokenType::OpenParen)?;
    proof {
        if shorthand_in_parens(tokens@) {
            assert(remaining_tokens@ =~= tokens@.skip(1));
            assert(tokens@.skip(1).skip(3) =~= tokens@.skip(4));
        }
    }
    if remaining_tokens.len() == 0 {
        return fail(ParseError::UnexpectedEof(TokenType::CloseParen));
    }
    let (mut lambda, remaining_tokens) = match &remaining_tokens[0].token_type {
        TokenType::Operator(_) | TokenType::StuckOperator(_) | TokenType::Dot => {
            expand_shorthand_prefix_argument(remaining_tokens, parse_ctx)?
        },
        _ => expand_shorthand_suffix_argument(remaining_tokens, parse_ctx)?,
    };
    let consumed = tokens.len() - remaining_tokens.len();
    let written = vstd::slice::slice_subrange(tokens, 0, consumed);
    lambda.shorthand_tokens = Some(clone_tokens(written));
    Ok((lambda, remaining_tokens))
}

/// `(+2)`: the operand is missing before the operator. `tokens` follow the
/// opening parenthesis.
pub fn expand_shorthand_prefix_argument<'a>(
    tokens: &'a [Token],
    parse_ctx: &mut ParseCtx,
) -> (res: Result<(LambdaDecl, &'a [Token]), Diagnostics>)
    ensures
        ctx_same(*old(parse_ctx), *final(parse_ctx)),
        res matches Ok((l, rest)) ==> {
            &&& is_suffix(rest@, tokens@)
            &&& rest@.len() < tokens@.len()
            &&& l.parameters@.len() == 1
            &&& l.shorthand_tokens is None
        },
        prefix_shorthand(tokens@) ==> (res matches Ok((l, rest)) && rest@ == tokens@.skip(3)
            && exists|e: Expression| #[trigger] body_is(l, e) && param_on_left(
                e,
                tokens@[0].token_type,
                tokens@[1].token_type,
            )),
    decreases tokens@.len() + 1, 1int,
{
    if tokens.len() == 0 {
        return fail(ParseError::UnexpectedEof(TokenType::CloseParen));
    }
    let span = tokens[0].span.clone();
    let (inner_tokens, remaining_tokens) = consume_tokens_until(tokens, TokenType::CloseParen);
    proof {
        if prefix_shorthand(tokens@) {
            let k = inner_tokens@.len() as int;
            if k > 2 {
                assert(inner_tokens@[2] == tokens@[2]);
            }
            if k < 2 {
                assert(remaining_tokens@[0] == tokens@[k]);
            }
            assert(k == 2);
        }
    }
    if remaining_tokens.len() == 0 {
        return fail(ParseError::UnexpectedEof(TokenType::CloseParen));
    }
    let mut body_tokens: Vec<Token> = Vec::new();
    body_tokens.push(shorthand_argument(&span));
    let mut i: usize = 0;
    while i < inner_tokens.len()
        invariant
            i <= inner_tokens@.len(),
            body_tokens@.len() == i + 1,
            body_tokens@[0].token_type matches TokenType::Ident(name) && name@ == seq!['x'],
            forall|k: int|
                0 <= k < i ==> unstuck_type(
                    #[trigger] inner_tokens@[k].token_type,
                    body_tokens@[k + 1].token_type,
                ),
        decreases inner_tokens@.len() - i,
    {
        body_tokens.push(unstick(&inner_tokens[i]));
        i = i + 1;
    }
    proof {
        if prefix_shorthand(tokens@) {
            let body = body_tokens@;
            assert(unstuck_type(inner_tokens@[0].token_type, body[1].token_type));
            assert(unstuck_type(inner_tokens@[1].token_type, body[2].token_type));
            assert(inner_tokens@[0] == tokens@[0] && inner_tokens@[1] == tokens@[1]);
            assert(body.skip(1).skip(1) =~= body.skip(2));
            assert(body.skip(2).skip(1) =~= body.skip(3));
            assert(simple_binop(body));
        }
    }
    let (body, other_remaining_tokens) = Block::parse(body_tokens.as_slice(), parse_ctx)?;
    if other_remaining_tokens.len() > 0 {
        return fail(
            ParseError::UnexpectedToken(
                other_remaining_tokens[0].clone(),
                vec![TokenType::CloseParen],
            ),
        );
    }
    let remaining_tokens = expect(remaining_tokens, TokenType::CloseParen)?;
    let mut parameters: Vec<Pattern> = Vec::new();
    parameters.push(shorthand_parameter(&span));
    let lambda = LambdaDecl { parameters, body, shorthand_tokens: None };
    proof {
        if prefix_shorthand(tokens@) {
            let e = lambda.body.statements@[0]->Expression_0;
            assert(body_is(lambda, e));
            assert(param_on_left(e, tokens@[0].token_type, tokens@[1].token_type));
        }
    }
    Ok((lambda, remaining_tokens))
}

/// `(a/)`: the operand is missing after the operator. `tokens` follow the
/// opening parenthesis.
pub fn expand_shorthand_suffix_argument<'a>(
    tokens: &'a [Token],
    parse_ctx: &mut ParseCtx,
) -> (res: Result<(LambdaDecl, &'a [Token]), Diagnostics>)
    ensures
        ctx_same(*old(parse_ctx), *final(parse_ctx)),
        res matches Ok((l, rest)) ==> {
            &&& is_suffix(rest@, tokens@)
            &&& rest@.len() < tokens@.len()
            &&& l.parameters@.len() == 1
            &&& l.shorthand_tokens is None
        },
        suffix_shorthand(tokens@) ==> (res matches Ok((l, rest)) && rest@ == tokens@.skip(3)
            && exists|e: Expression| #[trigger] body_is(l, e) && param_on_right(
                e,
                tokens@[0].token_type,
                tokens@[1].token_type,
            )),
    decreases tokens@.len() + 1, 1int,
{
    if tokens.len() == 0 {
        return fail(ParseError::UnexpectedEof(TokenType::CloseParen));
    }
    let span = tokens[0].span.clone();
    let (inner_tokens, remaining_tokens) = consume_tokens_until(tokens, TokenType::CloseParen);
    proof {
        if suffix_shorthand(tokens@) {
            let k = inner_tokens@.len() as int;
            if k > 2 {
                assert(inner_tokens@[2] == tokens@[2]);
            }
            if k < 2 {
                assert(remaining_tokens@[0] == tokens@[k]);
            }
            assert(k == 2);
        }
    }
    if inner_tokens.len() == 0 {
        return fail(ParseError::UnexpectedToken(tokens[0].clone(), vec![TokenType::Operator(String::new())]));
    }
    let last = inner_tokens.len() - 1;
    let operator = inner_tokens[last].clone();
    let is_operator = match &operator.token_type {
        TokenType::Operator(_) | TokenType::StuckOperator(_) => true,
        _ => false,
    };
    if !is_operator {
        return fail(ParseError::UnexpectedToken(operator, vec![TokenType::Operator(String::new())]));
    }
    if remaining_tokens.len() == 0 {
        return fail(ParseError::UnexpectedEof(TokenType::CloseParen));
    }
    let mut body_tokens: Vec<Token> = Vec::new();
    let mut i: usize = 0;
    while i < last
        invariant
            last < inner_tokens@.len(),
            i <= last,
            body_tokens@.len() == i,
            forall|k: int|
                0 <= k < i ==> unstuck_type(
                    #[trigger] inner_tokens@[k].token_type,
                    body_tokens@[k].token_type,
                ),
        decreases last - i,
    {
        body_tokens.push(unstick(&inner_tokens[i]));
        i = i + 1;
    }
    body_tokens.push(operator);
    body_tokens.push(shorthand_argument(&span));
    proof {
        if suffix_shorthand(tokens@) {
            let body = body_tokens@;
            assert(unstuck_type(inner_tokens@[0].token_type, body[0].token_type));
            assert(inner_tokens@[0] == tokens@[0] && inner_tokens@[1] == tokens@[1]);
            assert(body.skip(1).skip(1) =~= body.skip(2));
            assert(body.skip(2).skip(1) =~= body.skip(3));
            assert(simple_binop(body));
        }
    }
    let (body, other_remaining_tokens) = Block::parse(body_tokens.as_slice(), parse_ctx)?;
    if other_remaining_tokens.len() > 0 {
        return fail(
            ParseError::UnexpectedToken(
                other_remaining_tokens[0].clone(),
                vec![TokenType::CloseParen],
            ),
        );
    }
    let remaining_tokens = expect(remaining_tokens, TokenType::CloseParen)?;
    let mut parameters: Vec<Pattern> = Vec::new();
    parameters.push(shorthand_parameter(&span));
    let lambda = LambdaDecl { parameters, body, shorthand_tokens: None };
    proof {
        if suffix_shorthand(tokens@) {
            let e = lambda.body.statements@[0]->Expression_0;
            assert(body_is(lambda, e));
            assert(param_on_right(e, tokens@[0].token_type, tokens@[1].token_type));
        }
    }
    Ok((lambda, remaining_tokens))
}

impl FunctionSig {
    /// `name : type`, then the end of the line.
    pub fn parse<'a>(tokens: &'a [Token], parse_ctx: &mut ParseCtx) -> (res: Result<
        (Self, &'a [Token]),
        Diagnostics,
    >)
        ensures
            parse_post(tokens@, *old(parse_ctx), *final(parse_ctx), res),
            ctx_same(*old(parse_ctx), *final(parse_ctx)),
            res matches Ok((s, _)) ==> Some(s.name.name@) == ident_name(tokens@[0].token_type),
            name_colon_type(tokens@, 0) && tokens@.len() > 3 && tokens@[3].token_type is Eol ==> (res matches Ok(
                (s, rest),
            ) && is_named_type(s.sig, tokens@[2].token_type) && rest@ == tokens@.skip(4)),
    {
        let (name, remaining_tokens) = Ident::parse(tokens, parse_ctx)?;
        let remaining_tokens = expect(remaining_tokens, TokenType::Colon)?;
        assert(remaining_tokens@ =~= tokens@.skip(2));
        let (sig, remaining_tokens) = ParseType::parse(remaining_tokens, parse_ctx)?;
        proof {
            if tokens@.len() > 3 && tokens@[2].token_type is Type && tokens@[3].token_type is Eol {
                assert(lone_type_name(tokens@.skip(2)));
                assert(remaining_tokens@ =~= tokens@.skip(3));
            }
        }
        let remaining_tokens = expect(remaining_tokens, TokenType::Eol)?;
        Ok((FunctionSig { name, sig }, remaining_tokens))
    }
}

} // verus!
