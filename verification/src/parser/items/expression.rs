use vstd::prelude::*;

use crate::ast::{
    Argument, Block, Expression, Ident, IdentOrNumber, IdentOrType, IdentifierPath, If, Instance,
    LambdaDecl, Literal, Loop, Match, Number, Operand, Operator, ParseType, PrimaryExpr,
    SecondaryExpr, Tuple, UnaryExpr,
};
use crate::lexer::chars::text_is;
use crate::parser::items::conditional::{one_line_if, one_line_if_of};
use crate::parser::items::instance::{inline_instance, instance_written, literal_fields};
use crate::lexer::{Token, TokenType};
use crate::parser::items::ident::ident_name;
use crate::parser::items::literal::{all_digits, decimal_value, parse_u64, token_literal};
use crate::parser::parsable::{
    is_suffix, lemma_skip_suffix_auto, lemma_suffix_refl, lemma_suffix_trans_auto, parse_post,
    skip, starts_with_kw, starts_with_keyword,
};
use crate::parser::parse_ctx::{ctx_same, ParseCtx};
use crate::parser::util::{
    continues_with, count_after, count_from, first_given, leaves, one_item, list_may, list_may_after, may_fail, may_give,
    expect, fail, look_ahead, parse_indented_vec_with, parse_vec_with, two_items, Diagnostics,
    ParseError,
};

verus! {

broadcast use {lemma_suffix_trans_auto, lemma_skip_suffix_auto};

/// The indentation of a line one step deeper than the current block, if it
/// can be written.
pub fn deeper_indent(parse_ctx: &ParseCtx) -> (res: Option<u8>)
    ensures
        res matches Some(d) ==> d == parse_ctx.level() + parse_ctx.indent_step,
        res is None ==> parse_ctx.level() + parse_ctx.indent_step > u8::MAX,
{
    parse_ctx.indent_level.checked_add(parse_ctx.indent_step)
}

/// The token is the operator `!`, spaced or stuck.
pub open spec fn is_bang(t: TokenType) -> bool {
    match t {
        TokenType::Operator(op) => op@ == "!"@,
        TokenType::StuckOperator(op) => op@ == "!"@,
        _ => false,
    }
}

impl Operator {
    /// An operator token, spaced or stuck to its operand.
    pub fn parse<'a>(tokens: &'a [Token]) -> (res: Result<(Self, &'a [Token]), Diagnostics>)
        ensures
            res matches Err(d) ==> d.errors@.len() > 0,
            res is Ok <==> tokens@.len() > 0 && (tokens@[0].token_type is Operator
                || tokens@[0].token_type is StuckOperator),
            res matches Ok((op, rest)) ==> {
                &&& rest@ == tokens@.skip(1)
                &&& is_suffix(rest@, tokens@)
                &&& match tokens@[0].token_type {
                    TokenType::Operator(v) => op.value@ == v@,
                    TokenType::StuckOperator(v) => op.value@ == v@,
                    _ => false,
                }
            },
    {
        if tokens.len() == 0 {
            return fail(ParseError::UnexpectedEof(TokenType::Operator(String::new())));
        }
        let token = &tokens[0];
        match &token.token_type {
            TokenType::Operator(value) => Ok(
                (Operator { value: value.clone(), span: token.span.clone() }, skip(tokens, 1)),
            ),
            TokenType::StuckOperator(value) => Ok(
                (Operator { value: value.clone(), span: token.span.clone() }, skip(tokens, 1)),
            ),
            _ => fail(
                ParseError::UnexpectedToken(token.clone(), vec![TokenType::Operator(String::new())]),
            ),
        }
    }
}

impl Number {
    /// A number token, kept as written.
    pub fn parse<'a>(tokens: &'a [Token]) -> (res: Result<(Self, &'a [Token]), Diagnostics>)
        ensures
            res is Ok <==> tokens@.len() > 0 && tokens@[0].token_type is Number,
            res matches Ok((n, rest)) ==> rest@ == tokens@.skip(1) && n.value@
                == tokens@[0].token_type->Number_0@,
    {
        if tokens.len() == 0 {
            return fail(ParseError::UnexpectedEof(TokenType::Number(String::new())));
        }
        let token = &tokens[0];
        match &token.token_type {
            TokenType::Number(value) => Ok(
                (Number { value: value.clone(), span: token.span.clone() }, skip(tokens, 1)),
            ),
            _ => fail(
                ParseError::UnexpectedToken(token.clone(), vec![TokenType::Number(String::new())]),
            ),
        }
    }
}

impl IdentOrNumber {
    /// A field name, or the index of a tuple element.
    pub fn parse<'a>(tokens: &'a [Token]) -> (res: Result<(Self, &'a [Token]), Diagnostics>)
        ensures
            res matches Err(d) ==> d.errors@.len() > 0,
            res matches Ok((v, rest)) ==> rest@ == tokens@.skip(1) && tokens@.len() > 0 && match v {
                IdentOrNumber::Ident(ident) => Some(ident.name@) == ident_name(
                    tokens@[0].token_type,
                ),
                IdentOrNumber::Number(n) => tokens@[0].token_type matches TokenType::Number(t)
                    && n == decimal_value(t@),
            },
            tokens@.len() > 0 && ident_name(tokens@[0].token_type) is Some ==> res is Ok,
    {
        if tokens.len() == 0 {
            return fail(ParseError::UnexpectedEof(TokenType::Ident(String::new())));
        }
        let token = &tokens[0];
        match &token.token_type {
            TokenType::Ident(name) => Ok(
                (
                    IdentOrNumber::Ident(Ident { name: name.clone(), span: token.span.clone() }),
                    skip(tokens, 1),
                ),
            ),
            TokenType::Operator(name) => Ok(
                (
                    IdentOrNumber::Ident(Ident { name: name.clone(), span: token.span.clone() }),
                    skip(tokens, 1),
                ),
            ),
            TokenType::Number(value) => match parse_u64(value.as_str()) {
                Some(n) => Ok((IdentOrNumber::Number(n), skip(tokens, 1))),
                None => fail(ParseError::InvalidNumber(token.clone())),
            },
            _ => fail(
                ParseError::UnexpectedToken(token.clone(), vec![TokenType::Ident(String::new())]),
            ),
        }
    }
}

impl Expression {
    /// A unary expression, followed by an operator and another expression
    /// when there is one: operators associate to the right.
    pub fn parse<'a>(tokens: &'a [Token], parse_ctx: &mut ParseCtx) -> (res: Result<
        (Self, &'a [Token]),
        Diagnostics,
    >)
        ensures
            parse_post(tokens@, *old(parse_ctx), *final(parse_ctx), res),
            ctx_same(*old(parse_ctx), *final(parse_ctx)),
            res matches Ok((_, rest)) ==> !(rest@.len() > 0 && rest@[0].token_type is Operator),
            cannot_start_operand(tokens@) ==> res is Err,
            lone_literal(tokens@) ==> (res matches Ok((e, rest)) && literal_expr(e, tokens@[0].token_type)
                && rest@ == tokens@.skip(1)),
            old(parse_ctx).disallowed_multiline_fn_call && head_literal(tokens@) ==> (res matches Ok(
                (Expression::UnaryExpr(UnaryExpr::PrimaryExpr(p)), rest),
            ) && p.operand is Literal && rest@ == tokens@.skip(1)),
            simple_operand(tokens@) && ends_expression(tokens@.skip(1)) ==> (res matches Ok((e, rest))
                && simple_expr(e, tokens@[0].token_type) && rest@ == tokens@.skip(1)),
            simple_binop(tokens@) ==> (res matches Ok((e, rest)) && binop_of(e, tokens@) && rest@
                == tokens@.skip(3)),
            forall|n: nat|
                #![trigger operand_chain(tokens@, n)]
                operand_chain(tokens@, n) ==> (res matches Ok((e, rest)) && chain_expr(e, tokens@, n)
                    && rest@ == tokens@.skip(2 * n as int + 1)),
        decreases tokens@.len(), 8int,
    {
        let (unary_expr, remaining_tokens) = UnaryExpr::parse(tokens, parse_ctx)?;
        if remaining_tokens.len() == 0 {
            return Ok((Expression::UnaryExpr(unary_expr), remaining_tokens));
        }
        match &remaining_tokens[0].token_type {
            TokenType::Operator(_) => {
                proof {
                    if simple_binop(tokens@) {
                        assert(remaining_tokens@.skip(1) =~= tokens@.skip(2));
                        assert(tokens@.skip(2).skip(1) =~= tokens@.skip(3));
                    }
                }
                let ghost after_unary = remaining_tokens;
                let (operator, remaining_tokens) = Operator::parse(remaining_tokens)?;
                let ghost after_operator = remaining_tokens;
                proof {
                    assert forall|n: nat| #[trigger] operand_chain(tokens@, n) implies n > 0
                        && operand_chain(after_operator@, (n - 1) as nat) && tokens@.len() > 2 * n by {
                        lemma_operand_chain_len(tokens@, n);
                        assert(after_unary@ == tokens@.skip(1));
                        assert(tokens@.skip(1)[0] == tokens@[1]);
                        if n > 0 {
                            assert(after_operator@ =~= tokens@.skip(2));
                        }
                    }
                }
                let (expression, remaining_tokens) = Expression::parse(
                    remaining_tokens,
                    parse_ctx,
                )?;
                proof {
                    assert forall|n: nat| #[trigger] operand_chain(tokens@, n) implies chain_expr(
                        Expression::BinopExpr(unary_expr, operator, Box::new(expression)),
                        tokens@,
                        n,
                    ) && remaining_tokens@ == tokens@.skip(2 * n as int + 1) by {
                        assert(after_operator@ =~= tokens@.skip(2));
                        assert(tokens@.skip(2).skip(2 * (n - 1) as int + 1) =~= tokens@.skip(
                            2 * n as int + 1,
                        ));
                    }
                }
                Ok(
                    (
                        Expression::BinopExpr(unary_expr, operator, Box::new(expression)),
                        remaining_tokens,
                    ),
                )
            },
            _ => Ok((Expression::UnaryExpr(unary_expr), remaining_tokens)),
        }
    }
}

impl UnaryExpr {
    /// An operator stuck to a unary expression, or a primary expression.
    pub fn parse<'a>(tokens: &'a [Token], parse_ctx: &mut ParseCtx) -> (res: Result<
        (Self, &'a [Token]),
        Diagnostics,
    >)
        ensures
            parse_post(tokens@, *old(parse_ctx), *final(parse_ctx), res),
            ctx_same(*old(parse_ctx), *final(parse_ctx)),
            res matches Ok((u, _)) ==> (u is UnaryExpr <==> tokens@[0].token_type is StuckOperator),
            cannot_start_operand(tokens@) ==> res is Err,
            lone_literal(tokens@) ==> (res matches Ok((UnaryExpr::PrimaryExpr(p), rest))
                && p.operand matches Operand::Literal(l) && token_literal(tokens@[0].token_type, l.kind)
                && rest@ == tokens@.skip(1)),
            simple_operand(tokens@) ==> (res matches Ok((UnaryExpr::PrimaryExpr(p), rest))
                && operand_of(p.operand, tokens@[0].token_type) && rest@ == tokens@.skip(1)),
            old(parse_ctx).disallowed_multiline_fn_call && head_literal(tokens@) ==> (res matches Ok(
                (UnaryExpr::PrimaryExpr(p), rest),
            ) && p.operand is Literal && rest@ == tokens@.skip(1)),
        decreases tokens@.len(), 7int,
    {
        if tokens.len() == 0 {
            return fail(ParseError::UnexpectedEof(TokenType::Operator(String::new())));
        }
        match &tokens[0].token_type {
            TokenType::StuckOperator(_) => {
                let (operator, remaining_tokens) = Operator::parse(tokens)?;
                let (unary_expr, remaining_tokens) = UnaryExpr::parse(remaining_tokens, parse_ctx)?;
                Ok((UnaryExpr::UnaryExpr(operator, Box::new(unary_expr)), remaining_tokens))
            },
            _ => {
                let (primary_expr, remaining_tokens) = PrimaryExpr::parse(tokens, parse_ctx)?;
                Ok((UnaryExpr::PrimaryExpr(primary_expr), remaining_tokens))
            },
        }
    }
}

impl PrimaryExpr {
    /// An operand, the secondaries that follow it (calls, indexing, field
    /// accesses), and a type annotation after a colon.
    pub fn parse<'a>(tokens: &'a [Token], parse_ctx: &mut ParseCtx) -> (res: Result<
        (Self, &'a [Token]),
        Diagnostics,
    >)
        ensures
            parse_post(tokens@, *old(parse_ctx), *final(parse_ctx), res),
            ctx_same(*old(parse_ctx), *final(parse_ctx)),
            res matches Ok((p, _)) ==> (p.secondaries matches Some(s) ==> s@.len() > 0),
            cannot_start_operand(tokens@) ==> res is Err,
            lone_literal(tokens@) ==> (res matches Ok((p, rest)) && p.operand matches Operand::Literal(l)
                && token_literal(tokens@[0].token_type, l.kind)
                && p.secondaries is None && p.type_annotation is None && rest@ == tokens@.skip(1)),
            simple_operand(tokens@) ==> (res matches Ok((p, rest)) && p.secondaries is None
                && p.type_annotation is None && operand_of(p.operand, tokens@[0].token_type) && rest@
                == tokens@.skip(1)),
            old(parse_ctx).disallowed_multiline_fn_call && head_literal(tokens@) ==> (res matches Ok(
                (p, rest),
            ) && p.operand is Literal && p.secondaries is None && p.type_annotation is None && rest@
                == tokens@.skip(1)),
        decreases tokens@.len(), 6int,
    {
        let (operand, remaining_tokens) = Operand::parse(tokens, parse_ctx)?;
        let mut primary_expr = PrimaryExpr { operand, secondaries: None, type_annotation: None };
        if remaining_tokens.len() == 0 {
            return Ok((primary_expr, remaining_tokens));
        }
        let parse_item = |t: &'a [Token], c: &mut ParseCtx| -> (r: Result<
            (SecondaryExpr, &'a [Token]),
            Diagnostics,
        >)
            requires
                is_suffix(t@, remaining_tokens@),
            ensures
                parse_post(t@, *old(c), *final(c), r),
                ctx_same(*old(c), *final(c)),
                ends_operand(t@) ==> r is Err,
                old(c).disallowed_multiline_fn_call && t@.len() > 0 && t@[0].token_type is Eol && !(
                t@.len() > 2 && (t@[2].token_type is Dot || t@[2].token_type is DoubleDot)) ==> r is Err,
            { SecondaryExpr::parse(t, c) };
        let (secondaries, mut remaining_tokens_after_secondaries, _diags) = parse_vec_with(
            remaining_tokens,
            None,
            parse_ctx,
            parse_item,
        );
        // a literal cannot be called
        if let Operand::Literal(_) = &primary_expr.operand {
            if secondaries.len() > 0 {
                if let SecondaryExpr::Arguments(_) = &secondaries[0] {
                    return Ok((primary_expr, remaining_tokens));
                }
            }
        }
        if secondaries.len() > 0 {
            primary_expr.secondaries = Some(secondaries);
        }
        if remaining_tokens_after_secondaries.len() > 0
            && remaining_tokens_after_secondaries[0].token_type.same_as(&TokenType::Colon) {
            let (type_annotation, remaining_tokens) = ParseType::parse(
                skip(remaining_tokens_after_secondaries, 1),
                parse_ctx,
            )?;
            primary_expr.type_annotation = Some(type_annotation);
            remaining_tokens_after_secondaries = remaining_tokens;
        }
        Ok((primary_expr, remaining_tokens_after_secondaries))
    }
}

/// Nothing in `tokens` can go on an expression: they end, or start with the
/// end of file, a closing parenthesis, a closing bracket, a coma that no
/// arrow follows, or the keyword `then` or `else`.
pub open spec fn ends_expression(tokens: Seq<Token>) -> bool {
    ||| tokens.len() == 0
    ||| tokens[0].token_type is Eof
    ||| tokens[0].token_type is CloseParen
    ||| tokens[0].token_type is CloseBracket
    ||| tokens[0].token_type is Coma && !(tokens.len() > 1 && tokens[1].token_type is Arrow)
    ||| tokens[0].token_type is Keyword && tokens[0].token_type->Keyword_0@ == "then"@
    ||| tokens[0].token_type is Keyword && tokens[0].token_type->Keyword_0@ == "else"@
}

/// Nothing in `tokens` can go on an operand: they end an expression, or
/// start with a binary operator (other than `!`, which calls).
pub open spec fn ends_operand(tokens: Seq<Token>) -> bool {
    ||| ends_expression(tokens)
    ||| tokens.len() > 0 && tokens[0].token_type is Operator && tokens[0].token_type->Operator_0@
        != "!"@ && !(tokens.len() > 1 && tokens[1].token_type is Arobase)
}

/// No operand starts `tokens`: nothing goes on an operand there, or a line
/// ends.
pub open spec fn cannot_start_operand(tokens: Seq<Token>) -> bool {
    ends_operand(tokens) || (tokens.len() > 0 && tokens[0].token_type is Eol)
}

/// A literal or a name, which nothing after it continues as an operand (a
/// name followed by a coma could start a function).
pub open spec fn simple_operand(tokens: Seq<Token>) -> bool {
    &&& tokens.len() > 0
    &&& ends_operand(tokens.skip(1))
    &&& literal_token(tokens[0].token_type) || (tokens[0].token_type is Ident && !(tokens.len() > 1
        && tokens[1].token_type is Coma))
}

/// A literal at the end of its line, where the next line does not go on
/// with a field access or a `..` call.
pub open spec fn head_literal(tokens: Seq<Token>) -> bool {
    &&& tokens.len() > 1
    &&& literal_token(tokens[0].token_type)
    &&& tokens[1].token_type is Eol
    &&& !(tokens.len() > 3 && (tokens[3].token_type is Dot || tokens[3].token_type is DoubleDot))
}

/// Two simple operands joined by an operator, and nothing after them that
/// goes on an expression.
pub open spec fn simple_binop(tokens: Seq<Token>) -> bool {
    &&& tokens.len() > 2
    &&& simple_operand(tokens)
    &&& tokens[1].token_type is Operator
    &&& simple_operand(tokens.skip(2))
    &&& ends_expression(tokens.skip(3))
}

/// `tokens` starts with `n + 1` single-token operands with a binary
/// operator between each two of them, and nothing after the last operand
/// goes on the expression.
pub open spec fn operand_chain(tokens: Seq<Token>, n: nat) -> bool
    decreases n,
{
    &&& simple_operand(tokens)
    &&& if n == 0 {
        ends_expression(tokens.skip(1))
    } else {
        tokens.len() > 2 && tokens[1].token_type is Operator && operand_chain(
            tokens.skip(2),
            (n - 1) as nat,
        )
    }
}

/// A chain of `n` operators holds at least `2 * n + 1` tokens.
pub proof fn lemma_operand_chain_len(tokens: Seq<Token>, n: nat)
    requires
        operand_chain(tokens, n),
    ensures
        tokens.len() > 2 * n,
    decreases n,
{
    if n > 0 {
        lemma_operand_chain_len(tokens.skip(2), (n - 1) as nat);
    }
}

/// `e` is what the `n` operators of the chain at the start of `tokens`
/// make, grouped to the right: the first operator, with the operand
/// written before it on its left and what the rest of the chain makes on
/// its right.
pub open spec fn chain_expr(e: Expression, tokens: Seq<Token>, n: nat) -> bool
    decreases n,
{
    if n == 0 {
        simple_expr(e, tokens[0].token_type)
    } else {
        &&& e matches Expression::BinopExpr(UnaryExpr::PrimaryExpr(p), op, right)
        &&& operand_of(p.operand, tokens[0].token_type)
        &&& tokens[1].token_type matches TokenType::Operator(o) && op.value@ == o@
        &&& chain_expr(*right, tokens.skip(2), (n - 1) as nat)
    }
}

/// What stands `i` levels down the right side of `e`: `e` itself at level
/// 0, then the right operand of each operation in turn.
pub open spec fn right_at(e: Expression, i: nat) -> Expression
    decreases i,
{
    if i == 0 {
        e
    } else {
        match e {
            Expression::BinopExpr(_, _, right) => right_at(*right, (i - 1) as nat),
            _ => e,
        }
    }
}

/// In an expression read from `x0 op1 x1 op2 ... opn xn`, each operator
/// stays between the operands it was written between, and operations group
/// to the right: level `i` is the operation of `op(i+1)`, with `xi` on its
/// left, and the last level is `xn` alone.
pub proof fn law_chain_operators_in_place(tokens: Seq<Token>, n: nat, e: Expression)
    requires
        operand_chain(tokens, n),
        chain_expr(e, tokens, n),
    ensures
        forall|i: nat|
            i < n ==> ((#[trigger] right_at(e, i)) matches Expression::BinopExpr(
                UnaryExpr::PrimaryExpr(p),
                op,
                _,
            ) && operand_of(p.operand, tokens[2 * i as int].token_type) && (tokens[2 * i as int
                + 1].token_type matches TokenType::Operator(o) && op.value@ == o@)),
        simple_expr(right_at(e, n), tokens[2 * n as int].token_type),
    decreases n,
{
    lemma_operand_chain_len(tokens, n);
    if n > 0 {
        let right = match e {
            Expression::BinopExpr(_, _, r) => *r,
            _ => e,
        };
        law_chain_operators_in_place(tokens.skip(2), (n - 1) as nat, right);
        assert(right_at(e, n) == right_at(right, (n - 1) as nat));
        assert(tokens.skip(2)[2 * (n - 1) as int] == tokens[2 * n as int]);
        assert forall|i: nat|
            i < n implies ((#[trigger] right_at(e, i)) matches Expression::BinopExpr(
                UnaryExpr::PrimaryExpr(p),
                op,
                _,
            ) && operand_of(p.operand, tokens[2 * i as int].token_type) && (tokens[2 * i as int
                + 1].token_type matches TokenType::Operator(o) && op.value@ == o@)) by {
            if i > 0 {
                assert(right_at(e, i) == right_at(right, (i - 1) as nat));
                assert(tokens.skip(2)[2 * (i - 1) as int] == tokens[2 * i as int]);
                assert(tokens.skip(2)[2 * (i - 1) as int + 1] == tokens[2 * i as int + 1]);
            }
        }
    }
}

/// A literal token that nothing after it continues.
pub open spec fn lone_literal(tokens: Seq<Token>) -> bool {
    tokens.len() > 0 && literal_token(tokens[0].token_type) && ends_expression(tokens.skip(1))
}

/// `o` is the operand that a token of type `t` stands for alone: the
/// literal it denotes, or the path that starts with its name.
pub open spec fn operand_of(o: Operand, t: TokenType) -> bool {
    if literal_token(t) {
        o matches Operand::Literal(l) && token_literal(t, l.kind)
    } else {
        o matches Operand::Ident(p) && p.path@.len() > 0 && (p.path@[0] matches IdentOrType::Ident(id)
            && Some(id.name@) == ident_name(t))
    }
}

/// `e` is the operand that a token of type `t` stands for, alone.
pub open spec fn simple_expr(e: Expression, t: TokenType) -> bool {
    e matches Expression::UnaryExpr(UnaryExpr::PrimaryExpr(p)) && operand_of(p.operand, t)
}

/// `e` is the operator of `tokens[1]` applied to the operands of
/// `tokens[0]`, on its left, and `tokens[2]`, on its right.
pub open spec fn binop_of(e: Expression, tokens: Seq<Token>) -> bool {
    e matches Expression::BinopExpr(UnaryExpr::PrimaryExpr(p), op, right) && operand_of(
        p.operand,
        tokens[0].token_type,
    ) && tokens[1].token_type is Operator && op.value@ == tokens[1].token_type->Operator_0@
        && simple_expr(*right, tokens[2].token_type)
}

/// `e` is the literal that the token of type `t` stands for, alone.
pub open spec fn literal_expr(e: Expression, t: TokenType) -> bool {
    e matches Expression::UnaryExpr(UnaryExpr::PrimaryExpr(p)) && p.operand matches Operand::Literal(
        l,
    ) && token_literal(t, l.kind)
}

/// One operand standing alone as the only argument: nothing after it goes
/// on an expression, and no coma follows it.
pub open spec fn lone_operand(tokens: Seq<Token>) -> bool {
    &&& simple_operand(tokens)
    &&& ends_expression(tokens.skip(1))
    &&& !(tokens.len() > 1 && tokens[1].token_type is Coma)
}

/// `[a]`: an operand alone in brackets.
pub open spec fn index_of_operand(tokens: Seq<Token>) -> bool {
    &&& tokens.len() > 2
    &&& tokens[0].token_type is OpenBracket
    &&& simple_operand(tokens.skip(1))
    &&& tokens[2].token_type is CloseBracket
}

/// `tokens` starts with `n` literals separated by comas, and no coma
/// follows the last of them.
pub open spec fn literal_args(tokens: Seq<Token>, n: nat) -> bool
    decreases n,
{
    &&& n > 0
    &&& lone_literal(tokens)
    &&& if n == 1 {
        !(tokens.len() > 1 && tokens[1].token_type is Coma)
    } else {
        tokens.len() > 2 && tokens[1].token_type is Coma && literal_args(tokens.skip(2), (n - 1) as nat)
    }
}

/// A list read with `f`, which reads a lone literal and leaves what follows
/// it, has `n` items on `n` literals separated by comas.
pub proof fn lemma_literal_args_count<'a, F: Fn(&'a [Token], &mut ParseCtx) -> Result<
    (Expression, &'a [Token]),
    Diagnostics,
>>(t: Seq<Token>, after: Seq<Token>, f: F, n: nat)
    requires
        literal_args(t, n),
        forall|ts: &'a [Token], c: &mut ParseCtx, r: Result<(Expression, &'a [Token]), Diagnostics>|
            #[trigger] f.ensures((ts, c), r) ==> (lone_literal(ts@) ==> (r matches Ok((_, rest))
                && rest@ == ts@.skip(1))),
    ensures
        count_from(t, after, Some(TokenType::Coma), f, n, t.skip(2 * n - 1)),
        t.len() >= 2 * n - 1,
    decreases n,
{
    assert(leaves(f, t, t.skip(1)));
    if n == 1 {
        assert(count_after(t.skip(1), Some(TokenType::Coma), f, 0, t.skip(1)));
    } else {
        lemma_literal_args_count(t.skip(2), t.skip(1), f, (n - 1) as nat);
        assert(t.skip(1).skip(1) =~= t.skip(2));
        assert(t.skip(2).skip(2 * (n - 1) - 1) =~= t.skip(2 * n - 1));
        assert(count_after(t.skip(1), Some(TokenType::Coma), f, (n - 1) as nat, t.skip(2 * n - 1)));
    }
}

/// A list that can be read with `f`, which reads a lone literal as itself,
/// on `n` literals separated by comas is those `n` literals, in order.
pub proof fn lemma_literal_args_items<'a, F: Fn(&'a [Token], &mut ParseCtx) -> Result<
    (Expression, &'a [Token]),
    Diagnostics,
>>(t: Seq<Token>, after: Seq<Token>, f: F, n: nat, items: Seq<Expression>, rest: Seq<Token>)
    requires
        literal_args(t, n),
        list_may(t, after, Some(TokenType::Coma), f, items, rest),
        forall|ts: &'a [Token], c: &mut ParseCtx, r: Result<(Expression, &'a [Token]), Diagnostics>|
            #[trigger] f.ensures((ts, c), r) ==> (lone_literal(ts@) ==> (r matches Ok((e, rr))
                && literal_expr(e, ts@[0].token_type) && rr@ == ts@.skip(1))),
    ensures
        items.len() == n,
        forall|i: int| 0 <= i < n ==> literal_expr(#[trigger] items[i], t[2 * i].token_type),
    decreases n,
{
    if may_fail(f, t) {
        let (ts, c, r) = choose|ts: &'a [Token], c: &mut ParseCtx, r: Result<(Expression, &'a [Token]), Diagnostics>|
            ts@ == t && #[trigger] f.ensures((ts, c), r) && r is Err;
        assert(f.ensures((ts, c), r));
    }
    assert(items.len() > 0);
    let r = choose|r: Seq<Token>|
        #[trigger] may_give(f, t, items[0], r) && list_may_after(
            r,
            Some(TokenType::Coma),
            f,
            items.drop_first(),
            rest,
        );
    let (ts, c, res) = choose|ts: &'a [Token], c: &mut ParseCtx, res: Result<(Expression, &'a [Token]), Diagnostics>|
        ts@ == t && #[trigger] f.ensures((ts, c), res) && (res matches Ok((x, rr)) && x == items[0]
            && rr@ == r);
    assert(f.ensures((ts, c), res));
    assert(literal_expr(items[0], t[0].token_type));
    assert(r == t.skip(1));
    if n == 1 {
        if r.len() > 0 {
            assert(r[0] == t[1]);
        }
        assert(!continues_with(r, TokenType::Coma));
        assert(items.drop_first().len() == 0);
    } else {
        assert(r[0] == t[1]);
        assert(continues_with(r, TokenType::Coma));
        assert(r.skip(1) =~= t.skip(2));
        lemma_literal_args_items(t.skip(2), r, f, (n - 1) as nat, items.drop_first(), rest);
        lemma_literal_args_count(t, after, f, n);
        assert forall|i: int| 0 <= i < n implies literal_expr(#[trigger] items[i], t[2 * i].token_type) by {
            if i > 0 {
                assert(items[i] == items.drop_first()[i - 1]);
                assert(t.skip(2)[2 * (i - 1)] == t[2 * i]);
            }
        }
    }
}

/// A token that is a literal on its own: a string, a character, a float, a
/// number that fits in 64 bits, `true` or `false`.
pub open spec fn literal_token(t: TokenType) -> bool {
    match t {
        TokenType::String(_) => true,
        TokenType::Char(_) => true,
        TokenType::Float(_) => true,
        TokenType::Number(v) => v@.len() > 0 && all_digits(v@) && decimal_value(v@) <= u64::MAX,
        TokenType::Keyword(k) => k@ == "true"@ || k@ == "false"@,
        _ => false,
    }
}

impl Operand {
    /// A conditional, a loop, a match, an unsafe block, a field of `self`, a
    /// path or a struct instance, a tuple, a lambda, an expression in
    /// parentheses, a literal, or a path.
    pub fn parse<'a>(tokens: &'a [Token], parse_ctx: &mut ParseCtx) -> (res: Result<
        (Self, &'a [Token]),
        Diagnostics,
    >)
        ensures
            parse_post(tokens@, *old(parse_ctx), *final(parse_ctx), res),
            ctx_same(*old(parse_ctx), *final(parse_ctx)),
            res matches Ok((o, _)) ==> {
                &&& starts_with_kw(tokens@, "if"@) ==> o is If
                &&& starts_with_kw(tokens@, "match"@) ==> o is Match
                &&& starts_with_kw(tokens@, "unsafe"@) ==> o is Unsafe
                &&& (starts_with_kw(tokens@, "for"@) || starts_with_kw(tokens@, "while"@)
                    || starts_with_kw(tokens@, "loop"@)) ==> o is Loop
                &&& tokens@[0].token_type is Arobase ==> o is SelfIdent
                &&& tokens@[0].token_type is Type ==> (o is Instance || o is Ident)
                &&& tokens@[0].token_type is OpenParen ==> (o is Tuple || o is LambdaDecl
                    || o is Expression)
                &&& o is If ==> starts_with_kw(tokens@, "if"@)
                &&& o is Match ==> starts_with_kw(tokens@, "match"@)
                &&& o is Unsafe ==> starts_with_kw(tokens@, "unsafe"@)
            },
            tokens@.len() > 0 && tokens@[0].token_type is Arobase ==> res matches Ok(
                (Operand::SelfIdent(_), _),
            ),
            tokens@.len() > 0 && tokens@[0].token_type is Ident ==> res is Ok,
            cannot_start_operand(tokens@) ==> res is Err,
            tokens@.len() > 0 && literal_token(tokens@[0].token_type) ==> (res matches Ok(
                (Operand::Literal(lit), rest),
            ) && token_literal(tokens@[0].token_type, lit.kind) && rest@ == tokens@.skip(1)),
            tokens@.len() > 0 && tokens@[0].token_type is Ident && !(tokens@.len() > 1 && (
            tokens@[1].token_type is Coma || tokens@[1].token_type is Arrow
                || tokens@[1].token_type is Arobase)) ==> (res matches Ok((Operand::Ident(p), _))
                && p.path@.len() > 0 && (p.path@[0] matches IdentOrType::Ident(id) && Some(id.name@)
                == ident_name(tokens@[0].token_type))),
            simple_operand(tokens@) ==> (res matches Ok((o, rest)) && (o is Literal || o is Ident)
                && operand_of(o, tokens@[0].token_type) && rest@ == tokens@.skip(1)),
            tokens@.len() > 0 && literal_token(tokens@[0].token_type) ==> *final(parse_ctx) == *old(
                parse_ctx,
            ),
            one_line_if(tokens@) ==> (res matches Ok((Operand::If(i), rest)) && i.else_ is None
                && one_line_if_of(*i, tokens@) && rest@ == tokens@.skip(6)),
            forall|n: nat|
                #![trigger literal_fields(tokens@.skip(1), n)]
                inline_instance(tokens@, n) ==> (res matches Ok((Operand::Instance(inst), rest))
                    && instance_written(inst, tokens@, n) && rest@ == tokens@.skip(4 * n as int)),
            pair_of_literals(tokens@) ==> (res matches Ok((Operand::Tuple(t), rest)) && t.elements@.len()
                == 2 && literal_expr(t.elements@[0], tokens@[1].token_type) && literal_expr(
                t.elements@[1],
                tokens@[3].token_type,
            ) && rest@ == tokens@.skip(5)),
        decreases tokens@.len(), 5int,
    {
        if tokens.len() == 0 {
            return fail(ParseError::UnexpectedEof(TokenType::Ident(String::new())));
        }
        proof {
            reveal_strlit("if");
            reveal_strlit("for");
            reveal_strlit("while");
            reveal_strlit("loop");
            reveal_strlit("match");
            reveal_strlit("unsafe");
            reveal_strlit("true");
            reveal_strlit("false");
            assert("true"@[0] != "loop"@[0] && "false"@[0] != "while"@[0] && "false"@[0]
                != "match"@[0]);
            reveal_strlit("then");
            assert("then"@.len() == 4 && "then"@[0] != "loop"@[0] && "then"@[1] != "true"@[1]);
            reveal_strlit("else");
            assert("else"@.len() == 4 && "else"@[0] != "loop"@[0] && "else"@[0] != "true"@[0]);
            assert("if"@.len() == 2 && "for"@.len() == 3 && "loop"@.len() == 4);
            assert("while"@.len() == 5 && "match"@.len() == 5 && "unsafe"@.len() == 6);
            assert("while"@[0] != "match"@[0]);
        }
        if starts_with_keyword(tokens, "if") {
            let (if_, remaining_tokens) = If::parse(tokens, parse_ctx)?;
            return Ok((Operand::If(Box::new(if_)), remaining_tokens));
        }
        if starts_with_keyword(tokens, "for") || starts_with_keyword(tokens, "while")
            || starts_with_keyword(tokens, "loop") {
            let (for_, remaining_tokens) = Loop::parse(tokens, parse_ctx)?;
            return Ok((Operand::Loop(Box::new(for_)), remaining_tokens));
        }
        if starts_with_keyword(tokens, "match") {
            let (match_, remaining_tokens) = Match::parse(tokens, parse_ctx)?;
            return Ok((Operand::Match(Box::new(match_)), remaining_tokens));
        }
        if starts_with_keyword(tokens, "unsafe") {
            let (block, remaining_tokens) = Block::parse(skip(tokens, 1), parse_ctx)?;
            return Ok((Operand::Unsafe(block), remaining_tokens));
        }
        if tokens[0].token_type.same_as(&TokenType::Arobase) {
            if let Ok((ident, remaining_tokens)) = Ident::parse(skip(tokens, 1), parse_ctx) {
                return Ok((Operand::SelfIdent(ident), remaining_tokens));
            }
            return Ok(
                (
                    Operand::SelfIdent(Ident { name: String::new(), span: tokens[0].span.clone() }),
                    skip(tokens, 1),
                ),
            );
        }
        if let TokenType::Type(_) = &tokens[0].token_type {
            proof {
                assert forall|n: nat| #[trigger] literal_fields(tokens@.skip(1), n) && inline_instance(
                    tokens@,
                    n,
                ) implies !(tokens@[1].token_type is DoubleColon) by {
                    assert(tokens@.skip(1)[0] == tokens@[1]);
                }
            }
            let (identifier_path, remaining_tokens) = IdentifierPath::parse(tokens, parse_ctx)?;
            let last = identifier_path.path.len() - 1;
            if let IdentOrType::Type(_) = &identifier_path.path[last] {
                if let Ok((instance, remaining_tokens)) = Instance::parse(tokens, parse_ctx) {
                    return Ok((Operand::Instance(instance), remaining_tokens));
                } else {
                    return fail(ParseError::ExpectedType(tokens[0].span.clone()));
                }
            } else {
                return Ok((Operand::Ident(identifier_path), remaining_tokens));
            }
        }
        if tokens[0].token_type.same_as(&TokenType::OpenParen) {
            // a tuple, else a lambda (a shorthand such as `(+2)`), else an
            // expression in parentheses
            proof {
                if pair_of_literals(tokens@) {
                    let t = tokens@;
                    assert(t.skip(1).skip(1) =~= t.skip(2));
                    assert(t.skip(1).skip(2) =~= t.skip(3));
                    assert(t.skip(3).skip(1) =~= t.skip(4));
                    assert(lone_literal(t.skip(1)));
                    assert(lone_literal(t.skip(3)));
                    assert(literal_args(t.skip(3), 1));
                    assert(literal_args(t.skip(1), 2));
                }
            }
            if let Ok((tuple, remaining_tokens)) = Tuple::parse(tokens, parse_ctx) {
                return Ok((Operand::Tuple(tuple), remaining_tokens));
            } else if let Ok((lambda, remaining_tokens)) = LambdaDecl::parse(tokens, parse_ctx) {
                return Ok((Operand::LambdaDecl(lambda), remaining_tokens));
            }
            let (expression, remaining_tokens) = Expression::parse(skip(tokens, 1), parse_ctx)?;
            parse_ctx.inside_argument_list = true;
            let remaining_tokens = expect(remaining_tokens, TokenType::CloseParen)?;
            return Ok((Operand::Expression(Box::new(expression)), remaining_tokens));
        }
        if let Ok((literal, remaining_tokens)) = Literal::parse(tokens, parse_ctx) {
            return Ok((Operand::Literal(literal), remaining_tokens));
        }
        if let Ok((lambda, remaining_tokens)) = LambdaDecl::parse(tokens, parse_ctx) {
            return Ok((Operand::LambdaDecl(lambda), remaining_tokens));
        }
        let token = &tokens[0];
        match &token.token_type {
            TokenType::Ident(_) => {
                let (identifier_path, remaining_tokens) = IdentifierPath::parse(tokens, parse_ctx)?;
                Ok((Operand::Ident(identifier_path), remaining_tokens))
            },
            _ => fail(
                ParseError::UnexpectedToken(
                    token.clone(),
                    vec![
                        TokenType::Ident(String::new()),
                        TokenType::MacroInvoc(String::new()),
                        TokenType::Number(String::new()),
                    ],
                ),
            ),
        }
    }
}

impl SecondaryExpr {
    /// What follows an operand: `!` (a call without arguments), `?`, an
    /// index in brackets, a field access (`.`, or a spaced or indented dot
    /// that closes the argument list around), a `..` call, or arguments.
    pub fn parse<'a>(tokens: &'a [Token], parse_ctx: &mut ParseCtx) -> (res: Result<
        (Self, &'a [Token]),
        Diagnostics,
    >)
        ensures
            parse_post(tokens@, *old(parse_ctx), *final(parse_ctx), res),
            ctx_same(*old(parse_ctx), *final(parse_ctx)),
            res matches Ok((s, rest)) ==> {
                &&& is_bang(tokens@[0].token_type) ==> (s matches SecondaryExpr::Arguments(a)
                    && a@.len() == 0) && rest@ == tokens@.skip(1)
                &&& tokens@[0].token_type is Interogation ==> s is Interogation && rest@
                    == tokens@.skip(1)
                &&& s matches SecondaryExpr::Arguments(args) ==> (args@.len() == 0 ==> is_bang(
                    tokens@[0].token_type,
                ))
                &&& tokens@[0].token_type is OpenBracket ==> s is Indice
                &&& tokens@[0].token_type is Dot ==> s is Dot && rest@ == tokens@.skip(2)
                &&& tokens@[0].token_type is SpacedDot ==> s is Dot && rest@ == tokens@.skip(2)
                &&& tokens@[0].token_type is DoubleDot ==> s is DoubleDot && rest@ == tokens@.skip(2)
                &&& s is Indice ==> tokens@[0].token_type is OpenBracket
            },
            tokens@.len() > 0 && (is_bang(tokens@[0].token_type) || tokens@[0].token_type
                is Interogation) ==> res is Ok,
            tokens@.len() > 1 && tokens@[0].token_type is Dot && ident_name(tokens@[1].token_type)
                is Some ==> (res matches Ok((SecondaryExpr::Dot(IdentOrNumber::Ident(field)), rest))
                && Some(field.name@) == ident_name(tokens@[1].token_type) && rest@ == tokens@.skip(2)),
            ends_operand(tokens@) ==> res is Err,
            lone_literal(tokens@) ==> (res matches Ok((SecondaryExpr::Arguments(args), _))
                && args@.len() > 0),
            old(parse_ctx).disallowed_multiline_fn_call && tokens@.len() > 0 && tokens@[0].token_type
                is Eol && !(tokens@.len() > 2 && (tokens@[2].token_type is Dot || tokens@[2].token_type
                is DoubleDot)) ==> res is Err,
        forall|n: nat|
            #[trigger] literal_args(tokens@, n) ==> (res matches Ok((SecondaryExpr::Arguments(args), rest))
                && args@.len() == n && rest@ == tokens@.skip(2 * n - 1) && forall|i: int|
                0 <= i < n ==> literal_expr(#[trigger] args@[i].arg, tokens@[2 * i].token_type)),
        lone_operand(tokens@) ==> (res matches Ok((SecondaryExpr::Arguments(args), rest))
            && args@.len() == 1 && simple_expr(args@[0].arg, tokens@[0].token_type) && rest@
            == tokens@.skip(1)),
        index_of_operand(tokens@) ==> (res matches Ok((SecondaryExpr::Indice(e), rest))
            && simple_expr(*e, tokens@[1].token_type) && rest@ == tokens@.skip(3)),
        decreases tokens@.len(), 10int,
    {
        if tokens.len() == 0 {
            return fail(ParseError::UnexpectedEof(TokenType::Operator(String::new())));
        }
        let token = &tokens[0];
        let bang = match &token.token_type {
            TokenType::Operator(op) => text_is(op.as_str(), "!"),
            TokenType::StuckOperator(op) => text_is(op.as_str(), "!"),
            _ => false,
        };
        if bang {
            return Ok((SecondaryExpr::Arguments(Vec::new()), skip(tokens, 1)));
        }
        if token.token_type.same_as(&TokenType::Interogation) {
            return Ok((SecondaryExpr::Interogation, skip(tokens, 1)));
        }
        let deeper = deeper_indent(parse_ctx);
        let indented_dot = match deeper {
            Some(d) => {
                let expected = vec![TokenType::Eol, TokenType::Indent(d), TokenType::Dot];
                look_ahead(tokens, expected.as_slice())
            },
            None => false,
        };
        if indented_dot {
            parse_ctx.argument_list_short_circuit()?;
            let (ident_or_number, remaining_tokens) = IdentOrNumber::parse(skip(tokens, 3))?;
            return Ok((SecondaryExpr::Dot(ident_or_number), remaining_tokens));
        }
        if token.token_type.same_as(&TokenType::OpenBracket) {
            let (expression, remaining_tokens) = Expression::parse(skip(tokens, 1), parse_ctx)?;
            let remaining_tokens = expect(remaining_tokens, TokenType::CloseBracket)?;
            return Ok((SecondaryExpr::Indice(Box::new(expression)), remaining_tokens));
        }
        if token.token_type.same_as(&TokenType::Dot) {
            let (ident_or_number, remaining_tokens) = IdentOrNumber::parse(skip(tokens, 1))?;
            return Ok((SecondaryExpr::Dot(ident_or_number), remaining_tokens));
        }
        if token.token_type.same_as(&TokenType::SpacedDot) {
            parse_ctx.argument_list_short_circuit()?;
            let (ident_or_number, remaining_tokens) = IdentOrNumber::parse(skip(tokens, 1))?;
            return Ok((SecondaryExpr::Dot(ident_or_number), remaining_tokens));
        }
        if token.token_type.same_as(&TokenType::DoubleDot) {
            parse_ctx.argument_list_short_circuit()?;
            let (ident, remaining_tokens) = Ident::parse(skip(tokens, 1), parse_ctx)?;
            return Ok((SecondaryExpr::DoubleDot(ident), remaining_tokens));
        }
        let indented_double_dot = match deeper {
            Some(d) => {
                let expected = vec![TokenType::Eol, TokenType::Indent(d), TokenType::DoubleDot];
                look_ahead(tokens, expected.as_slice())
            },
            None => false,
        };
        if indented_double_dot {
            parse_ctx.argument_list_short_circuit()?;
            let (ident, remaining_tokens) = Ident::parse(skip(tokens, 3), parse_ctx)?;
            return Ok((SecondaryExpr::DoubleDot(ident), remaining_tokens));
        }
        let parse_arguments = |c: &mut ParseCtx| -> (r: Result<
            (Vec<Expression>, &'a [Token]),
            Diagnostics,
        >)
            ensures
                ctx_same(*old(c), *final(c)),
                r matches Ok((args, rest)) ==> is_suffix(rest@, tokens@) && (args@.len() > 0
                    ==> rest@.len() < tokens@.len()),
                ends_operand(tokens@) ==> r is Err,
                lone_literal(tokens@) ==> (r matches Ok((args, _)) && args@.len() > 0),
                old(c).disallowed_multiline_fn_call && tokens@.len() > 0 && tokens@[0].token_type
                    is Eol ==> r is Err,
                forall|n: nat|
                    #[trigger] literal_args(tokens@, n) ==> (r matches Ok((args, rest))
                        && args@.len() == n && rest@ == tokens@.skip(2 * n - 1) && forall|i: int|
                        0 <= i < n ==> literal_expr(#[trigger] args@[i], tokens@[2 * i].token_type)),
                lone_operand(tokens@) ==> (r matches Ok((args, rest)) && args@.len() == 1 && simple_expr(
                    args@[0],
                    tokens@[0].token_type,
                ) && rest@ == tokens@.skip(1)),
            { parse_argument_list(tokens, c) };
        let (arguments, remaining_tokens) = parse_ctx.argument_list(parse_arguments)?;
        if arguments.len() == 0 {
            return fail(ParseError::UnexpectedToken(token.clone(), vec![TokenType::OpenParen]));
        }
        Ok((SecondaryExpr::Arguments(into_arguments(arguments)), remaining_tokens))
    }
}

/// Each expression as a call argument, in order.
pub fn into_arguments(args: Vec<Expression>) -> (res: Vec<Argument>)
    ensures
        res@.len() == args@.len(),
        forall|i: int| 0 <= i < args@.len() ==> #[trigger] res@[i].arg == args@[i],
{
    let ghost initial = args@;
    let mut args = args;
    let mut res: Vec<Argument> = Vec::new();
    while args.len() > 0
        invariant
            res@.len() + args@.len() == initial.len(),
            args@ == initial.skip(res@.len() as int),
            forall|i: int| 0 <= i < res@.len() ==> #[trigger] res@[i].arg == initial[i],
        decreases args@.len(),
    {
        let ghost n: int = res@.len() as int;
        let arg = args.remove(0);
        res.push(Argument { arg });
        assert(args@ =~= initial.skip(n + 1));
    }
    res
}

/// The arguments of a call: expressions separated by comas on the same line,
/// or one per line one step deeper (when calls over several lines are
/// allowed). An empty list consumes nothing.
pub fn parse_argument_list<'a>(tokens: &'a [Token], parse_ctx: &mut ParseCtx) -> (res: Result<
    (Vec<Expression>, &'a [Token]),
    Diagnostics,
>)
    ensures
        ctx_same(*old(parse_ctx), *final(parse_ctx)),
        res matches Ok((args, rest)) ==> {
            &&& is_suffix(rest@, tokens@)
            &&& args@.len() > 0 ==> rest@.len() < tokens@.len()
            &&& args@.len() == 0 ==> rest@ == tokens@
        },
        ends_operand(tokens@) ==> res is Err,
        lone_literal(tokens@) ==> (res matches Ok((args, _)) && args@.len() > 0),
        old(parse_ctx).disallowed_multiline_fn_call && tokens@.len() > 0 && tokens@[0].token_type
            is Eol ==> res is Err,
        forall|n: nat|
            #[trigger] literal_args(tokens@, n) ==> (res matches Ok((args, rest)) && args@.len() == n
                && rest@ == tokens@.skip(2 * n - 1) && forall|i: int|
                0 <= i < n ==> literal_expr(#[trigger] args@[i], tokens@[2 * i].token_type)),
        lone_operand(tokens@) ==> (res matches Ok((args, rest)) && args@.len() == 1 && simple_expr(
            args@[0],
            tokens@[0].token_type,
        ) && rest@ == tokens@.skip(1)),
    decreases tokens@.len(), 9int,
{
    let multiline = if parse_ctx.disallowed_multiline_fn_call {
        false
    } else {
        match deeper_indent(parse_ctx) {
            Some(d) => {
                let expected = vec![TokenType::Eol, TokenType::Indent(d)];
                look_ahead(tokens, expected.as_slice())
            },
            None => false,
        }
    };
    if multiline {
        let after_eol = skip(tokens, 1);
        let parse_item = |t: &'a [Token], c: &mut ParseCtx| -> (r: Result<
            (Expression, &'a [Token]),
            Diagnostics,
        >)
            requires
                is_suffix(t@, after_eol@),
            ensures
                parse_post(t@, *old(c), *final(c), r),
                ctx_same(*old(c), *final(c)),
            { Expression::parse(t, c) };
        let (args, remaining_tokens, _diags) = parse_indented_vec_with(
            after_eol,
            parse_ctx,
            true,
            parse_item,
        )?;
        if args.len() == 0 {
            proof {
                lemma_suffix_refl(tokens@);
            }
            return Ok((Vec::new(), tokens));
        }
        Ok((args, remaining_tokens))
    } else {
        let parse_items = |c: &mut ParseCtx| -> (r: Result<
            (Vec<Expression>, &'a [Token], Diagnostics),
            Diagnostics,
        >)
            ensures
                ctx_same(*old(c), *final(c)),
                r matches Ok((items, rest, _)) && {
                    &&& is_suffix(rest@, tokens@)
                    &&& items@.len() == 0 ==> rest@ == tokens@
                    &&& items@.len() > 0 ==> rest@.len() < tokens@.len()
                    &&& cannot_start_operand(tokens@) ==> items@.len() == 0
                    &&& lone_literal(tokens@) ==> items@.len() > 0
                },
                forall|n: nat|
                    #[trigger] literal_args(tokens@, n) ==> (r matches Ok((items, rest, _))
                        && items@.len() == n && rest@ == tokens@.skip(2 * n - 1) && forall|i: int|
                        0 <= i < n ==> literal_expr(#[trigger] items@[i], tokens@[2 * i].token_type)),
                lone_operand(tokens@) ==> (r matches Ok((items, rest, _)) && items@.len() == 1
                    && simple_expr(items@[0], tokens@[0].token_type) && rest@ == tokens@.skip(1)),
            {
                let parse_item = |t: &'a [Token], c2: &mut ParseCtx| -> (r2: Result<
                    (Expression, &'a [Token]),
                    Diagnostics,
                >)
                    requires
                        is_suffix(t@, tokens@),
                    ensures
                        parse_post(t@, *old(c2), *final(c2), r2),
                        ctx_same(*old(c2), *final(c2)),
                        cannot_start_operand(t@) ==> r2 is Err,
                        lone_literal(t@) ==> (r2 matches Ok((e, rest)) && literal_expr(e, t@[0].token_type)
                            && rest@ == t@.skip(1)),
                        simple_operand(t@) && ends_expression(t@.skip(1)) ==> (r2 matches Ok((e, rest))
                            && simple_expr(e, t@[0].token_type) && rest@ == t@.skip(1)),
                    { Expression::parse(t, c2) };
                proof {
                    if lone_operand(tokens@) {
                        if tokens@.len() > 1 {
                            assert(tokens@.skip(1)[0] == tokens@[1]);
                        }
                        assert(one_item(tokens, Some(TokenType::Coma), parse_item, tokens@.skip(1)));
                    }
                }
                proof {
                    assert forall|n: nat| #[trigger] literal_args(tokens@, n) implies count_from(
                        tokens@,
                        tokens@,
                        Some(TokenType::Coma),
                        parse_item,
                        n,
                        tokens@.skip(2 * n - 1),
                    ) by {
                        lemma_literal_args_count(tokens@, tokens@, parse_item, n);
                    }
                }
                let res = parse_vec_with(tokens, Some(TokenType::Coma), c, parse_item);
                proof {
                    if lone_operand(tokens@) {
                        assert(first_given(tokens, parse_item, res.0@[0]));
                    }
                    assert forall|n: nat| #[trigger] literal_args(tokens@, n) implies forall|i: int|
                        0 <= i < n ==> literal_expr(#[trigger] res.0@[i], tokens@[2 * i].token_type) by {
                        lemma_literal_args_items(tokens@, tokens@, parse_item, n, res.0@, res.1@);
                    }
                }
                Ok(res)
            };
        let (args, remaining_tokens, _diags) = parse_ctx.disallow_multiline_fn_call(parse_items)?;
        if args.len() == 0 {
            if tokens.len() == 0 {
                return fail(ParseError::UnexpectedEof(TokenType::CloseParen));
            }
            return fail(
                ParseError::UnexpectedToken(
                    tokens[0].clone(),
                    vec![TokenType::Coma, TokenType::CloseParen],
                ),
            );
        }
        Ok((args, remaining_tokens))
    }
}

/// Two literals in parentheses, separated by a coma.
pub open spec fn pair_of_literals(tokens: Seq<Token>) -> bool {
    &&& tokens.len() > 4
    &&& tokens[0].token_type is OpenParen
    &&& literal_token(tokens[1].token_type)
    &&& tokens[2].token_type is Coma
    &&& literal_token(tokens[3].token_type)
    &&& tokens[4].token_type is CloseParen
}

impl Tuple {
    /// At least two expressions in parentheses, separated by comas.
    pub fn parse<'a>(tokens: &'a [Token], parse_ctx: &mut ParseCtx) -> (res: Result<
        (Self, &'a [Token]),
        Diagnostics,
    >)
        ensures
            parse_post(tokens@, *old(parse_ctx), *final(parse_ctx), res),
            ctx_same(*old(parse_ctx), *final(parse_ctx)),
            res matches Ok((t, _)) ==> t.elements@.len() >= 2 && tokens@[0].token_type
                is OpenParen,
            pair_of_literals(tokens@) ==> (res matches Ok((t, rest)) && t.elements@.len() == 2
                && rest@ == tokens@.skip(5)),
            forall|n: nat|
                #![trigger literal_args(tokens@.skip(1), n)]
                n >= 2 && tokens@.len() > 2 * n && tokens@[0].token_type is OpenParen && literal_args(
                    tokens@.skip(1),
                    n,
                ) && tokens@[2 * n as int].token_type is CloseParen ==> (res matches Ok((t, rest))
                    && t.elements@.len() == n && rest@ == tokens@.skip(2 * n as int + 1)
                    && forall|i: int|
                    0 <= i < n ==> literal_expr(#[trigger] t.elements@[i], tokens@[2 * i + 1].token_type)),
        decreases tokens@.len(), 0int,
    {
        let remaining_tokens = expect(tokens, TokenType::OpenParen)?;
        let parse_item = |t: &'a [Token], c: &mut ParseCtx| -> (r: Result<
            (Expression, &'a [Token]),
            Diagnostics,
        >)
            requires
                is_suffix(t@, remaining_tokens@),
            ensures
                parse_post(t@, *old(c), *final(c), r),
                ctx_same(*old(c), *final(c)),
                lone_literal(t@) ==> (r matches Ok((e, rest)) && literal_expr(e, t@[0].token_type)
                    && rest@ == t@.skip(1)),
            { Expression::parse(t, c) };
        proof {
            if pair_of_literals(tokens@) {
                let mid = tokens@.skip(2);
                let end = tokens@.skip(4);
                assert(remaining_tokens@ =~= tokens@.skip(1));
                assert(remaining_tokens@.skip(1) =~= mid);
                assert(mid.skip(1) =~= tokens@.skip(3));
                assert(tokens@.skip(3).skip(1) =~= end);
                assert(lone_literal(remaining_tokens@));
                assert(lone_literal(tokens@.skip(3)));
                assert(two_items(remaining_tokens, Some(TokenType::Coma), parse_item, mid, end));
            }
            assert forall|n: nat|
                tokens@.len() > 0 && #[trigger] literal_args(tokens@.skip(1), n) implies count_from(
                remaining_tokens@,
                remaining_tokens@,
                Some(TokenType::Coma),
                parse_item,
                n,
                remaining_tokens@.skip(2 * n - 1),
            ) && remaining_tokens@.skip(2 * n - 1) =~= tokens@.skip(2 * n as int) by {
                assert(remaining_tokens@ =~= tokens@.skip(1));
                lemma_literal_args_count(remaining_tokens@, remaining_tokens@, parse_item, n);
            }
        }
        let (elements, remaining_tokens2, _diags) = parse_vec_with(
            remaining_tokens,
            Some(TokenType::Coma),
            parse_ctx,
            parse_item,
        );
        if elements.len() < 2 {
            if remaining_tokens2.len() == 0 {
                return fail(ParseError::UnexpectedEof(TokenType::CloseParen));
            }
            return fail(
                ParseError::UnexpectedToken(
                    remaining_tokens2[0].clone(),
                    vec![TokenType::Coma, TokenType::CloseParen],
                ),
            );
        }
        let remaining_tokens3 = expect(remaining_tokens2, TokenType::CloseParen)?;
        proof {
            if pair_of_literals(tokens@) {
                assert(remaining_tokens3@ =~= tokens@.skip(5));
            }
            assert forall|n: nat|
                tokens@.len() > 2 * n && #[trigger] literal_args(tokens@.skip(1), n)
                    implies remaining_tokens3@ =~= tokens@.skip(2 * n as int + 1) by {
                assert(tokens@.skip(2 * n as int).skip(1) =~= tokens@.skip(2 * n as int + 1));
            }
            assert forall|n: nat|
                tokens@.len() > 2 * n && #[trigger] literal_args(tokens@.skip(1), n) implies forall|i: int|
                0 <= i < n ==> literal_expr(#[trigger] elements@[i], tokens@[2 * i + 1].token_type) by {
                assert(remaining_tokens@ =~= tokens@.skip(1));
                lemma_literal_args_items(
                    remaining_tokens@,
                    remaining_tokens@,
                    parse_item,
                    n,
                    elements@,
                    remaining_tokens2@,
                );
                assert forall|i: int| 0 <= i < n implies literal_expr(
                    #[trigger] elements@[i],
                    tokens@[2 * i + 1].token_type,
                ) by {
                    assert(remaining_tokens@[2 * i] == tokens@[2 * i + 1]);
                }
            }
        }
        Ok((Tuple { elements }, remaining_tokens3))
    }
}

} // verus!
