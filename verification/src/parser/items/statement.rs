use vstd::prelude::*;

use crate::ast::{Assignment, AssignmentLHS, Expression, Pattern, Statement, UnaryExpr};
use crate::lexer::{Token, TokenType};
use crate::parser::parsable::{
    is_suffix, lemma_skip_suffix_auto, lemma_suffix_trans_auto, parse_post, skip, starts_with_kw,
    starts_with_keyword,
};
use crate::parser::parse_ctx::{ctx_same, ParseCtx};
use crate::parser::items::expression::{
    binop_of, ends_expression, lone_literal, simple_binop, simple_expr, simple_operand,
};
use crate::parser::util::{expect, fail, Diagnostics, ParseError};

verus! {

broadcast use {lemma_suffix_trans_auto, lemma_skip_suffix_auto};

/// `tokens` without the indentation of the current level at their start,
/// when it is there.
pub open spec fn after_indent_of(tokens: Seq<Token>, level: u8) -> Seq<Token> {
    if tokens.len() > 0 && tokens[0].token_type == TokenType::Indent(level) {
        tokens.skip(1)
    } else {
        tokens
    }
}

/// `name = literal`, with nothing after the literal that goes on an
/// expression.
pub open spec fn assigns_literal(tokens: Seq<Token>) -> bool {
    &&& tokens.len() > 2
    &&& tokens[0].token_type is Ident
    &&& tokens[1].token_type is Equal
    &&& lone_literal(tokens.skip(2))
}

impl Statement {
    /// A line of a block (its indentation is consumed when it is that of the
    /// current level): `return`, `continue` or `break` with an optional
    /// expression, an assignment, or an expression.
    pub fn parse<'a>(tokens: &'a [Token], parse_ctx: &mut ParseCtx) -> (res: Result<
        (Self, &'a [Token]),
        Diagnostics,
    >)
        ensures
            parse_post(tokens@, *old(parse_ctx), *final(parse_ctx), res),
            ctx_same(*old(parse_ctx), *final(parse_ctx)),
            res matches Ok((s, _)) ==> {
                let line = after_indent_of(tokens@, old(parse_ctx).level());
                &&& !(s is EmptyLine)
                &&& s is Return <==> starts_with_kw(line, "return"@)
                &&& starts_with_kw(line, "continue"@) && !starts_with_kw(line, "return"@)
                    ==> s is Continue
                &&& starts_with_kw(line, "break"@) && !starts_with_kw(line, "return"@)
                    && !starts_with_kw(line, "continue"@) ==> s is Break
            },
            ({
                let line = after_indent_of(tokens@, old(parse_ctx).level());
                starts_with_kw(line, "return"@) || starts_with_kw(line, "continue"@)
                    || starts_with_kw(line, "break"@)
            }) ==> res is Ok,
            ({
                let line = after_indent_of(tokens@, old(parse_ctx).level());
                assigns_literal(line)
            }) ==> (res matches Ok((Statement::Assignment(a), rest)) && a.lhs is Pattern && rest@
                == after_indent_of(tokens@, old(parse_ctx).level()).skip(3)),
            ({
                let line = after_indent_of(tokens@, old(parse_ctx).level());
                line.len() > 0 && line[0].token_type is Ident && simple_binop(line)
            }) ==> (res matches Ok((Statement::Expression(e), rest)) && binop_of(
                e,
                after_indent_of(tokens@, old(parse_ctx).level()),
            ) && rest@ == after_indent_of(tokens@, old(parse_ctx).level()).skip(3)),
            ({
                let line = after_indent_of(tokens@, old(parse_ctx).level());
                simple_operand(line) && ends_expression(line.skip(1))
            }) ==> (res matches Ok((Statement::Expression(e), rest)) && simple_expr(
                e,
                after_indent_of(tokens@, old(parse_ctx).level())[0].token_type,
            ) && rest@ == after_indent_of(tokens@, old(parse_ctx).level()).skip(1)),
        decreases tokens@.len(), 12int,
    {
        if tokens.len() == 0 {
            return fail(ParseError::UnexpectedEof(TokenType::Eol));
        }
        let (_, remaining_tokens) = parse_ctx.consume_indent_if_any(tokens);
        if remaining_tokens.len() == 0 {
            return fail(ParseError::UnexpectedEof(TokenType::Eol));
        }
        proof {
            reveal_strlit("return");
            reveal_strlit("continue");
            reveal_strlit("break");
            reveal_strlit("true");
            reveal_strlit("false");
            assert("true"@[0] != "return"@[0] && "true"@[0] != "continue"@[0] && "true"@[0]
                != "break"@[0]);
            assert("false"@[0] != "return"@[0] && "false"@[0] != "continue"@[0] && "false"@[0]
                != "break"@[0]);
        }
        if starts_with_keyword(remaining_tokens, "return") {
            if let Ok((expression, rest)) = Expression::parse(skip(remaining_tokens, 1), parse_ctx) {
                return Ok((Statement::Return(Some(expression)), rest));
            } else {
                return Ok((Statement::Return(None), skip(remaining_tokens, 1)));
            }
        }
        if starts_with_keyword(remaining_tokens, "continue") {
            if let Ok((expression, rest)) = Expression::parse(skip(remaining_tokens, 1), parse_ctx) {
                return Ok((Statement::Continue(Some(expression)), rest));
            } else {
                return Ok((Statement::Continue(None), skip(remaining_tokens, 1)));
            }
        }
        if starts_with_keyword(remaining_tokens, "break") {
            if let Ok((expression, rest)) = Expression::parse(skip(remaining_tokens, 1), parse_ctx) {
                return Ok((Statement::Break(Some(expression)), rest));
            } else {
                return Ok((Statement::Break(None), skip(remaining_tokens, 1)));
            }
        }
        let assignment_res = Assignment::parse(remaining_tokens, parse_ctx);
        let diagnostics = match assignment_res {
            Ok((assignment, rest)) => {
                return Ok((Statement::Assignment(assignment), rest));
            },
            Err(diags) => diags,
        };
        let (expression, rest) = Expression::parse(remaining_tokens, parse_ctx)?;
        if rest.len() > 0 && rest[0].token_type.same_as(&TokenType::Equal) {
            return Err(diagnostics);
        }
        Ok((Statement::Expression(expression), rest))
    }
}

impl Assignment {
    /// What is assigned, `=`, and the value.
    pub fn parse<'a>(tokens: &'a [Token], parse_ctx: &mut ParseCtx) -> (res: Result<
        (Self, &'a [Token]),
        Diagnostics,
    >)
        ensures
            parse_post(tokens@, *old(parse_ctx), *final(parse_ctx), res),
            ctx_same(*old(parse_ctx), *final(parse_ctx)),
            assigns_literal(tokens@) ==> (res matches Ok((a, rest)) && a.lhs is Pattern
                && rest@ == tokens@.skip(3)),
            tokens@.len() > 0 && tokens@[0].token_type is Ident && simple_operand(tokens@) ==> res is Err,
            simple_operand(tokens@) ==> res is Err,
        decreases tokens@.len(), 11int,
    {
        let (lhs, remaining_tokens) = AssignmentLHS::parse(tokens, parse_ctx)?;
        let remaining_tokens = expect(remaining_tokens, TokenType::Equal)?;
        proof {
            if assigns_literal(tokens@) {
                assert(remaining_tokens@ =~= tokens@.skip(2));
                assert(remaining_tokens@.skip(1) =~= tokens@.skip(3));
            }
        }
        let (rhs, remaining_tokens) = Expression::parse(remaining_tokens, parse_ctx)?;
        Ok((Assignment { lhs, rhs }, remaining_tokens))
    }
}

impl AssignmentLHS {
    /// A pattern followed by `=`, else a unary expression (a place such as
    /// `a.b[2]`) followed by `=`. The `=` is left.
    pub fn parse<'a>(tokens: &'a [Token], parse_ctx: &mut ParseCtx) -> (res: Result<
        (Self, &'a [Token]),
        Diagnostics,
    >)
        ensures
            parse_post(tokens@, *old(parse_ctx), *final(parse_ctx), res),
            ctx_same(*old(parse_ctx), *final(parse_ctx)),
            res matches Ok((_, rest)) ==> rest@.len() > 0 && rest@[0].token_type is Equal,
            tokens@.len() > 1 && tokens@[0].token_type is Ident && tokens@[1].token_type is Equal
                ==> (res matches Ok((AssignmentLHS::Pattern(p), rest)) && p.binding is None
                && rest@ == tokens@.skip(1)),
            tokens@.len() > 0 && tokens@[0].token_type is Ident && simple_operand(tokens@) ==> res is Err,
            simple_operand(tokens@) ==> res is Err,
        decreases tokens@.len(), 10int,
    {
        if let Ok((pattern, remaining_tokens)) = Pattern::parse(tokens, parse_ctx) {
            if remaining_tokens.len() > 0 && remaining_tokens[0].token_type.same_as(
                &TokenType::Equal,
            ) {
                return Ok((AssignmentLHS::Pattern(pattern), remaining_tokens));
            }
        }
        if let Ok((unary, remaining_tokens)) = UnaryExpr::parse(tokens, parse_ctx) {
            if remaining_tokens.len() > 0 && remaining_tokens[0].token_type.same_as(
                &TokenType::Equal,
            ) {
                return Ok((AssignmentLHS::Expression(unary), remaining_tokens));
            }
        }
        if tokens.len() == 0 {
            return fail(ParseError::UnexpectedEof(TokenType::Equal));
        }
        fail(ParseError::InvalidLHS(tokens[0].span.clone()))
    }
}

} // verus!
