use vstd::prelude::*;

use crate::ast::{Block, Expression, Ident, Loop, UnaryExpr};
use crate::lexer::{Token, TokenType};
use crate::parser::items::conditional::expect_keyword;
use crate::parser::items::expression::{ends_operand, head_literal, lone_literal};
use crate::parser::parsable::{
    is_suffix, lemma_skip_suffix_auto, lemma_suffix_trans_auto, parse_post, skip, starts_with_kw,
    starts_with_keyword,
};
use crate::parser::parse_ctx::{ctx_same, ParseCtx};
use crate::parser::util::{fail, Diagnostics, ParseError};

verus! {

broadcast use {lemma_suffix_trans_auto, lemma_skip_suffix_auto};

/// An expression read with calls over several lines refused, as the head of a
/// loop or of a match must end on its line.
pub fn parse_head_expression<'a>(tokens: &'a [Token], parse_ctx: &mut ParseCtx) -> (res: Result<
    (Expression, &'a [Token]),
    Diagnostics,
>)
    ensures
        parse_post(tokens@, *old(parse_ctx), *final(parse_ctx), res),
        ctx_same(*old(parse_ctx), *final(parse_ctx)),
        final(parse_ctx).disallowed_multiline_fn_call == old(
            parse_ctx,
        ).disallowed_multiline_fn_call,
        ends_operand(tokens@) ==> res is Err,
        lone_literal(tokens@) ==> (res matches Ok(
            (Expression::UnaryExpr(UnaryExpr::PrimaryExpr(p)), rest),
        ) && p.operand is Literal && rest@ == tokens@.skip(1)),
        head_literal(tokens@) ==> (res matches Ok((_, rest)) && rest@ == tokens@.skip(1)),
    decreases tokens@.len(), 9int,
{
    let parse_expression = |c: &mut ParseCtx| -> (r: Result<(Expression, &'a [Token]), Diagnostics>)
        ensures
            parse_post(tokens@, *old(c), *final(c), r),
            ctx_same(*old(c), *final(c)),
            ends_operand(tokens@) ==> r is Err,
            lone_literal(tokens@) ==> (r matches Ok(
                (Expression::UnaryExpr(UnaryExpr::PrimaryExpr(p)), rest),
            ) && p.operand is Literal && rest@ == tokens@.skip(1)),
            old(c).disallowed_multiline_fn_call && head_literal(tokens@) ==> (r matches Ok((_, rest))
                && rest@ == tokens@.skip(1)),
        { Expression::parse(tokens, c) };
    parse_ctx.disallow_multiline_fn_call(parse_expression)
}

impl Loop {
    /// `for name in expression block`, `while expression block`, or
    /// `loop block`.
    pub fn parse<'a>(tokens: &'a [Token], parse_ctx: &mut ParseCtx) -> (res: Result<
        (Self, &'a [Token]),
        Diagnostics,
    >)
        ensures
            parse_post(tokens@, *old(parse_ctx), *final(parse_ctx), res),
            ctx_same(*old(parse_ctx), *final(parse_ctx)),
            res matches Ok((l, _)) ==> {
                &&& starts_with_kw(tokens@, "for"@) ==> l is For
                &&& starts_with_kw(tokens@, "while"@) && !starts_with_kw(tokens@, "for"@)
                    ==> l is While
                &&& l is Loop ==> starts_with_kw(tokens@, "loop"@)
            },
            starts_with_kw(tokens@, "while"@) && head_literal(tokens@.skip(1)) && tokens@.len() > 3
                && old(parse_ctx).level() + old(parse_ctx).indent_step <= u8::MAX ==> res matches Ok(
                (Loop::While(_, _), _),
            ),
            starts_with_kw(tokens@, "loop"@) && tokens@.len() > 2 && tokens@[1].token_type is Eol
                && old(parse_ctx).level() + old(parse_ctx).indent_step <= u8::MAX ==> res matches Ok(
                (Loop::Loop(_), _),
            ),
        decreases tokens@.len(), 0int,
    {
        proof {
            reveal_strlit("loop");
            reveal_strlit("for");
            reveal_strlit("while");
            assert("loop"@.len() != "for"@.len() && "loop"@.len() != "while"@.len());
            assert("while"@.len() != "for"@.len());
        }
        if starts_with_keyword(tokens, "for") {
            let (binding, remaining_tokens) = Ident::parse(skip(tokens, 1), parse_ctx)?;
            let remaining_tokens = expect_keyword(remaining_tokens, "in")?;
            let (expr, remaining_tokens) = parse_head_expression(remaining_tokens, parse_ctx)?;
            let (block, remaining_tokens) = Block::parse(remaining_tokens, parse_ctx)?;
            Ok((Loop::For(binding, expr, block), remaining_tokens))
        } else if starts_with_keyword(tokens, "while") {
            let (expr, remaining_tokens) = parse_head_expression(skip(tokens, 1), parse_ctx)?;
            proof {
                if head_literal(tokens@.skip(1)) && tokens@.len() > 3 {
                    assert(tokens@.skip(1).skip(1) =~= tokens@.skip(2));
                    assert(remaining_tokens@[0] == tokens@[2]);
                }
            }
            let (block, remaining_tokens) = Block::parse(remaining_tokens, parse_ctx)?;
            Ok((Loop::While(expr, block), remaining_tokens))
        } else {
            let remaining_tokens = expect_keyword(tokens, "loop")?;
            assert(remaining_tokens@ =~= tokens@.skip(1));
            let (block, remaining_tokens) = Block::parse(remaining_tokens, parse_ctx)?;
            Ok((Loop::Loop(block), remaining_tokens))
        }
    }
}

} // verus!
