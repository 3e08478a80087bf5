use vstd::prelude::*;

use crate::ast::{Block, Else, Expression, If, Operand, Statement, UnaryExpr};
use crate::lexer::{Token, TokenType};
use crate::parser::parsable::{
    is_suffix, lemma_skip_suffix_auto, lemma_suffix_trans_auto, parse_post, skip, starts_with_kw,
    starts_with_keyword,
};
use crate::parser::items::block::single_expr_block;
use crate::parser::items::expression::{
    binop_of, ends_expression, operand_of, simple_binop, simple_expr, simple_operand,
};
use crate::parser::parse_ctx::{ctx_same, ParseCtx};
use crate::parser::util::{fail, Diagnostics, ParseError};

verus! {

broadcast use {lemma_suffix_trans_auto, lemma_skip_suffix_auto};

/// Consumes the keyword `keyword`.
pub fn expect_keyword<'a>(tokens: &'a [Token], keyword: &str) -> (res: Result<&'a [Token], Diagnostics>)
    ensures
        res matches Err(d) ==> d.errors@.len() > 0,
        res is Ok <==> starts_with_kw(tokens@, keyword@),
        res matches Ok(rest) ==> rest@ == tokens@.skip(1),
{
    if starts_with_keyword(tokens, keyword) {
        return Ok(skip(tokens, 1));
    }
    let expected = TokenType::Keyword(String::from_str(keyword));
    if tokens.len() == 0 {
        return fail(ParseError::UnexpectedEof(expected));
    }
    fail(ParseError::UnexpectedToken(tokens[0].clone(), vec![expected]))
}

/// `tokens` without a line end followed by the indentation `level` at their
/// start, when they are there.
pub open spec fn after_eol_indent(tokens: Seq<Token>, level: u8) -> Seq<Token> {
    if tokens.len() >= 2 && tokens[0].token_type is Eol && tokens[1].token_type
        == TokenType::Indent(level) {
        tokens.skip(2)
    } else {
        tokens
    }
}

/// Skips a line end followed by the indentation `level`, so that a
/// conditional goes on with its `then` or `else` on the next line.
pub fn skip_eol_indent<'a>(tokens: &'a [Token], level: u8) -> (res: &'a [Token])
    ensures
        res@ == after_eol_indent(tokens@, level),
        is_suffix(res@, tokens@),
{
    if tokens.len() >= 2 && tokens[0].token_type.same_as(&TokenType::Eol) {
        if let TokenType::Indent(l) = tokens[1].token_type {
            if l == level {
                return skip(tokens, 2);
            }
        }
    }
    proof {
        assert(tokens@.skip(0) =~= tokens@);
    }
    tokens
}

/// `if c then a + b` on its own: a literal or a name as the condition, and an
/// operation on a name and a simple operand as the branch; the tokens end
/// there, or the end of file follows.
pub open spec fn one_line_if(tokens: Seq<Token>) -> bool {
    &&& starts_with_kw(tokens, "if"@)
    &&& tokens.len() > 5
    &&& simple_operand(tokens.skip(1))
    &&& starts_with_kw(tokens.skip(2), "then"@)
    &&& tokens[3].token_type is Ident
    &&& simple_binop(tokens.skip(3))
    &&& tokens.len() == 6 || tokens[6].token_type is Eof
}

/// `i` is the one line conditional of `tokens`: the operand of `tokens[1]`
/// as the condition, and the operation of `tokens[3..6]` as the one
/// statement of the branch.
pub open spec fn one_line_if_of(i: If, tokens: Seq<Token>) -> bool {
    let If { condition, then: branch, else_: _ } = i;
    &&& simple_expr(condition, tokens[1].token_type)
    &&& branch.statements@.len() == 1
    &&& branch.statements@[0] matches Statement::Expression(e) && binop_of(e, tokens.skip(3))
}

/// `if c then x else y`: a literal or a name as the condition and as each
/// branch, with nothing after the last one that goes on an expression.
pub open spec fn if_then_else(tokens: Seq<Token>) -> bool {
    &&& starts_with_kw(tokens, "if"@)
    &&& tokens.len() > 5
    &&& simple_operand(tokens.skip(1))
    &&& starts_with_kw(tokens.skip(2), "then"@)
    &&& simple_operand(tokens.skip(3))
    &&& starts_with_kw(tokens.skip(4), "else"@)
    &&& simple_operand(tokens.skip(5))
    &&& ends_expression(tokens.skip(6))
}

/// `i` is the conditional of `tokens` written `if c then x else y`: the
/// operand of `c` as the condition, the operand `x` read after `then` as
/// the one statement of its branch, and the operand `y` read after `else` as
/// the one statement of its else block.
pub open spec fn if_then_else_of(i: If, tokens: Seq<Token>) -> bool {
    let If { condition, then: branch, else_ } = i;
    &&& simple_expr(condition, tokens[1].token_type)
    &&& single_expr_block(branch, tokens[3].token_type)
    &&& else_ matches Some(Else::Block(b)) && single_expr_block(b, tokens[5].token_type)
}

/// The operand that a block of one statement, an operand alone, holds.
pub open spec fn block_operand(b: Block) -> Option<Operand> {
    if b.statements@.len() == 1 {
        match b.statements@[0] {
            Statement::Expression(Expression::UnaryExpr(UnaryExpr::PrimaryExpr(p))) => Some(p.operand),
            _ => None,
        }
    } else {
        None
    }
}

/// In a conditional read from `if c then x else y`, the branch taken when
/// `c` holds is `x`, written after `then`, and the else block is `y`,
/// written after `else`: the branches are never swapped.
pub proof fn law_branches_where_written(i: If, tokens: Seq<Token>)
    requires
        if_then_else(tokens),
        if_then_else_of(i, tokens),
    ensures
        ({
            let If { condition: _, then: branch, else_ } = i;
            &&& block_operand(branch) matches Some(x) && operand_of(x, tokens[3].token_type)
            &&& else_ matches Some(Else::Block(b)) && (block_operand(b) matches Some(y) && operand_of(
                y,
                tokens[5].token_type,
            ))
        }),
{
}

impl If {
    /// `if`, the condition, an optional `then`, the block, and an optional
    /// `else`. Before `then` and before `else` a line may end, when the next
    /// one is at the level of the `if`.
    pub fn parse<'a>(tokens: &'a [Token], parse_ctx: &mut ParseCtx) -> (res: Result<
        (Self, &'a [Token]),
        Diagnostics,
    >)
        ensures
            parse_post(tokens@, *old(parse_ctx), *final(parse_ctx), res),
            ctx_same(*old(parse_ctx), *final(parse_ctx)),
            res is Ok ==> starts_with_kw(tokens@, "if"@),
            one_line_if(tokens@) ==> (res matches Ok((i, rest)) && i.else_ is None && rest@
                == tokens@.skip(6) && one_line_if_of(i, tokens@)),
            if_then_else(tokens@) ==> (res matches Ok((i, rest)) && if_then_else_of(i, tokens@)
                && rest@ == tokens@.skip(6)),
        decreases tokens@.len(), 0int,
    {
        let remaining_tokens = expect_keyword(tokens, "if")?;
        proof {
            if one_line_if(tokens@) {
                assert(remaining_tokens@.skip(1) =~= tokens@.skip(2));
            }
        }
        let (condition, remaining_tokens) = Expression::parse(remaining_tokens, parse_ctx)?;
        let mut remaining_tokens = skip_eol_indent(remaining_tokens, parse_ctx.indent_level);
        if let Ok(new_remaining_tokens) = expect_keyword(remaining_tokens, "then") {
            remaining_tokens = new_remaining_tokens;
        }
        proof {
            if one_line_if(tokens@) {
                assert(remaining_tokens@ =~= tokens@.skip(3));
                assert(tokens@.skip(3).skip(3) =~= tokens@.skip(6));
            }
        }
        proof {
            if one_line_if(tokens@) {
                assert(tokens@.skip(1).skip(1) =~= tokens@.skip(2));
                assert(simple_expr(condition, tokens@[1].token_type));
            }
        }
        let (then, remaining_tokens) = Block::parse(remaining_tokens, parse_ctx)?;
        if remaining_tokens.len() == 0 {
            return Ok((If { condition, then, else_: None }, remaining_tokens));
        }
        let mut remaining_tokens = skip_eol_indent(remaining_tokens, parse_ctx.indent_level);
        let else_ = if starts_with_keyword(remaining_tokens, "else") {
            let (else_block, new_remaining_tokens) = Else::parse(remaining_tokens, parse_ctx)?;
            remaining_tokens = new_remaining_tokens;
            Some(else_block)
        } else {
            None
        };
        Ok((If { condition, then, else_ }, remaining_tokens))
    }
}

impl Else {
    /// `else` followed by another conditional, or by a block.
    pub fn parse<'a>(tokens: &'a [Token], parse_ctx: &mut ParseCtx) -> (res: Result<
        (Self, &'a [Token]),
        Diagnostics,
    >)
        ensures
            parse_post(tokens@, *old(parse_ctx), *final(parse_ctx), res),
            ctx_same(*old(parse_ctx), *final(parse_ctx)),
            res matches Ok((e, _)) ==> starts_with_kw(tokens@, "else"@) && (e is If
                <==> starts_with_kw(tokens@.skip(1), "if"@)),
            starts_with_kw(tokens@, "else"@) && tokens@.len() > 2 && tokens@[1].token_type is Eol
                && old(parse_ctx).level() + old(parse_ctx).indent_step <= u8::MAX ==> res matches Ok(
                (Else::Block(_), _),
            ),
            starts_with_kw(tokens@, "else"@) && simple_operand(tokens@.skip(1)) && ends_expression(
                tokens@.skip(2),
            ) ==> (
            res matches Ok((Else::Block(b), rest)) && single_expr_block(b, tokens@[1].token_type)
                && rest@ == tokens@.skip(2)),
        decreases tokens@.len(), 0int,
    {
        let remaining_tokens = expect_keyword(tokens, "else")?;
        assert(remaining_tokens@ =~= tokens@.skip(1));
        proof {
            reveal_strlit("if");
            reveal_strlit("true");
            reveal_strlit("false");
            assert("true"@.len() != "if"@.len() && "false"@.len() != "if"@.len());
        }
        if starts_with_keyword(remaining_tokens, "if") {
            let (if_, remaining_tokens) = If::parse(remaining_tokens, parse_ctx)?;
            Ok((Else::If(Box::new(if_)), remaining_tokens))
        } else {
            let (block, remaining_tokens) = Block::parse(remaining_tokens, parse_ctx)?;
            Ok((Else::Block(block), remaining_tokens))
        }
    }
}

} // verus!
