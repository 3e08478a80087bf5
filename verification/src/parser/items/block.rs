use vstd::prelude::*;

use crate::ast::{Block, Statement};
use crate::lexer::{Token, TokenType};
use crate::parser::parsable::{
    is_suffix, lemma_skip_suffix_auto, lemma_suffix_trans_auto, parse_post, skip,
};
use crate::parser::parse_ctx::{ctx_same, ParseCtx};
use crate::parser::items::expression::{
    binop_of, ends_expression, simple_binop, simple_expr, simple_operand,
};
use crate::parser::util::{expect, fail, Diagnostics, ParseError};

verus! {

broadcast use {lemma_suffix_trans_auto, lemma_skip_suffix_auto};

/// The statements of an indented block: `tokens` start with the indentation
/// of its first line, which is taken as it is. Statements are separated by
/// line ends; empty lines between them are kept as empty-line statements,
/// and those after the last statement are left to the caller.
pub fn parse_statements_loop<'a>(tokens: &'a [Token], parse_ctx: &mut ParseCtx) -> (res: Result<
    (Vec<Statement>, &'a [Token]),
    Diagnostics,
>)
    ensures
        ctx_same(*old(parse_ctx), *final(parse_ctx)),
        res is Ok <==> tokens@.len() > 0,
        res matches Ok((statements, rest)) ==> {
            &&& is_suffix(rest@, tokens@)
            &&& rest@.len() < tokens@.len()
            &&& statements@.len() > 0 ==> !(statements@.last() is EmptyLine)
        },
    decreases tokens@.len(), 0int,
{
    if tokens.len() == 0 {
        return fail(ParseError::UnexpectedEof(TokenType::Indent(parse_ctx.indent_level)));
    }
    let mut remaining_tokens = skip(tokens, 1);
    let mut remaining_tokens_with_leading_newlines = remaining_tokens;
    let mut statements: Vec<Statement> = Vec::new();
    let mut nb_statements_without_leading_newlines: usize = 0;
    loop
        invariant
            is_suffix(remaining_tokens@, tokens@),
            remaining_tokens@.len() < tokens@.len(),
            is_suffix(remaining_tokens_with_leading_newlines@, tokens@),
            remaining_tokens_with_leading_newlines@.len() < tokens@.len(),
            ctx_same(*old(parse_ctx), *parse_ctx),
            nb_statements_without_leading_newlines <= statements@.len(),
            nb_statements_without_leading_newlines > 0 ==> !(
            statements@[nb_statements_without_leading_newlines - 1] is EmptyLine),
        ensures
            is_suffix(remaining_tokens@, tokens@),
            remaining_tokens@.len() < tokens@.len(),
            ctx_same(*old(parse_ctx), *parse_ctx),
            statements@.len() > 0 ==> !(statements@.last() is EmptyLine),
        decreases remaining_tokens@.len(),
    {
        match Statement::parse(remaining_tokens, parse_ctx) {
            Ok((statement, new_tokens)) => {
                remaining_tokens = new_tokens;
                statements.push(statement);
            },
            Err(_) => {
                remaining_tokens = remaining_tokens_with_leading_newlines;
                statements.truncate(nb_statements_without_leading_newlines);
                break ;
            },
        }
        remaining_tokens_with_leading_newlines = remaining_tokens;
        if let Ok(new_tokens) = expect(remaining_tokens, TokenType::Eol) {
            remaining_tokens = new_tokens;
        } else {
            break ;
        }
        nb_statements_without_leading_newlines = statements.len();
        while remaining_tokens.len() >= 2 && remaining_tokens[0].token_type.is_indent()
            && remaining_tokens[1].token_type.same_as(&TokenType::Eol)
            invariant
                is_suffix(remaining_tokens@, tokens@),
                remaining_tokens@.len() < remaining_tokens_with_leading_newlines@.len(),
                remaining_tokens_with_leading_newlines@.len() < tokens@.len(),
                nb_statements_without_leading_newlines <= statements@.len(),
                nb_statements_without_leading_newlines > 0,
                !(statements@[nb_statements_without_leading_newlines - 1] is EmptyLine),
            decreases remaining_tokens@.len(),
        {
            remaining_tokens = skip(remaining_tokens, 2);
            statements.push(Statement::EmptyLine);
        }
    }
    Ok((statements, remaining_tokens))
}

/// `b` is a single statement, the expression that a token of type `t`
/// stands for alone.
pub open spec fn single_expr_block(b: Block, t: TokenType) -> bool {
    &&& b.statements@.len() == 1
    &&& b.statements@[0] matches Statement::Expression(e) && simple_expr(e, t)
}

impl Block {
    /// A line end then the statements of an indented block, or a single
    /// statement on the same line.
    pub fn parse<'a>(tokens: &'a [Token], parse_ctx: &mut ParseCtx) -> (res: Result<
        (Self, &'a [Token]),
        Diagnostics,
    >)
        ensures
            parse_post(tokens@, *old(parse_ctx), *final(parse_ctx), res),
            ctx_same(*old(parse_ctx), *final(parse_ctx)),
            res matches Ok((b, _)) ==> (!(tokens@[0].token_type is Eol)
                ==> b.statements@.len() == 1),
            tokens@.len() > 0 && tokens@[0].token_type is Eol ==> (res is Ok <==> tokens@.len() > 1
                && old(parse_ctx).level() + old(parse_ctx).indent_step <= u8::MAX),
            tokens@.len() > 0 && tokens@[0].token_type is Ident && simple_binop(tokens@) ==> (
            res matches Ok((b, rest)) && b.statements@.len() == 1 && (b.statements@[0] matches Statement::Expression(
                e,
            ) && binop_of(e, tokens@)) && rest@ == tokens@.skip(3)),
            simple_operand(tokens@) && ends_expression(tokens@.skip(1)) ==> (res matches Ok((b, rest)) && single_expr_block(
                b,
                tokens@[0].token_type,
            ) && rest@ == tokens@.skip(1)),
        decreases tokens@.len(), 13int,
    {
        if tokens.len() == 0 {
            return fail(ParseError::UnexpectedEof(TokenType::Eol));
        }
        if tokens[0].token_type.same_as(&TokenType::Eol) {
            if parse_ctx.indent_level as u16 + parse_ctx.indent_step as u16 > 255 {
                return fail(
                    ParseError::IndentOverflow(parse_ctx.indent_level, parse_ctx.indent_step),
                );
            }
            let after_eol = skip(tokens, 1);
            let parse_block = |c: &mut ParseCtx| -> (r: Result<
                (Vec<Statement>, &'a [Token]),
                Diagnostics,
            >)
                ensures
                    ctx_same(*old(c), *final(c)),
                    r matches Ok((_, rest)) ==> is_suffix(rest@, after_eol@) && rest@.len()
                        < after_eol@.len(),
                    r is Ok <==> after_eol@.len() > 0,
                { parse_statements_loop(after_eol, c) };
            let (statements, remaining_tokens) = parse_ctx.indent_block(parse_block)?;
            Ok((Block { statements }, remaining_tokens))
        } else {
            let (statement, remaining_tokens) = Statement::parse(tokens, parse_ctx)?;
            let mut statements: Vec<Statement> = Vec::new();
            statements.push(statement);
            Ok((Block { statements }, remaining_tokens))
        }
    }
}

} // verus!
