use vstd::prelude::*;

use crate::ast::{Ident, IdentOrType, IdentifierPath, ParseType};
use crate::lexer::{Token, TokenType};
use crate::parser::parsable::{is_suffix, lemma_skip_suffix, parse_post, Parsable};
use crate::parser::items::parse_type::{is_named_type, lone_type_name};
use crate::parser::parse_ctx::{ctx_same, ParseCtx};
use crate::parser::util::{fail, first_given, one_item, parse_vec_with, Diagnostics, ParseError};

verus! {

/// The name a token stands for when it is read as an identifier: the text of
/// an identifier or of an operator (operators can be named, as in `|> = ...`).
pub open spec fn ident_name(t: TokenType) -> Option<Seq<char>> {
    match t {
        TokenType::Ident(name) => Some(name@),
        TokenType::Operator(op) => Some(op@),
        _ => None,
    }
}

impl Ident {
    /// An identifier, or an operator used as a name.
    pub fn parse<'a>(tokens: &'a [Token], parse_ctx: &mut ParseCtx) -> (res: Result<
        (Self, &'a [Token]),
        Diagnostics,
    >)
        ensures
            res matches Err(d) ==> d.errors@.len() > 0,
            *final(parse_ctx) == *old(parse_ctx),
            res is Ok <==> tokens@.len() > 0 && ident_name(tokens@[0].token_type) is Some,
            res matches Ok((ident, rest)) ==> {
                &&& rest@ == tokens@.skip(1)
                &&& Some(ident.name@) == ident_name(tokens@[0].token_type)
                &&& ident.span == tokens@[0].span
                &&& tokens@[0].token_type matches TokenType::Ident(n) ==> ident.name == n
                &&& tokens@[0].token_type matches TokenType::Operator(o) ==> ident.name == o
            },
    {
        if tokens.len() == 0 {
            return fail(ParseError::UnexpectedEof(TokenType::Ident(String::new())));
        }
        let token = &tokens[0];
        match &token.token_type {
            TokenType::Ident(name) => Ok(
                (
                    Ident { name: name.clone(), span: token.span.clone() },
                    vstd::slice::slice_subrange(tokens, 1, tokens.len()),
                ),
            ),
            TokenType::Operator(op) => Ok(
                (
                    Ident { name: op.clone(), span: token.span.clone() },
                    vstd::slice::slice_subrange(tokens, 1, tokens.len()),
                ),
            ),
            _ => fail(
                ParseError::UnexpectedToken(token.clone(), vec![TokenType::Ident(String::new())]),
            ),
        }
    }
}

impl Parsable for Ident {
    fn parse<'a>(tokens: &'a [Token], parse_ctx: &mut ParseCtx) -> (res: Result<
        (Self, &'a [Token]),
        Diagnostics,
    >)
        ensures
            res matches Err(d) ==> d.errors@.len() > 0,
            *final(parse_ctx) == *old(parse_ctx),
            res is Ok <==> tokens@.len() > 0 && ident_name(tokens@[0].token_type) is Some,
            res matches Ok((ident, rest)) ==> {
                &&& rest@ == tokens@.skip(1)
                &&& Some(ident.name@) == ident_name(tokens@[0].token_type)
                &&& ident.span == tokens@[0].span
                &&& tokens@[0].token_type matches TokenType::Ident(n) ==> ident.name == n
                &&& tokens@[0].token_type matches TokenType::Operator(o) ==> ident.name == o
            },
    {
        let res = Ident::parse(tokens, parse_ctx);
        proof {
            if tokens@.len() > 0 {
                lemma_skip_suffix(tokens@, 1);
            }
        }
        res
    }
}

impl IdentOrType {
    /// An identifier, else a type.
    pub fn parse<'a>(tokens: &'a [Token], parse_ctx: &mut ParseCtx) -> (res: Result<
        (Self, &'a [Token]),
        Diagnostics,
    >)
        ensures
            parse_post(tokens@, *old(parse_ctx), *final(parse_ctx), res),
            ctx_same(*old(parse_ctx), *final(parse_ctx)),
            tokens@.len() > 0 && ident_name(tokens@[0].token_type) is Some ==> (res matches Ok(
                (IdentOrType::Ident(ident), rest),
            ) && Some(ident.name@) == ident_name(tokens@[0].token_type) && rest@ == tokens@.skip(1)),
            tokens@.len() > 0 && tokens@[0].token_type is Type ==> res is Ok,
            lone_type_name(tokens@) ==> (res matches Ok((IdentOrType::Type(t), rest)) && is_named_type(
                t,
                tokens@[0].token_type,
            ) && rest@ == tokens@.skip(1)),
    {
        if let Ok((ident, remaining_tokens)) = Ident::parse(tokens, parse_ctx) {
            proof {
                lemma_skip_suffix(tokens@, 1);
            }
            return Ok((IdentOrType::Ident(ident), remaining_tokens));
        }
        let (parse_type, remaining_tokens) = ParseType::parse(tokens, parse_ctx)?;
        Ok((IdentOrType::Type(parse_type), remaining_tokens))
    }
}

impl Parsable for IdentOrType {
    fn parse<'a>(tokens: &'a [Token], parse_ctx: &mut ParseCtx) -> (res: Result<
        (Self, &'a [Token]),
        Diagnostics,
    >)
        ensures
            parse_post(tokens@, *old(parse_ctx), *final(parse_ctx), res),
            ctx_same(*old(parse_ctx), *final(parse_ctx)),
            tokens@.len() > 0 && ident_name(tokens@[0].token_type) is Some ==> (res matches Ok(
                (IdentOrType::Ident(ident), rest),
            ) && Some(ident.name@) == ident_name(tokens@[0].token_type) && rest@ == tokens@.skip(1)),
            tokens@.len() > 0 && tokens@[0].token_type is Type ==> res is Ok,
            lone_type_name(tokens@) ==> (res matches Ok((IdentOrType::Type(t), rest)) && is_named_type(
                t,
                tokens@[0].token_type,
            ) && rest@ == tokens@.skip(1)),
    {
        IdentOrType::parse(tokens, parse_ctx)
    }
}

impl IdentifierPath {
    /// Identifiers and types separated by `::`. The path may be empty, and
    /// then nothing is consumed.
    pub fn parse<'a>(tokens: &'a [Token], parse_ctx: &mut ParseCtx) -> (res: Result<
        (Self, &'a [Token]),
        Diagnostics,
    >)
        ensures
            ctx_same(*old(parse_ctx), *final(parse_ctx)),
            res matches Ok((path, rest)) && {
                &&& is_suffix(rest@, tokens@)
                &&& path.path@.len() == 0 ==> rest@ == tokens@
                &&& path.path@.len() > 0 ==> rest@.len() < tokens@.len()
            },
            tokens@.len() > 0 && (ident_name(tokens@[0].token_type) is Some
                || tokens@[0].token_type is Type) ==> (res matches Ok((path, _))
                && path.path@.len() > 0),
            tokens@.len() > 0 && ident_name(tokens@[0].token_type) is Some && !(tokens@.len() > 1
                && tokens@[1].token_type is DoubleColon) ==> (res matches Ok((path, rest))
                && path.path@.len() == 1 && rest@ == tokens@.skip(1)),
            tokens@.len() > 0 && ident_name(tokens@[0].token_type) is Some ==> (res matches Ok((path, _))
                && path.path@[0] matches IdentOrType::Ident(id) && Some(id.name@) == ident_name(
                tokens@[0].token_type,
            )),
            lone_type_name(tokens@) && !(tokens@[1].token_type is DoubleColon) ==> (res matches Ok(
                (path, rest),
            ) && path.path@.len() == 1 && (path.path@[0] matches IdentOrType::Type(t) && is_named_type(
                t,
                tokens@[0].token_type,
            )) && rest@ == tokens@.skip(1)),
    {
        let ghost start = *parse_ctx;
        let parse_item = |t: &'a [Token], c: &mut ParseCtx| -> (r: Result<
            (IdentOrType, &'a [Token]),
            Diagnostics,
        >)
            ensures
                parse_post(t@, *old(c), *final(c), r),
                ctx_same(*old(c), *final(c)),
                t@.len() > 0 && (ident_name(t@[0].token_type) is Some || t@[0].token_type
                    is Type) ==> r is Ok,
                t@.len() > 0 && ident_name(t@[0].token_type) is Some ==> (r matches Ok(
                    (IdentOrType::Ident(id), rest),
                ) && Some(id.name@) == ident_name(t@[0].token_type) && rest@ == t@.skip(1)),
                lone_type_name(t@) ==> (r matches Ok((IdentOrType::Type(ty), rest)) && is_named_type(
                    ty,
                    t@[0].token_type,
                ) && rest@ == t@.skip(1)),
            { IdentOrType::parse(t, c) };
        proof {
            if tokens@.len() > 0 && ident_name(tokens@[0].token_type) is Some && !(tokens@.len() > 1
                && tokens@[1].token_type is DoubleColon) {
                assert(one_item(tokens, Some(TokenType::DoubleColon), parse_item, tokens@.skip(1)));
            }
            if lone_type_name(tokens@) && !(tokens@[1].token_type is DoubleColon) {
                assert(one_item(tokens, Some(TokenType::DoubleColon), parse_item, tokens@.skip(1)));
            }
        }
        let (idents, remaining_tokens, _diags) = parse_vec_with(
            tokens,
            Some(TokenType::DoubleColon),
            parse_ctx,
            parse_item,
        );
        proof {
            if tokens@.len() > 0 && ident_name(tokens@[0].token_type) is Some {
                assert(first_given(tokens, parse_item, idents@[0]));
            }
            if lone_type_name(tokens@) && !(tokens@[1].token_type is DoubleColon) {
                assert(first_given(tokens, parse_item, idents@[0]));
            }
        }
        Ok((IdentifierPath { path: idents }, remaining_tokens))
    }
}

} // verus!
