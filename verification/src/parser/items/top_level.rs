use vstd::prelude::*;

use crate::ast::{
    EnumDecl, EnumVariant, FunctionDecl, FunctionSig, Ident, IdentifierPath, Impl, MacroDecl, MacroInvoc,
    MacroEntry, Module, ModuleDecl, Operator, ParseType, ParseTypeInner, StructDecl, StructDeclField, TopLevel, TopLevelKind,
    TraitDecl,
};
use crate::lexer::chars::text_is;
use crate::lexer::{Span, Token, TokenType};
use crate::parser::items::enum_decl::ends_block;
use crate::parser::items::literal::{all_digits, decimal_value, parse_u64};
use crate::parser::items::macros::macro_header;
use crate::parser::items::program::declares_file_module;
use crate::parser::items::structs::{declares_type_line, field_lines, field_lines_may, name_colon_type};
use crate::parser::items::impl_decl::{
    last_named, last_signature, method_lines, methods_may, trait_lines, trait_may,
};
use crate::parser::util::named::value_named;
use crate::parser::parsable::{
    is_suffix, lemma_skip_suffix_auto, lemma_suffix_trans_auto, parse_post, skip, starts_with_kw,
};
use crate::parser::parse_ctx::{ctx_kept, ParseCtx};
use crate::parser::util::{
    expect, fail, lines_from, lines_may, list_from, list_may, Diagnostics, ParseError,
};

verus! {

broadcast use {lemma_suffix_trans_auto, lemma_skip_suffix_auto};

/// A name that stands for none: a top level that declares no name of its own
/// carries it.
pub fn empty_ident() -> (res: Ident)
    ensures
        res.name@.len() == 0,
{
    Ident { name: String::new(), span: Span::empty() }
}

/// The top level is named after what it declares, where it declares a name.
pub open spec fn named_after_decl(t: TopLevel) -> bool {
    match t.kind {
        TopLevelKind::FunctionDecl(f) => t.ident == f.name,
        TopLevelKind::FunctionSig(s) => t.ident == s.name,
        TopLevelKind::Extern(s) => t.ident == s.name,
        TopLevelKind::MacroDecl(m) => t.ident == m.name,
        TopLevelKind::MacroInvoc(m) => t.ident == m.name,
        TopLevelKind::InfixOperator(precedence, _) => precedence <= 9,
        _ => true,
    }
}

/// A function or a function signature: a name, an operator or a spaced dot,
/// then `=` for a function and `:` for a signature.
pub open spec fn function_announces(tokens: Seq<Token>, kind: TopLevelKind) -> bool {
    &&& tokens.len() > 1
    &&& (tokens[0].token_type is Ident || tokens[0].token_type is Operator
        || tokens[0].token_type is Dot)
    &&& if tokens[1].token_type is Equal {
        kind is FunctionDecl
    } else if tokens[1].token_type is Colon {
        kind is FunctionSig
    } else {
        false
    }
}

/// The line starting with `tokens` declares a top level of the kind of
/// `kind`, as its first token tells (and, for a function, its second).
pub open spec fn announces(tokens: Seq<Token>, kind: TopLevelKind) -> bool {
    tokens.len() > 0 && match tokens[0].token_type {
        TokenType::Keyword(k) => if k@ == "macro"@ {
            kind is MacroDecl
        } else if k@ == "struct"@ {
            kind is StructDecl
        } else if k@ == "enum"@ {
            kind is EnumDecl
        } else if k@ == "trait"@ {
            kind is TraitDecl
        } else if k@ == "impl"@ {
            kind is Impl
        } else if k@ == "infix"@ {
            kind is InfixOperator
        } else if k@ == "mod"@ {
            kind is Module
        } else if k@ == "extern"@ {
            kind is Extern
        } else if k@ == "type"@ {
            kind is NewType
        } else {
            false
        },
        TokenType::Comment(_) => kind is Comment,
        TokenType::Operator(op) => if op@ == ">"@ {
            kind is Import
        } else if op@ == "<"@ {
            kind is Export
        } else {
            function_announces(tokens, kind)
        },
        TokenType::MacroInvoc(_) => kind is MacroInvoc,
        _ => function_announces(tokens, kind),
    }
}

/// Some top level starts with `tokens`: a known keyword, a comment, an import
/// or an export, a macro invocation, or a function or its signature.
pub open spec fn starts_top_level(tokens: Seq<Token>) -> bool {
    tokens.len() > 0 && match tokens[0].token_type {
        TokenType::Keyword(k) => k@ == "macro"@ || k@ == "struct"@ || k@ == "enum"@ || k@
            == "trait"@ || k@ == "impl"@ || k@ == "infix"@ || k@ == "mod"@ || k@ == "extern"@
            || k@ == "type"@,
        TokenType::Comment(_) => true,
        TokenType::Operator(op) => op@ == ">"@ || op@ == "<"@ || (tokens.len() > 1 && (
        tokens[1].token_type is Equal || tokens[1].token_type is Colon)),
        TokenType::MacroInvoc(_) => true,
        _ => tokens.len() > 1 && (tokens[0].token_type is Ident || tokens[0].token_type is Dot) && (
        tokens[1].token_type is Equal || tokens[1].token_type is Colon),
    }
}

impl TopLevel {
    /// What a line of a module holds: a macro, a struct, an enum, a trait, an
    /// impl, an infix operator with its precedence, a module, an external
    /// function, a type alias, a comment, an import (`>`), an export (`<`), a
    /// macro invocation, a function or a function signature.
    pub fn parse<'a>(tokens: &'a [Token], parse_ctx: &mut ParseCtx) -> (res: Result<
        (Self, &'a [Token]),
        Diagnostics,
    >)
        ensures
            parse_post(tokens@, *old(parse_ctx), *final(parse_ctx), res),
            res matches Ok((t, _)) ==> named_after_decl(t) && announces(tokens@, t.kind),
            !starts_top_level(tokens@) ==> res is Err,
            final(parse_ctx).level() != old(parse_ctx).level() ==> (res matches Err(d)
                && d.errors@.len() > 0),
            macro_header(tokens@, old(parse_ctx).level() + old(parse_ctx).indent_step) ==> (
            res matches Ok((t, _)) && t.kind is MacroDecl),
            forall|entries: Seq<MacroEntry>, rest: Seq<Token>|
                macro_header(tokens@, old(parse_ctx).level() + old(parse_ctx).indent_step)
                    && #[trigger] list_from(
                    tokens@.skip(4),
                    tokens@.skip(4),
                    Some(TokenType::Indent(2)),
                    MacroEntry::parse,
                    entries,
                    rest,
                ) ==> (res matches Ok((t, r)) && (t.kind matches TopLevelKind::MacroDecl(m)
                    && m.entries@ == entries) && r@ == rest),
            declares_type_line(tokens@, "struct"@) && old(parse_ctx).level() + old(
                parse_ctx,
            ).indent_step <= u8::MAX ==> (res matches Ok((t, _)) && t.kind is StructDecl),
            forall|fields: Seq<StructDeclField>, rest: Seq<Token>|
                declares_type_line(tokens@, "struct"@) && old(parse_ctx).level() + old(
                    parse_ctx,
                ).indent_step <= u8::MAX && #[trigger] field_lines(
                    tokens@.skip(3),
                    old(parse_ctx).level() + old(parse_ctx).indent_step,
                    fields,
                    rest,
                ) ==> (res matches Ok((t, r)) && (t.kind matches TopLevelKind::StructDecl(d)
                    && d.fields@ == fields) && r@ == rest),
            declares_type_line(tokens@, "struct"@) ==> (res matches Ok((t, r)) ==> (t.kind matches TopLevelKind::StructDecl(d)
                ==> field_lines_may(
                tokens@.skip(3),
                old(parse_ctx).level() + old(parse_ctx).indent_step,
                d.fields@,
                r@,
            ))),
            declares_type_line(tokens@, "enum"@) ==> (res matches Ok((t, r)) ==> (t.kind matches TopLevelKind::EnumDecl(e)
                ==> lines_may(
                tokens@.skip(3),
                tokens@.skip(3),
                old(parse_ctx).level() + old(parse_ctx).indent_step,
                false,
                EnumVariant::parse,
                e.variants@,
                r@,
            ))),
            declares_type_line(tokens@, "impl"@) ==> (res matches Ok((t, r)) ==> (t.kind matches TopLevelKind::Impl(i)
                ==> methods_may(
                tokens@.skip(3),
                old(parse_ctx).level() + old(parse_ctx).indent_step,
                i.methods@,
                r@,
            ))),
            declares_type_line(tokens@, "trait"@) ==> (res matches Ok((t, r)) ==> (t.kind matches TopLevelKind::TraitDecl(d)
                ==> trait_may(
                tokens@.skip(3),
                old(parse_ctx).level() + old(parse_ctx).indent_step,
                d.methods@,
                d.signatures@,
                r@,
            ))),
            starts_with_kw(tokens@, "macro"@) ==> (res matches Ok((t, r)) ==> (t.kind matches TopLevelKind::MacroDecl(m)
                ==> list_may(
                tokens@.skip(4),
                tokens@.skip(4),
                Some(TokenType::Indent(2)),
                MacroEntry::parse,
                m.entries@,
                r@,
            ))),
            forall|variants: Seq<EnumVariant>, rest: Seq<Token>|
                declares_type_line(tokens@, "enum"@) && old(parse_ctx).level() + old(
                    parse_ctx,
                ).indent_step <= u8::MAX && #[trigger] lines_from(
                    tokens@.skip(3),
                    tokens@.skip(3),
                    old(parse_ctx).level() + old(parse_ctx).indent_step,
                    false,
                    EnumVariant::parse,
                    variants,
                    rest,
                ) && (rest.len() == 0 || (rest[0].token_type is Indent
                    && rest[0].token_type->Indent_0 != old(parse_ctx).level() + old(
                    parse_ctx,
                ).indent_step)) ==> (res matches Ok((t, r)) && (t.kind matches TopLevelKind::EnumDecl(e)
                    && e.variants@ == variants) && r@ == rest),
            declares_type_line(tokens@, "enum"@) && old(parse_ctx).level() + old(
                parse_ctx,
            ).indent_step <= u8::MAX && ends_block(
                tokens@.skip(3),
                old(parse_ctx).level() + old(parse_ctx).indent_step,
            ) ==> (res matches Ok((t, _)) && t.kind is EnumDecl),
            declares_type_line(tokens@, "trait"@) && old(parse_ctx).level() + old(
                parse_ctx,
            ).indent_step <= u8::MAX ==> (res matches Ok((t, _)) && t.kind is TraitDecl),
            forall|decls: Seq<FunctionDecl>, sigs: Seq<(Ident, ParseType)>, rest: Seq<Token>|
                declares_type_line(tokens@, "trait"@) && old(parse_ctx).level() + old(
                    parse_ctx,
                ).indent_step <= u8::MAX && #[trigger] trait_lines(
                    tokens@.skip(3),
                    old(parse_ctx).level() + old(parse_ctx).indent_step,
                    decls,
                    sigs,
                    rest,
                ) ==> (res matches Ok((t, r)) && r@ == rest && (t.kind matches TopLevelKind::TraitDecl(
                    d,
                ) && (forall|n: Seq<char>|
                    #[trigger] value_named(d.methods@, n) == last_named(decls, n)) && (forall|
                    n: Seq<char>,
                | #[trigger] value_named(d.signatures@, n) == last_signature(sigs, n)))),
            declares_type_line(tokens@, "impl"@) && old(parse_ctx).level() + old(
                parse_ctx,
            ).indent_step <= u8::MAX ==> (res matches Ok((t, _)) && t.kind is Impl),
            forall|decls: Seq<FunctionDecl>, rest: Seq<Token>|
                declares_type_line(tokens@, "impl"@) && old(parse_ctx).level() + old(
                    parse_ctx,
                ).indent_step <= u8::MAX && #[trigger] method_lines(
                    tokens@.skip(3),
                    old(parse_ctx).level() + old(parse_ctx).indent_step,
                    decls,
                    rest,
                ) ==> (res matches Ok((t, r)) && r@ == rest && (t.kind matches TopLevelKind::Impl(i)
                    && forall|n: Seq<char>|
                    #[trigger] value_named(i.methods@, n) == last_named(decls, n))),
            declares_file_module(tokens@, old(parse_ctx).level() + old(parse_ctx).indent_step) ==> (
            res matches Ok((t, _)) && t.kind is Module),
            starts_with_kw(tokens@, "infix"@) && infix_line(tokens@) && precedence_written(
                tokens@,
            )->Some_0 <= 9 ==> (res matches Ok((t, rest)) && t.kind matches TopLevelKind::InfixOperator(
                p,
                op,
            ) && p == precedence_written(tokens@)->Some_0 && Some(op@) == infix_operator_text(
                tokens@[2].token_type,
            ) && rest@ == tokens@.skip(4)),
            starts_with_kw(tokens@, "infix"@) && precedence_written(tokens@) is Some && 9
                < precedence_written(tokens@)->Some_0 <= 255 ==> (res matches Err(d) && d.errors@
                == seq![ParseError::InvalidPrecedence(precedence_written(tokens@)->Some_0 as u8, tokens@[1])]),
            tokens@.len() > 1 && tokens@[0].token_type is Comment && tokens@[1].token_type is Eol ==> (
            res matches Ok((t, rest)) && t.kind is Comment && rest@ == tokens@.skip(2)),
            tokens@.len() > 3 && tokens@[0].token_type is Ident && name_colon_type(tokens@, 0)
                && tokens@[3].token_type is Eol ==> (res matches Ok((t, rest)) && t.kind
                is FunctionSig && rest@ == tokens@.skip(4)),
        decreases tokens@.len(), 2int,
    {
        if tokens.len() == 0 {
            return fail(ParseError::UnexpectedEof(TokenType::Ident(String::new())));
        }
        proof {
            reveal_strlit("macro");
            reveal_strlit("struct");
            reveal_strlit("enum");
            reveal_strlit("trait");
            reveal_strlit("impl");
            reveal_strlit("infix");
            reveal_strlit("mod");
            assert("macro"@.len() == 5 && "struct"@.len() == 6 && "enum"@.len() == 4);
            assert("trait"@.len() == 5 && "impl"@.len() == 4 && "infix"@.len() == 5);
            assert("mod"@.len() == 3);
            assert("trait"@[0] != "macro"@[0] && "impl"@[0] != "enum"@[0]);
            assert("infix"@[0] != "macro"@[0] && "infix"@[0] != "trait"@[0]);
        }
        if let TokenType::Keyword(keyword) = &tokens[0].token_type {
            if text_is(keyword.as_str(), "macro") {
                let (macro_decl, new_tokens) = MacroDecl::parse(tokens, parse_ctx)?;
                let ident = macro_decl.name.clone();
                return Ok((TopLevel { ident, kind: TopLevelKind::MacroDecl(macro_decl) }, new_tokens));
            } else if text_is(keyword.as_str(), "struct") {
                let (struct_decl, new_tokens) = StructDecl::parse(tokens, parse_ctx)?;
                return Ok(
                    (
                        TopLevel { ident: empty_ident(), kind: TopLevelKind::StructDecl(struct_decl) },
                        new_tokens,
                    ),
                );
            } else if text_is(keyword.as_str(), "enum") {
                let (enum_decl, new_tokens) = EnumDecl::parse(tokens, parse_ctx)?;
                return Ok(
                    (
                        TopLevel { ident: empty_ident(), kind: TopLevelKind::EnumDecl(enum_decl) },
                        new_tokens,
                    ),
                );
            } else if text_is(keyword.as_str(), "trait") {
                let (trait_decl, new_tokens) = TraitDecl::parse(tokens, parse_ctx)?;
                return Ok(
                    (
                        TopLevel { ident: empty_ident(), kind: TopLevelKind::TraitDecl(trait_decl) },
                        new_tokens,
                    ),
                );
            } else if text_is(keyword.as_str(), "impl") {
                let (impl_, new_tokens) = Impl::parse(tokens, parse_ctx)?;
                return Ok(
                    (TopLevel { ident: empty_ident(), kind: TopLevelKind::Impl(impl_) }, new_tokens),
                );
            } else if text_is(keyword.as_str(), "infix") {
                return parse_infix(tokens);
            } else if text_is(keyword.as_str(), "mod") {
                let (module, new_tokens) = Module::parse(tokens, parse_ctx)?;
                let ident = match &module.name {
                    Some(name) => name.clone(),
                    None => empty_ident(),
                };
                return Ok(
                    (TopLevel { ident, kind: TopLevelKind::Module(ModuleDecl(module)) }, new_tokens),
                );
            } else if text_is(keyword.as_str(), "extern") {
                let (function_sig, new_tokens) = FunctionSig::parse(skip(tokens, 1), parse_ctx)?;
                let ident = function_sig.name.clone();
                return Ok((TopLevel { ident, kind: TopLevelKind::Extern(function_sig) }, new_tokens));
            } else if text_is(keyword.as_str(), "type") {
                let (parse_type_inner, remaining_tokens) = ParseTypeInner::parse(
                    skip(tokens, 1),
                    parse_ctx,
                )?;
                let remaining_tokens = expect(remaining_tokens, TokenType::Equal)?;
                let (parse_type, remaining_tokens) = ParseType::parse(remaining_tokens, parse_ctx)?;
                let remaining_tokens = expect(remaining_tokens, TokenType::Eol)?;
                return Ok(
                    (
                        TopLevel {
                            ident: empty_ident(),
                            kind: TopLevelKind::NewType(parse_type_inner, parse_type),
                        },
                        remaining_tokens,
                    ),
                );
            } else {
                let mut expected: Vec<String> = Vec::new();
                expected.push(String::from_str("macro"));
                return fail(ParseError::UnexpectedKeyword(tokens[0].clone(), expected));
            }
        }
        if let TokenType::Comment(s) = &tokens[0].token_type {
            let new_tokens = expect(skip(tokens, 1), TokenType::Eol)?;
            assert(tokens@.len() > 1 && tokens@[1].token_type is Eol ==> new_tokens@ =~= tokens@.skip(
                2,
            ));
            return Ok(
                (TopLevel { ident: empty_ident(), kind: TopLevelKind::Comment(s.clone()) }, new_tokens),
            );
        }
        let (is_import, is_export) = match &tokens[0].token_type {
            TokenType::Operator(op) => (text_is(op.as_str(), ">"), text_is(op.as_str(), "<")),
            _ => (false, false),
        };
        if is_import || is_export {
            let (identifier_path, new_tokens) = IdentifierPath::parse(skip(tokens, 1), parse_ctx)?;
            let new_tokens = expect(new_tokens, TokenType::Eol)?;
            let kind = if is_import {
                TopLevelKind::Import(identifier_path)
            } else {
                TopLevelKind::Export(identifier_path)
            };
            return Ok((TopLevel { ident: empty_ident(), kind }, new_tokens));
        }
        if let TokenType::MacroInvoc(_) = &tokens[0].token_type {
            let (macro_invoc, new_tokens) = MacroInvoc::parse(tokens, parse_ctx)?;
            let ident = macro_invoc.name.clone();
            return Ok((TopLevel { ident, kind: TopLevelKind::MacroInvoc(macro_invoc) }, new_tokens));
        }
        let has_name = match &tokens[0].token_type {
            TokenType::Ident(_) | TokenType::Operator(_) | TokenType::Dot => true,
            _ => false,
        };
        if has_name && tokens.len() > 1 {
            if tokens[1].token_type.same_as(&TokenType::Equal) {
                let (function_decl, new_tokens) = FunctionDecl::parse(tokens, parse_ctx)?;
                let ident = function_decl.name.clone();
                return Ok(
                    (TopLevel { ident, kind: TopLevelKind::FunctionDecl(function_decl) }, new_tokens),
                );
            } else if tokens[1].token_type.same_as(&TokenType::Colon) {
                let (function_sig, new_tokens) = FunctionSig::parse(tokens, parse_ctx)?;
                let ident = function_sig.name.clone();
                return Ok(
                    (TopLevel { ident, kind: TopLevelKind::FunctionSig(function_sig) }, new_tokens),
                );
            }
        }
        fail(
            ParseError::UnexpectedToken(
                tokens[0].clone(),
                vec![
                    TokenType::Keyword(String::from_str("macro")),
                    TokenType::MacroInvoc(String::new()),
                    TokenType::Ident(String::new()),
                ],
            ),
        )
    }
}

/// The operator an infix declaration declares with the token `t`: an
/// operator's text, or `.` for a spaced dot.
pub open spec fn infix_operator_text(t: TokenType) -> Option<Seq<char>> {
    match t {
        TokenType::Operator(o) => Some(o@),
        TokenType::StuckOperator(o) => Some(o@),
        TokenType::SpacedDot => Some("."@),
        _ => None,
    }
}

/// The number written by the second token, when it is a number.
pub open spec fn precedence_written(tokens: Seq<Token>) -> Option<int> {
    if tokens.len() > 1 && tokens[1].token_type is Number && tokens[1].token_type->Number_0@.len()
        > 0 && all_digits(tokens[1].token_type->Number_0@) {
        Some(decimal_value(tokens[1].token_type->Number_0@))
    } else {
        None
    }
}

/// `infix n op` then the end of the line, for a written number `n` and an
/// operator `op`.
pub open spec fn infix_line(tokens: Seq<Token>) -> bool {
    &&& tokens.len() >= 4
    &&& precedence_written(tokens) is Some
    &&& infix_operator_text(tokens[2].token_type) is Some
    &&& tokens[3].token_type is Eol
}

/// `infix`, a precedence from 0 to 9, an operator (or a spaced dot, which
/// declares the operator `.`), and the end of the line.
pub fn parse_infix<'a>(tokens: &'a [Token]) -> (res: Result<(TopLevel, &'a [Token]), Diagnostics>)
    requires
        tokens@.len() > 0,
    ensures
        infix_line(tokens@) && precedence_written(tokens@)->Some_0 <= 9 ==> (res matches Ok(
            (t, rest),
        ) && t.kind matches TopLevelKind::InfixOperator(p, op) && p == precedence_written(
            tokens@,
        )->Some_0 && Some(op@) == infix_operator_text(tokens@[2].token_type) && rest@
            == tokens@.skip(4)),
        precedence_written(tokens@) is Some && 9 < precedence_written(tokens@)->Some_0 <= 255 ==> (
        res matches Err(d) && d.errors@ == seq![
            ParseError::InvalidPrecedence(precedence_written(tokens@)->Some_0 as u8, tokens@[1]),
        ]),
        res matches Err(d) ==> d.errors@.len() > 0,
        res matches Ok((t, rest)) ==> {
            &&& is_suffix(rest@, tokens@)
            &&& rest@.len() < tokens@.len()
            &&& t.kind matches TopLevelKind::InfixOperator(precedence, _)
            &&& precedence <= 9
            &&& tokens@.len() > 1
            &&& tokens@[1].token_type matches TokenType::Number(n)
            &&& decimal_value(n@) == precedence
        },
{
    if tokens.len() < 2 {
        return fail(ParseError::UnexpectedEof(TokenType::Number(String::new())));
    }
    let precedence = match &tokens[1].token_type {
        TokenType::Number(value) => match parse_u64(value.as_str()) {
            Some(v) => {
                if v > 255 {
                    return fail(ParseError::InvalidNumber(tokens[1].clone()));
                }
                v as u8
            },
            None => {
                return fail(ParseError::InvalidNumber(tokens[1].clone()));
            },
        },
        _ => {
            return fail(
                ParseError::UnexpectedToken(tokens[1].clone(), vec![TokenType::Number(String::new())]),
            );
        },
    };
    if precedence > 9 {
        return fail(ParseError::InvalidPrecedence(precedence, tokens[1].clone()));
    }
    let after_precedence = skip(tokens, 2);
    proof {
        reveal_strlit(".");
        if infix_line(tokens@) {
            assert(after_precedence@[0] == tokens@[2]);
            assert(after_precedence@.skip(1) =~= tokens@.skip(3));
        }
    }
    let (op, remaining_tokens) = if let Ok((op, remaining_tokens)) = Operator::parse(
        after_precedence,
    ) {
        (op, remaining_tokens)
    } else if after_precedence.len() > 0 && after_precedence[0].token_type.same_as(
        &TokenType::SpacedDot,
    ) {
        let operator = Operator {
            value: String::from_str("."),
            span: after_precedence[0].span.clone(),
        };
        (operator, skip(after_precedence, 1))
    } else {
        if after_precedence.len() == 0 {
            return fail(ParseError::UnexpectedEof(TokenType::Operator(String::new())));
        }
        return fail(
            ParseError::UnexpectedToken(
                after_precedence[0].clone(),
                vec![TokenType::Operator(String::new())],
            ),
        );
    };
    let remaining_tokens = expect(remaining_tokens, TokenType::Eol)?;
    assert(infix_line(tokens@) ==> remaining_tokens@ =~= tokens@.skip(4));
    Ok(
        (
            TopLevel {
                ident: empty_ident(),
                kind: TopLevelKind::InfixOperator(precedence, op.value),
            },
            remaining_tokens,
        ),
    )
}

} // verus!
