use vstd::prelude::*;

use crate::ast::{ParseType, EnumDecl, EnumVariant, NamedFieldsOrTypesList, ParseTypeInner, StructDeclField};
use crate::lexer::{Token, TokenType};
use crate::parser::items::conditional::expect_keyword;
use crate::parser::items::parse_type::{
    is_named_type, names_after, plain_type_name, type_args, written_type_names,
};
use crate::parser::items::structs::declares_type_line;
use crate::parser::parsable::{
    is_suffix, lemma_skip_suffix_auto, lemma_suffix_trans_auto, parse_post, skip, starts_with_kw,
};
use crate::parser::parse_ctx::{ctx_same, ParseCtx};
use crate::parser::util::{
    expect, lines_from, lines_may, parse_indented_vec_with, skip_empty_lines, starts_with_indent, Diagnostics, ParseError,
};

verus! {

broadcast use {lemma_suffix_trans_auto, lemma_skip_suffix_auto};

/// No line of `tokens` is at the depth `deeper`: they end, or their first
/// line is at another depth and is not an empty line.
pub open spec fn ends_block(tokens: Seq<Token>, deeper: int) -> bool {
    &&& !starts_with_indent(skip_empty_lines(tokens), deeper)
    &&& tokens.len() == 0 || (tokens[0].token_type is Indent && tokens[0].token_type->Indent_0
        != deeper)
}

impl EnumDecl {
    /// `enum`, the type, the end of the line, and the variants one per line,
    /// one block deeper. A line left at the depth of the variants that is not
    /// a variant is an error.
    pub fn parse<'a>(tokens: &'a [Token], parse_ctx: &mut ParseCtx) -> (res: Result<
        (Self, &'a [Token]),
        Diagnostics,
    >)
        ensures
            parse_post(tokens@, *old(parse_ctx), *final(parse_ctx), res),
            ctx_same(*old(parse_ctx), *final(parse_ctx)),
            res is Ok ==> starts_with_kw(tokens@, "enum"@),
            res matches Ok((_, rest)) ==> rest@.len() == 0 || (rest@[0].token_type is Indent
                && rest@[0].token_type->Indent_0 != old(parse_ctx).level() + old(
                parse_ctx,
            ).indent_step),
            declares_type_line(tokens@, "enum"@) && old(parse_ctx).level() + old(
                parse_ctx,
            ).indent_step <= u8::MAX && ends_block(
                tokens@.skip(3),
                old(parse_ctx).level() + old(parse_ctx).indent_step,
            ) ==> (res matches Ok((e, rest)) && e.variants@.len() == 0 && is_named_type(
                ParseType::Type(e.name),
                tokens@[1].token_type,
            ) && rest@ == tokens@.skip(3)),
            forall|variants: Seq<EnumVariant>, rest: Seq<Token>|
                declares_type_line(tokens@, "enum"@) && old(parse_ctx).level() + old(
                    parse_ctx,
                ).indent_step <= u8::MAX && #[trigger] lines_from(
                    tokens@.skip(3),
                    tokens@.skip(3),
                    old(parse_ctx).level() + old(parse_ctx).indent_step,
                    false,
                    EnumVariant::parse,
                    variants,
                    rest,
                ) ==> {
                    &&& res is Ok <==> rest.len() == 0 || (rest[0].token_type is Indent
                        && rest[0].token_type->Indent_0 != old(parse_ctx).level() + old(
                        parse_ctx,
                    ).indent_step)
                    &&& res matches Ok((e, r)) ==> e.variants@ == variants && r@ == rest
                },
            declares_type_line(tokens@, "enum"@) ==> (res matches Ok((e, r)) ==> lines_may(
                tokens@.skip(3),
                tokens@.skip(3),
                old(parse_ctx).level() + old(parse_ctx).indent_step,
                false,
                EnumVariant::parse,
                e.variants@,
                r@,
            )),
    {
        let remaining_tokens = expect_keyword(tokens, "enum")?;
        assert(remaining_tokens@ =~= tokens@.skip(1));
        let (name, remaining_tokens) = ParseTypeInner::parse(remaining_tokens, parse_ctx)?;
        let remaining_tokens = expect(remaining_tokens, TokenType::Eol)?;
        proof {
            if declares_type_line(tokens@, "enum"@) {
                assert(tokens@.skip(1).skip(1) =~= tokens@.skip(2));
                assert(tokens@.skip(2).skip(1) =~= tokens@.skip(3));
            }
        }
        let (variants, remaining_tokens, mut diags) = parse_indented_vec_with(
            remaining_tokens,
            parse_ctx,
            false,
            EnumVariant::parse,
        )?;
        if remaining_tokens.len() == 0 {
            return Ok((EnumDecl { name, variants }, remaining_tokens));
        }
        if let TokenType::Indent(level) = remaining_tokens[0].token_type {
            if level as u16 == parse_ctx.indent_level as u16 + parse_ctx.indent_step as u16 {
                diags.push(
                    ParseError::InvalidVariant(name.span.clone(), remaining_tokens[0].span.clone()),
                );
                return Err(diags);
            }
        } else {
            return Err(diags);
        }
        Ok((EnumDecl { name, variants }, remaining_tokens))
    }
}

/// `v` is the variant named by `tokens[0]` holding the types named by the
/// `n` type names written after it, separated by comas, in that order.
pub open spec fn variant_of_types(v: EnumVariant, tokens: Seq<Token>, n: nat) -> bool {
    &&& is_named_type(ParseType::Type(v.name), tokens[0].token_type)
    &&& v.fields matches NamedFieldsOrTypesList::TypesList(types) && names_after(types@, tokens, n)
}

/// A variant written `Name T1, ..., Tn` holds the types named `T1` to `Tn`,
/// in the order written.
pub proof fn law_variant_types_in_written_order(v: EnumVariant, tokens: Seq<Token>, n: nat)
    requires
        type_args(tokens.skip(1), n),
        variant_of_types(v, tokens, n),
    ensures
        v.fields matches NamedFieldsOrTypesList::TypesList(types) && types@.map_values(
            |t: ParseType| plain_type_name(t),
        ) == written_type_names(tokens, 1, n),
{
    let types = v.fields->TypesList_0@;
    let names = types.map_values(|t: ParseType| plain_type_name(t));
    assert forall|i: int| 0 <= i < n implies #[trigger] names[i] == written_type_names(tokens, 1, n)[i] by {
        assert(is_named_type(types[i], tokens[2 * i + 1].token_type));
    }
    assert(names =~= written_type_names(tokens, 1, n));
}

impl EnumVariant {
    /// A variant: its name with the types it holds (`Variant T, U`), or its
    /// name alone, followed by named fields one block deeper.
    pub fn parse<'a>(tokens: &'a [Token], parse_ctx: &mut ParseCtx) -> (res: Result<
        (Self, &'a [Token]),
        Diagnostics,
    >)
        ensures
            parse_post(tokens@, *old(parse_ctx), *final(parse_ctx), res),
            ctx_same(*old(parse_ctx), *final(parse_ctx)),
            res matches Ok((v, _)) ==> v.name.generics@.len() == 0 && (v.fields matches NamedFieldsOrTypesList::TypesList(types) ==> types@.len() > 0),
            tokens@.len() > 1 && tokens@[0].token_type is Type && !(tokens@[1].token_type is Type
                || tokens@[1].token_type is OpenParen || tokens@[1].token_type is OpenBracket
                || tokens@[1].token_type is Eol) ==> (res matches Ok((v, rest)) && is_named_type(
                ParseType::Type(v.name),
                tokens@[0].token_type,
            ) && v.fields is NamedFields && v.fields->NamedFields_0@.len() == 0 && rest@
                == tokens@.skip(1)),
            tokens@.len() > 1 && tokens@[0].token_type is Type && tokens@[1].token_type is Eol
                && old(parse_ctx).level() + old(parse_ctx).indent_step <= u8::MAX
                && !starts_with_indent(
                skip_empty_lines(tokens@.skip(2)),
                old(parse_ctx).level() + old(parse_ctx).indent_step,
            ) ==> (res matches Ok((v, rest)) && is_named_type(
                ParseType::Type(v.name),
                tokens@[0].token_type,
            ) && v.fields is NamedFields && v.fields->NamedFields_0@.len() == 0 && rest@
                == tokens@.skip(2)),
            forall|n: nat|
                #![trigger type_args(tokens@.skip(1), n)]
                tokens@.len() > 2 * n && tokens@[0].token_type is Type && type_args(tokens@.skip(1), n)
                    && tokens@[2 * n as int].token_type is Eol ==> (res matches Ok((v, rest))
                    && variant_of_types(v, tokens@, n) && rest@ == tokens@.skip(2 * n as int + 1)),
    {
        let (name, remaining_tokens) = ParseTypeInner::parse(tokens, parse_ctx)?;
        if name.generics.len() > 0 {
            proof {
                assert forall|n: nat|
                    tokens@.len() > 2 * n && tokens@[0].token_type is Type && #[trigger] type_args(
                        tokens@.skip(1),
                        n,
                    ) && tokens@[2 * n as int].token_type is Eol implies remaining_tokens@.len() > 0
                    && remaining_tokens@[0].token_type is Eol && remaining_tokens@.skip(1)
                    =~= tokens@.skip(2 * n as int + 1) by {
                    assert(remaining_tokens@ == tokens@.skip(2 * n as int));
                    assert(remaining_tokens@[0] == tokens@[2 * n as int]);
                }
            }
            let remaining_tokens = expect(remaining_tokens, TokenType::Eol)?;
            let ParseTypeInner { name, span, generics } = name;
            return Ok(
                (
                    EnumVariant {
                        name: ParseTypeInner { name, span, generics: Vec::new() },
                        fields: NamedFieldsOrTypesList::TypesList(generics),
                    },
                    remaining_tokens,
                ),
            );
        }
        if remaining_tokens.len() > 0 && remaining_tokens[0].token_type.same_as(&TokenType::Eol) {
            proof {
                if tokens@.len() > 1 && tokens@[0].token_type is Type && tokens@[1].token_type is Eol {
                    assert(remaining_tokens@.skip(1) =~= tokens@.skip(2));
                }
            }
            let (fields, remaining_tokens) = NamedFieldsOrTypesList::parse(
                skip(remaining_tokens, 1),
                parse_ctx,
            )?;
            return Ok((EnumVariant { name, fields }, remaining_tokens));
        }
        Ok(
            (
                EnumVariant { name, fields: NamedFieldsOrTypesList::NamedFields(Vec::new()) },
                remaining_tokens,
            ),
        )
    }
}

impl NamedFieldsOrTypesList {
    /// Named fields one per line, one block deeper; the end of the line of the
    /// last one is consumed too.
    pub fn parse<'a>(tokens: &'a [Token], parse_ctx: &mut ParseCtx) -> (res: Result<
        (Self, &'a [Token]),
        Diagnostics,
    >)
        ensures
            ctx_same(*old(parse_ctx), *final(parse_ctx)),
            res matches Ok((f, rest)) ==> {
                &&& is_suffix(rest@, tokens@)
                &&& f is NamedFields
            },
            old(parse_ctx).level() + old(parse_ctx).indent_step <= u8::MAX && !starts_with_indent(
                skip_empty_lines(tokens@),
                old(parse_ctx).level() + old(parse_ctx).indent_step,
            ) ==> (res matches Ok((f, rest)) && f is NamedFields && f->NamedFields_0@.len() == 0
                && rest@ == tokens@),
    {
        let parse_item = |t: &'a [Token], c: &mut ParseCtx| -> (r: Result<
            (StructDeclField, &'a [Token]),
            Diagnostics,
        >)
            ensures
                parse_post(t@, *old(c), *final(c), r),
                ctx_same(*old(c), *final(c)),
            { StructDeclField::parse(t, c) };
        let (fields, mut remaining_tokens, _diags) = parse_indented_vec_with(
            tokens,
            parse_ctx,
            true,
            parse_item,
        )?;
        if fields.len() > 0 {
            remaining_tokens = expect(remaining_tokens, TokenType::Eol)?;
        }
        Ok((NamedFieldsOrTypesList::NamedFields(fields), remaining_tokens))
    }
}

} // verus!
