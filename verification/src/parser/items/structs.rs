use vstd::prelude::*;

use crate::ast::{Ident, ParseType, ParseTypeInner, StructDecl, StructDeclField};
use crate::lexer::chars::text_is;
use crate::lexer::{Token, TokenType};
use crate::parser::items::conditional::expect_keyword;
use crate::parser::items::ident::ident_name;
use crate::parser::items::parse_type::{is_named_type, lone_type_name, named_with_args, type_args};
use crate::parser::parsable::{
    is_suffix, lemma_skip_suffix_auto, lemma_suffix_refl, lemma_suffix_trans_auto, parse_post,
    skip, starts_with_kw,
};
use crate::parser::parse_ctx::{ctx_same, ParseCtx};
use crate::parser::util::{
    expect, fail, fails_on, gives, ignore_empty_lines, lemma_skip_empty_lines_suffix, may_fail,
    may_give, skip_empty_lines, starts_with_indent, Diagnostics, ParseError,
};

verus! {

broadcast use {lemma_suffix_trans_auto, lemma_skip_suffix_auto};

/// The token is the operator `<`, which marks a public field.
pub open spec fn is_public_mark(t: TokenType) -> bool {
    t matches TokenType::Operator(op) && op@ == "<"@
}

/// A line that is the keyword `keyword` followed by a type name alone.
pub open spec fn declares_type_line(tokens: Seq<Token>, keyword: Seq<char>) -> bool {
    &&& starts_with_kw(tokens, keyword)
    &&& tokens.len() > 2
    &&& tokens[1].token_type is Type
    &&& tokens[2].token_type is Eol
}

/// `struct`, a type name, its `n` generic parameters (type names separated
/// by comas), and the end of the line.
pub open spec fn struct_with_generics(tokens: Seq<Token>, n: nat) -> bool {
    &&& starts_with_kw(tokens, "struct"@)
    &&& tokens.len() > 2 * n + 1
    &&& tokens[1].token_type is Type
    &&& type_args(tokens.skip(2), n)
    &&& tokens[2 * n as int + 1].token_type is Eol
}

impl StructDecl {
    /// `struct`, the type with its generic parameters, the end of the line,
    /// and the fields one per line, one block deeper.
    pub fn parse<'a>(tokens: &'a [Token], parse_ctx: &mut ParseCtx) -> (res: Result<
        (Self, &'a [Token]),
        Diagnostics,
    >)
        ensures
            parse_post(tokens@, *old(parse_ctx), *final(parse_ctx), res),
            ctx_same(*old(parse_ctx), *final(parse_ctx)),
            res is Ok ==> starts_with_kw(tokens@, "struct"@),
            declares_type_line(tokens@, "struct"@) && old(parse_ctx).level() + old(
                parse_ctx,
            ).indent_step <= u8::MAX ==> (res matches Ok((d, _)) && is_named_type(
                ParseType::Type(d.name),
                tokens@[1].token_type,
            )),
            forall|fields: Seq<StructDeclField>, rest: Seq<Token>|
                declares_type_line(tokens@, "struct"@) && old(parse_ctx).level() + old(
                    parse_ctx,
                ).indent_step <= u8::MAX && #[trigger] field_lines(
                    tokens@.skip(3),
                    old(parse_ctx).level() + old(parse_ctx).indent_step,
                    fields,
                    rest,
                ) ==> (res matches Ok((d, r)) && d.fields@ == fields && r@ == rest),
            declares_type_line(tokens@, "struct"@) ==> (res matches Ok((d, r)) ==> field_lines_may(
                tokens@.skip(3),
                old(parse_ctx).level() + old(parse_ctx).indent_step,
                d.fields@,
                r@,
            )),
            forall|n: nat|
                #![trigger type_args(tokens@.skip(2), n)]
                struct_with_generics(tokens@, n) && old(parse_ctx).level() + old(parse_ctx).indent_step
                    <= u8::MAX ==> (res matches Ok((d, _)) && named_with_args(d.name, tokens@.skip(1), n)),
            forall|n: nat, fields: Seq<StructDeclField>, rest: Seq<Token>|
                #![trigger type_args(tokens@.skip(2), n), field_lines(tokens@.skip(2 * n as int + 2), old(parse_ctx).level() + old(parse_ctx).indent_step, fields, rest)]
                struct_with_generics(tokens@, n) && old(parse_ctx).level() + old(parse_ctx).indent_step
                    <= u8::MAX && field_lines(
                    tokens@.skip(2 * n as int + 2),
                    old(parse_ctx).level() + old(parse_ctx).indent_step,
                    fields,
                    rest,
                ) ==> (res matches Ok((d, r)) && named_with_args(d.name, tokens@.skip(1), n) && d.fields@
                    == fields && r@ == rest),
    {
        let remaining_tokens = expect_keyword(tokens, "struct")?;
        assert(remaining_tokens@ =~= tokens@.skip(1));
        proof {
            if tokens@.len() > 1 {
                assert(tokens@.skip(1).skip(1) =~= tokens@.skip(2));
            }
        }
        let (name, remaining_tokens) = ParseTypeInner::parse(remaining_tokens, parse_ctx)?;
        let ghost after_name = remaining_tokens@;
        let remaining_tokens = expect(remaining_tokens, TokenType::Eol)?;
        proof {
            if declares_type_line(tokens@, "struct"@) {
                assert(tokens@.skip(2).skip(1) =~= tokens@.skip(3));
            }
            assert forall|n: nat| #[trigger] type_args(tokens@.skip(2), n) && struct_with_generics(
                tokens@,
                n,
            ) implies remaining_tokens@ == tokens@.skip(2 * n as int + 2) by {
                assert(tokens@.skip(1).skip(2 * n as int) =~= tokens@.skip(2 * n as int + 1));
                assert(after_name == tokens@.skip(2 * n as int + 1));
                assert(after_name[0] == tokens@[2 * n as int + 1]);
                assert(tokens@.skip(2 * n as int + 1).skip(1) =~= tokens@.skip(2 * n as int + 2));
            }
        }
        let (fields, remaining_tokens) = parse_struct_fields(remaining_tokens, parse_ctx)?;
        Ok((StructDecl { name, fields }, remaining_tokens))
    }
}

/// The lines of `t` at the indentation `deeper` give the fields `items`,
/// and the list leaves `rest`: empty lines before a line are skipped; the
/// list ends at the end of the tokens, at a line that is not that deep or
/// that is no field (leaving that line, its empty lines skipped), or where
/// no line end follows a field (leaving what follows the field).
pub open spec fn field_lines(
    t: Seq<Token>,
    deeper: int,
    items: Seq<StructDeclField>,
    rest: Seq<Token>,
) -> bool
    decreases items.len(), 0int,
{
    let q = skip_empty_lines(t);
    if t.len() == 0 {
        items.len() == 0 && rest == t
    } else if !starts_with_indent(q, deeper) || fails_on(StructDeclField::parse, q.skip(1)) {
        items.len() == 0 && rest == q
    } else {
        items.len() > 0 && exists|r: Seq<Token>|
            #[trigger] gives(StructDeclField::parse, q.skip(1), items[0], r) && field_after(
                r,
                deeper,
                items.drop_first(),
                rest,
            )
    }
}

/// After a field that left `r`, the list goes on with `items` and leaves
/// `rest`.
pub open spec fn field_after(r: Seq<Token>, deeper: int, items: Seq<StructDeclField>, rest: Seq<Token>) -> bool
    decreases items.len(), 1int,
{
    if r.len() > 0 && r[0].token_type is Eol {
        field_lines(r.skip(1), deeper, items, rest)
    } else {
        items.len() == 0 && rest == r
    }
}

/// The lines of `t` at the indentation `deeper` can be the fields `items`
/// and leave `rest`: as `field_lines`, where each field is what a field can
/// be read as on its line, and the list can end at a line where reading a
/// field can fail.
pub open spec fn field_lines_may(
    t: Seq<Token>,
    deeper: int,
    items: Seq<StructDeclField>,
    rest: Seq<Token>,
) -> bool
    decreases items.len(), 0int,
{
    let q = skip_empty_lines(t);
    if t.len() == 0 {
        items.len() == 0 && rest == t
    } else if !starts_with_indent(q, deeper) {
        items.len() == 0 && rest == q
    } else {
        ||| items.len() == 0 && rest == q && may_fail(StructDeclField::parse, q.skip(1))
        ||| items.len() > 0 && exists|r: Seq<Token>|
            #[trigger] may_give(StructDeclField::parse, q.skip(1), items[0], r) && field_may_after(
                r,
                deeper,
                items.drop_first(),
                rest,
            )
    }
}

/// After a field that left `r`, the list can go on with `items` and leave
/// `rest`.
pub open spec fn field_may_after(
    r: Seq<Token>,
    deeper: int,
    items: Seq<StructDeclField>,
    rest: Seq<Token>,
) -> bool
    decreases items.len(), 1int,
{
    if r.len() > 0 && r[0].token_type is Eol {
        field_lines_may(r.skip(1), deeper, items, rest)
    } else {
        items.len() == 0 && rest == r
    }
}

/// The fields of a struct, one per line one block deeper, each followed by
/// the end of its line. Empty lines between them are skipped. It stops at
/// the first line that is not a field; it fails only when the block would
/// be deeper than a line can be indented.
#[verifier::rlimit(50)]
pub fn parse_struct_fields<'a>(tokens: &'a [Token], parse_ctx: &mut ParseCtx) -> (res: Result<
    (Vec<StructDeclField>, &'a [Token]),
    Diagnostics,
>)
    ensures
        ctx_same(*old(parse_ctx), *final(parse_ctx)),
        res is Err <==> old(parse_ctx).level() + old(parse_ctx).indent_step > u8::MAX,
        res matches Ok((fields, rest)) ==> {
            &&& is_suffix(rest@, tokens@)
            &&& fields@.len() > 0 ==> rest@.len() < tokens@.len()
        },
        forall|items: Seq<StructDeclField>, rest: Seq<Token>|
            #[trigger] field_lines(
                tokens@,
                old(parse_ctx).level() + old(parse_ctx).indent_step,
                items,
                rest,
            ) ==> (res matches Ok((v, r)) ==> v@ == items && r@ == rest),
        res matches Ok((v, r)) ==> field_lines_may(
            tokens@,
            old(parse_ctx).level() + old(parse_ctx).indent_step,
            v@,
            r@,
        ),
{
    parse_ctx.try_indent()?;
    let ghost inner = *parse_ctx;
    let ghost d = inner.level() as int;
    let mut remaining_tokens = tokens;
    let mut fields: Vec<StructDeclField> = Vec::new();
    proof {
        lemma_suffix_refl(tokens@);
        assert forall|items: Seq<StructDeclField>, rest: Seq<Token>|
            #[trigger] field_lines(tokens@, d, items, rest) implies fields@.len() <= items.len()
            && fields@ == items.take(fields@.len() as int) && field_lines(
            remaining_tokens@,
            d,
            items.skip(fields@.len() as int),
            rest,
        ) by {
            assert(items.skip(0) =~= items);
            assert(items.take(0) =~= fields@);
        }
        assert forall|rem: Seq<StructDeclField>, rest: Seq<Token>|
            #[trigger] field_lines_may(remaining_tokens@, d, rem, rest) implies field_lines_may(
            tokens@,
            d,
            fields@ + rem,
            rest,
        ) by {
            assert(fields@ + rem =~= rem);
        }
    }
    loop
        invariant_except_break
            forall|rem: Seq<StructDeclField>, rest: Seq<Token>|
                #[trigger] field_lines_may(remaining_tokens@, d, rem, rest) ==> field_lines_may(
                    tokens@,
                    d,
                    fields@ + rem,
                    rest,
                ),
            forall|items: Seq<StructDeclField>, rest: Seq<Token>|
                #[trigger] field_lines(tokens@, d, items, rest) ==> fields@.len() <= items.len()
                    && fields@ == items.take(fields@.len() as int) && field_lines(
                    remaining_tokens@,
                    d,
                    items.skip(fields@.len() as int),
                    rest,
                ),
        invariant
            d == inner.level(),
            is_suffix(remaining_tokens@, tokens@),
            fields@.len() > 0 ==> remaining_tokens@.len() < tokens@.len(),
            ctx_same(inner, *parse_ctx),
            inner.level() == old(parse_ctx).level() + old(parse_ctx).indent_step,
            inner.indent_step == old(parse_ctx).indent_step,
            inner.is_inside_fn_type_decl == old(parse_ctx).is_inside_fn_type_decl,
        ensures
            is_suffix(remaining_tokens@, tokens@),
            fields@.len() > 0 ==> remaining_tokens@.len() < tokens@.len(),
            ctx_same(inner, *parse_ctx),
            forall|items: Seq<StructDeclField>, rest: Seq<Token>|
                #[trigger] field_lines(tokens@, d, items, rest) ==> fields@ == items
                    && remaining_tokens@ == rest,
            field_lines_may(tokens@, d, fields@, remaining_tokens@),
        decreases remaining_tokens@.len(),
    {
        let ghost st = remaining_tokens@;
        let ghost n = fields@.len() as int;
        if remaining_tokens.len() == 0 {
            proof {
                assert forall|items: Seq<StructDeclField>, rest: Seq<Token>|
                    #[trigger] field_lines(tokens@, d, items, rest) implies fields@ == items
                    && remaining_tokens@ == rest by {
                    assert(field_lines(st, d, items.skip(n), rest));
                    assert(items =~= items.take(n));
                }
                assert(field_lines_may(st, d, Seq::<StructDeclField>::empty(), st));
                assert(fields@ + Seq::<StructDeclField>::empty() =~= fields@);
            }
            break ;
        }
        let ghost before_lines = remaining_tokens@;
        remaining_tokens = ignore_empty_lines(remaining_tokens);
        proof {
            lemma_skip_empty_lines_suffix(before_lines);
        }
        let tokens_backup = remaining_tokens;
        let ghost q = remaining_tokens@;
        match parse_ctx.consume_indent(remaining_tokens) {
            Ok(new_remaining_tokens) => {
                remaining_tokens = new_remaining_tokens;
            },
            Err(_) => {
                proof {
                    assert forall|items: Seq<StructDeclField>, rest: Seq<Token>|
                        #[trigger] field_lines(tokens@, d, items, rest) implies fields@ == items
                        && remaining_tokens@ == rest by {
                        assert(field_lines(st, d, items.skip(n), rest));
                        assert(!starts_with_indent(q, d));
                        assert(items =~= items.take(n));
                    }
                    assert(field_lines_may(st, d, Seq::<StructDeclField>::empty(), q));
                    assert(fields@ + Seq::<StructDeclField>::empty() =~= fields@);
                }
                break ;
            },
        }
        let ghost line = remaining_tokens@;
        assert(starts_with_indent(q, d));
        match StructDeclField::parse(remaining_tokens, parse_ctx) {
            Ok((field, new_remaining_tokens)) => {
                let ghost r = new_remaining_tokens@;
                let ghost before_fields = fields@;
                remaining_tokens = new_remaining_tokens;
                fields.push(field);
                proof {
                    assert forall|items: Seq<StructDeclField>, rest: Seq<Token>|
                        #[trigger] field_lines(tokens@, d, items, rest) implies n < items.len()
                        && fields@ == items.take(n + 1) && field_after(r, d, items.skip(n + 1), rest) by {
                        let its = items.skip(n);
                        assert(field_lines(st, d, its, rest));
                        assert(!fails_on(StructDeclField::parse, line));
                        let w = choose|w: Seq<Token>|
                            #[trigger] gives(StructDeclField::parse, line, its[0], w) && field_after(
                                w,
                                d,
                                its.drop_first(),
                                rest,
                            );
                        assert(gives(StructDeclField::parse, line, its[0], w));
                        assert(its[0] == field && w == r);
                        assert(its.drop_first() =~= items.skip(n + 1));
                        assert(fields@ =~= items.take(n + 1));
                    }
                    assert(may_give(StructDeclField::parse, line, field, r));
                    assert forall|rem: Seq<StructDeclField>, rest: Seq<Token>|
                        #[trigger] field_may_after(r, d, rem, rest) implies field_lines_may(
                        tokens@,
                        d,
                        fields@ + rem,
                        rest,
                    ) by {
                        let full = seq![field] + rem;
                        assert(full[0] == field);
                        assert(full.drop_first() =~= rem);
                        assert(field_lines_may(st, d, full, rest));
                        assert(fields@ + rem =~= before_fields + full);
                    }
                }
            },
            Err(_) => {
                remaining_tokens = tokens_backup;
                proof {
                    assert forall|items: Seq<StructDeclField>, rest: Seq<Token>|
                        #[trigger] field_lines(tokens@, d, items, rest) implies fields@ == items
                        && remaining_tokens@ == rest by {
                        let its = items.skip(n);
                        assert(field_lines(st, d, its, rest));
                        if !fails_on(StructDeclField::parse, line) {
                            let w = choose|w: Seq<Token>|
                                #[trigger] gives(StructDeclField::parse, line, its[0], w);
                            assert(gives(StructDeclField::parse, line, its[0], w));
                        }
                        assert(items =~= items.take(n));
                    }
                    assert(may_fail(StructDeclField::parse, line));
                    assert(field_lines_may(st, d, Seq::<StructDeclField>::empty(), q));
                    assert(fields@ + Seq::<StructDeclField>::empty() =~= fields@);
                }
                break ;
            },
        }
        let ghost r = remaining_tokens@;
        match expect(remaining_tokens, TokenType::Eol) {
            Ok(new_remaining_tokens) => {
                remaining_tokens = new_remaining_tokens;
            },
            Err(_) => {
                proof {
                    assert forall|items: Seq<StructDeclField>, rest: Seq<Token>|
                        #[trigger] field_lines(tokens@, d, items, rest) implies fields@ == items
                        && remaining_tokens@ == rest by {
                        assert(items =~= items.take(n + 1));
                    }
                    assert(field_may_after(r, d, Seq::<StructDeclField>::empty(), r));
                    assert(fields@ + Seq::<StructDeclField>::empty() =~= fields@);
                }
                break ;
            },
        }
        proof {
            assert forall|rem: Seq<StructDeclField>, rest: Seq<Token>|
                #[trigger] field_lines_may(remaining_tokens@, d, rem, rest) implies field_lines_may(
                tokens@,
                d,
                fields@ + rem,
                rest,
            ) by {
                assert(field_may_after(r, d, rem, rest));
            }
        }
    }
    parse_ctx.dedent();
    Ok((fields, remaining_tokens))
}

/// Where the name of a field starts: after the public mark, if any.
pub open spec fn field_start(tokens: Seq<Token>) -> int {
    if tokens.len() > 0 && is_public_mark(tokens[0].token_type) {
        1
    } else {
        0
    }
}

/// `name : T` from `at` on, where the type starts with a type name.
pub open spec fn name_colon_type(tokens: Seq<Token>, at: int) -> bool {
    &&& 0 <= at
    &&& tokens.len() > at + 2
    &&& ident_name(tokens[at].token_type) is Some
    &&& tokens[at + 1].token_type is Colon
    &&& tokens[at + 2].token_type is Type
}

impl StructDeclField {
    /// `name: type`, public when written `<name: type`.
    pub fn parse<'a>(tokens: &'a [Token], parse_ctx: &mut ParseCtx) -> (res: Result<
        (Self, &'a [Token]),
        Diagnostics,
    >)
        ensures
            parse_post(tokens@, *old(parse_ctx), *final(parse_ctx), res),
            ctx_same(*old(parse_ctx), *final(parse_ctx)),
            res matches Ok((f, _)) ==> {
                &&& f.public == is_public_mark(tokens@[0].token_type)
                &&& Some(f.name.name@) == ident_name(
                    tokens@[if f.public {
                        1int
                    } else {
                        0int
                    }].token_type,
                )
            },
            name_colon_type(tokens@, field_start(tokens@)) ==> res is Ok,
            name_colon_type(tokens@, field_start(tokens@)) && lone_type_name(
                tokens@.skip(field_start(tokens@) + 2),
            ) ==> (res matches Ok((f, rest)) && is_named_type(
                f.ty,
                tokens@[field_start(tokens@) + 2].token_type,
            ) && rest@ == tokens@.skip(field_start(tokens@) + 3)),
    {
        if tokens.len() == 0 {
            return fail(ParseError::UnexpectedEof(TokenType::Ident(String::new())));
        }
        let mut remaining_tokens = tokens;
        let public = match &tokens[0].token_type {
            TokenType::Operator(op) => text_is(op.as_str(), "<"),
            _ => false,
        };
        if public {
            remaining_tokens = skip(tokens, 1);
        }
        proof {
            assert(tokens@.skip(0) =~= tokens@);
        }
        let ghost p = field_start(tokens@);
        assert(remaining_tokens@ == tokens@.skip(p));
        let (ident, remaining_tokens) = Ident::parse(remaining_tokens, parse_ctx)?;
        let remaining_tokens = expect(remaining_tokens, TokenType::Colon)?;
        assert(remaining_tokens@ =~= tokens@.skip(p + 2));
        let (parse_type, remaining_tokens) = ParseType::parse(remaining_tokens, parse_ctx)?;
        proof {
            if lone_type_name(tokens@.skip(p + 2)) {
                assert(remaining_tokens@ =~= tokens@.skip(p + 3));
            }
        }
        Ok((StructDeclField { name: ident, ty: parse_type, public }, remaining_tokens))
    }
}

/// A signature of a trait: `name : type`, then the end of the line.
pub fn parse_signature<'a>(tokens: &'a [Token], parse_ctx: &mut ParseCtx) -> (res: Result<
    ((Ident, ParseType), &'a [Token]),
    Diagnostics,
>)
    ensures
        parse_post(tokens@, *old(parse_ctx), *final(parse_ctx), res),
        ctx_same(*old(parse_ctx), *final(parse_ctx)),
        res matches Ok(((name, _), _)) ==> Some(name.name@) == ident_name(tokens@[0].token_type),
        name_colon_type(tokens@, 0) && tokens@.len() > 3 && tokens@[3].token_type is Eol ==> (res matches Ok(
            ((_, t), rest),
        ) && is_named_type(t, tokens@[2].token_type) && rest@ == tokens@.skip(4)),
{
    let (ident, remaining_tokens) = Ident::parse(tokens, parse_ctx)?;
    let remaining_tokens = expect(remaining_tokens, TokenType::Colon)?;
    assert(remaining_tokens@ =~= tokens@.skip(2));
    let (parse_type, remaining_tokens) = ParseType::parse(remaining_tokens, parse_ctx)?;
    proof {
        if tokens@.len() > 3 && tokens@[2].token_type is Type && tokens@[3].token_type is Eol {
            assert(lone_type_name(tokens@.skip(2)));
            assert(remaining_tokens@ =~= tokens@.skip(3));
        }
    }
    let remaining_tokens = expect(remaining_tokens, TokenType::Eol)?;
    Ok(((ident, parse_type), remaining_tokens))
}

} // verus!
