use vstd::prelude::*;

use crate::ast::{Expression, Ident, IdentOrType, IdentifierPath, Instance};
use crate::lexer::{Token, TokenType};
use crate::parser::items::expression::{literal_expr, lone_literal};
use crate::parser::items::ident::ident_name;
use crate::parser::items::matching::block_step;
use crate::parser::parsable::{
    is_suffix, lemma_skip_suffix_auto, lemma_suffix_trans_auto, parse_post, skip,
};
use crate::parser::parse_ctx::{ctx_same, ParseCtx};
use crate::parser::items::parse_type::{is_named_type, lone_type_name};
use crate::parser::util::named::{collect_named, has_name, names_distinct, names_sorted, value_named};
use crate::parser::util::{
    continues_with, count_after, count_from, expect, leaves, list_may, list_may_after, may_fail,
    may_give, parse_indented_vec_with, parse_vec_with, Diagnostics,
};

verus! {

broadcast use {lemma_suffix_trans_auto, lemma_skip_suffix_auto};

/// `name: literal`, and nothing after the literal that goes on an
/// expression.
pub open spec fn literal_field(tokens: Seq<Token>) -> bool {
    &&& tokens.len() > 2
    &&& ident_name(tokens[0].token_type) is Some
    &&& tokens[1].token_type is Colon
    &&& lone_literal(tokens.skip(2))
}

/// `tokens` starts with `n` fields `name: literal` separated by comas, and
/// no coma follows the last of them.
pub open spec fn literal_fields(tokens: Seq<Token>, n: nat) -> bool
    decreases n,
{
    &&& n > 0
    &&& literal_field(tokens)
    &&& if n == 1 {
        !(tokens.len() > 3 && tokens[3].token_type is Coma)
    } else {
        tokens.len() > 4 && tokens[3].token_type is Coma && literal_fields(tokens.skip(4), (n - 1) as nat)
    }
}

/// The `k`-th field of `tokens` is given as `field`: its name and the
/// literal written for it.
pub open spec fn field_written(field: (Ident, Expression), tokens: Seq<Token>, k: int) -> bool {
    &&& Some(field.0.name@) == ident_name(tokens[4 * k].token_type)
    &&& literal_expr(field.1, tokens[4 * k + 2].token_type)
}

/// A list read with `f`, which reads a literal field and leaves what
/// follows it, has `n` items on `n` such fields separated by comas, each the
/// field written there.
pub proof fn lemma_literal_fields<'a, F: Fn(&'a [Token], &mut ParseCtx) -> Result<
    ((Ident, Expression), &'a [Token]),
    Diagnostics,
>>(t: Seq<Token>, after: Seq<Token>, f: F, n: nat)
    requires
        literal_fields(t, n),
        forall|ts: &'a [Token], c: &mut ParseCtx, r: Result<((Ident, Expression), &'a [Token]), Diagnostics>|
            #[trigger] f.ensures((ts, c), r) ==> (literal_field(ts@) ==> (r matches Ok((x, rr))
                && field_written(x, ts@, 0) && rr@ == ts@.skip(3))),
    ensures
        count_from(t, after, Some(TokenType::Coma), f, n, t.skip(4 * n - 1)),
        t.len() >= 4 * n - 1,
        forall|items: Seq<(Ident, Expression)>, rest: Seq<Token>|
            #[trigger] list_may(t, after, Some(TokenType::Coma), f, items, rest) ==> items.len() == n
                && forall|k: int| 0 <= k < n ==> field_written(#[trigger] items[k], t, k),
    decreases n,
{
    assert(leaves(f, t, t.skip(3)));
    if n > 1 {
        lemma_literal_fields(t.skip(4), t.skip(3), f, (n - 1) as nat);
        assert(t.skip(3).skip(1) =~= t.skip(4));
        assert(t.skip(4).skip(4 * (n - 1) - 1) =~= t.skip(4 * n - 1));
        assert(t.skip(3)[0] == t[3]);
        assert(count_after(t.skip(3), Some(TokenType::Coma), f, (n - 1) as nat, t.skip(4 * n - 1)));
    } else {
        if t.skip(3).len() > 0 {
            assert(t.skip(3)[0] == t[3]);
        }
        assert(count_after(t.skip(3), Some(TokenType::Coma), f, 0, t.skip(3)));
    }
    assert forall|items: Seq<(Ident, Expression)>, rest: Seq<Token>|
        #[trigger] list_may(t, after, Some(TokenType::Coma), f, items, rest) implies items.len() == n
        && forall|k: int| 0 <= k < n ==> field_written(#[trigger] items[k], t, k) by {
        if may_fail(f, t) {
            let (ts, c, r) = choose|ts: &'a [Token], c: &mut ParseCtx, r: Result<((Ident, Expression), &'a [Token]), Diagnostics>|
                ts@ == t && #[trigger] f.ensures((ts, c), r) && r is Err;
            assert(f.ensures((ts, c), r));
        }
        assert(items.len() > 0);
        let r = choose|r: Seq<Token>|
            #[trigger] may_give(f, t, items[0], r) && list_may_after(
                r,
                Some(TokenType::Coma),
                f,
                items.drop_first(),
                rest,
            );
        let (ts, c, res) = choose|ts: &'a [Token], c: &mut ParseCtx, res: Result<((Ident, Expression), &'a [Token]), Diagnostics>|
            ts@ == t && #[trigger] f.ensures((ts, c), res) && (res matches Ok((x, rr)) && x == items[0]
                && rr@ == r);
        assert(f.ensures((ts, c), res));
        assert(field_written(items[0], t, 0));
        assert(r == t.skip(3));
        if n == 1 {
            if r.len() > 0 {
                assert(r[0] == t[3]);
            }
            assert(!continues_with(r, TokenType::Coma));
            assert(items.drop_first().len() == 0);
        } else {
            assert(r[0] == t[3]);
            assert(continues_with(r, TokenType::Coma));
            assert(r.skip(1) =~= t.skip(4));
            let rest_items = items.drop_first();
            assert(list_may(t.skip(4), r, Some(TokenType::Coma), f, rest_items, rest));
            assert forall|k: int| 0 <= k < n implies field_written(#[trigger] items[k], t, k) by {
                if k > 0 {
                    assert(items[k] == rest_items[k - 1]);
                    assert(field_written(rest_items[k - 1], t.skip(4), k - 1));
                    assert(t.skip(4)[4 * (k - 1)] == t[4 * k]);
                    assert(t.skip(4)[4 * (k - 1) + 2] == t[4 * k + 2]);
                }
            }
        }
    }
}

/// A field of an instance: `name: expression`.
pub fn parse_field<'a>(tokens: &'a [Token], parse_ctx: &mut ParseCtx) -> (res: Result<
    ((Ident, Expression), &'a [Token]),
    Diagnostics,
>)
    ensures
        parse_post(tokens@, *old(parse_ctx), *final(parse_ctx), res),
        ctx_same(*old(parse_ctx), *final(parse_ctx)),
        res matches Ok(((name, _), _)) ==> Some(name.name@) == ident_name(tokens@[0].token_type),
        literal_field(tokens@) ==> (res matches Ok(((_, e), rest)) && literal_expr(
            e,
            tokens@[2].token_type,
        ) && rest@ == tokens@.skip(3)),
    decreases tokens@.len(), 0int,
{
    let (ident, remaining_tokens) = Ident::parse(tokens, parse_ctx)?;
    let remaining_tokens = expect(remaining_tokens, TokenType::Colon)?;
    proof {
        if tokens@.len() > 2 && tokens@[1].token_type is Colon {
            assert(remaining_tokens@ =~= tokens@.skip(2));
            assert(remaining_tokens@.skip(1) =~= tokens@.skip(3));
        }
    }
    let (expression, remaining_tokens) = Expression::parse(remaining_tokens, parse_ctx)?;
    Ok(((ident, expression), remaining_tokens))
}

/// The name written for the `k`-th of the fields that follow `tokens[0]`.
pub open spec fn field_name(tokens: Seq<Token>, k: int) -> Seq<char> {
    ident_name(tokens[4 * k + 1].token_type)->Some_0
}

/// `Type a: 1, b: 2`: a type name alone, then `n` literal fields on the
/// same line.
pub open spec fn inline_instance(tokens: Seq<Token>, n: nat) -> bool {
    &&& lone_type_name(tokens)
    &&& literal_fields(tokens.skip(1), n)
}

/// `inst` is the instance of `inline_instance(tokens, n)`: named by the type
/// of `tokens[0]`, with a field for each name written and none other; where
/// no name is written twice, each field holds the literal written for it.
pub open spec fn instance_written(inst: Instance, tokens: Seq<Token>, n: nat) -> bool {
    &&& inst.name.path@.len() == 1
    &&& inst.name.path@[0] matches IdentOrType::Type(t) && is_named_type(t, tokens[0].token_type)
    &&& forall|k: int| 0 <= k < n ==> has_name(inst.fields@, #[trigger] field_name(tokens, k))
    &&& forall|i: int|
        0 <= i < inst.fields@.len() ==> exists|k: int|
            0 <= k < n && #[trigger] field_name(tokens, k) == (#[trigger] inst.fields@[i]).0.name@
    &&& (forall|j: int, k: int| 0 <= j < k < n ==> field_name(tokens, j) != field_name(tokens, k))
        ==> forall|k: int|
        0 <= k < n ==> (value_named(inst.fields@, #[trigger] field_name(tokens, k)) matches Some(e)
            && literal_expr(e, tokens[4 * k + 3].token_type))
}

/// The path of an instance starts with a name or a type.
pub open spec fn starts_path(tokens: Seq<Token>) -> bool {
    tokens.len() > 0 && (tokens[0].token_type is Type || ident_name(tokens[0].token_type) is Some)
}

impl Instance {
    /// A path (a struct, or an enum variant), then its fields: separated by
    /// comas on the same line, or one per line on the lines below, one block
    /// deeper. A field given twice keeps the last value.
    pub fn parse<'a>(tokens: &'a [Token], parse_ctx: &mut ParseCtx) -> (res: Result<
        (Self, &'a [Token]),
        Diagnostics,
    >)
        ensures
            ctx_same(*old(parse_ctx), *final(parse_ctx)),
            res matches Ok((inst, rest)) ==> {
                &&& is_suffix(rest@, tokens@)
                &&& names_distinct(inst.fields@)
                &&& names_sorted(inst.fields@)
                &&& starts_path(tokens@) ==> inst.name.path@.len() > 0
                &&& inst.name.path@.len() > 0 ==> rest@.len() < tokens@.len()
            },
            old(parse_ctx).level() + old(parse_ctx).indent_step <= u8::MAX ==> res is Ok,
            forall|n: nat|
                #![trigger literal_fields(tokens@.skip(1), n)]
                inline_instance(tokens@, n) ==> (res matches Ok((inst, rest)) && instance_written(
                    inst,
                    tokens@,
                    n,
                ) && rest@ == tokens@.skip(4 * n as int)),
        decreases tokens@.len(), 1int,
    {
        let (identifier_path, remaining_tokens) = IdentifierPath::parse(tokens, parse_ctx)?;
        if remaining_tokens.len() == 0 {
            return Ok((Instance { name: identifier_path, fields: Vec::new() }, remaining_tokens));
        }
        if remaining_tokens[0].token_type.same_as(&TokenType::Eol) {
            let after_eol = skip(remaining_tokens, 1);
            let parse_item = |t: &'a [Token], c: &mut ParseCtx| -> (r: Result<
                ((Ident, Expression), &'a [Token]),
                Diagnostics,
            >)
                requires
                    is_suffix(t@, after_eol@),
                ensures
                    parse_post(t@, *old(c), *final(c), r),
                    ctx_same(*old(c), *final(c)),
                { parse_field(t, c) };
            // the fields are one block deeper, as deep as the first of them
            let saved_step = parse_ctx.indent_step;
            let step = block_step(parse_ctx, after_eol);
            parse_ctx.indent_step = step;
            let fields_res = parse_indented_vec_with(after_eol, parse_ctx, true, parse_item);
            parse_ctx.indent_step = saved_step;
            let (fields, new_remaining_tokens, _diags) = fields_res?;
            if fields.len() == 0 {
                return Ok(
                    (Instance { name: identifier_path, fields: Vec::new() }, remaining_tokens),
                );
            }
            Ok(
                (
                    Instance { name: identifier_path, fields: collect_named(fields) },
                    new_remaining_tokens,
                ),
            )
        } else {
            let parse_item = |t: &'a [Token], c: &mut ParseCtx| -> (r: Result<
                ((Ident, Expression), &'a [Token]),
                Diagnostics,
            >)
                requires
                    is_suffix(t@, remaining_tokens@),
                ensures
                    parse_post(t@, *old(c), *final(c), r),
                    ctx_same(*old(c), *final(c)),
                    literal_field(t@) ==> (r matches Ok((x, rr)) && field_written(x, t@, 0) && rr@
                        == t@.skip(3)),
                { parse_field(t, c) };
            let ghost after_path = remaining_tokens@;
            proof {
                assert forall|n: nat| #[trigger] literal_fields(tokens@.skip(1), n) && inline_instance(
                    tokens@,
                    n,
                ) implies count_from(
                    after_path,
                    after_path,
                    Some(TokenType::Coma),
                    parse_item,
                    n,
                    after_path.skip(4 * n - 1),
                ) && after_path.skip(4 * n - 1) =~= tokens@.skip(4 * n as int) by {
                    assert(after_path =~= tokens@.skip(1));
                    lemma_literal_fields(after_path, after_path, parse_item, n);
                }
            }
            let (fields, remaining_tokens, _diags) = parse_vec_with(
                remaining_tokens,
                Some(TokenType::Coma),
                parse_ctx,
                parse_item,
            );
            let ghost pairs = fields@;
            let collected = collect_named(fields);
            proof {
                assert forall|n: nat| #[trigger] literal_fields(tokens@.skip(1), n) && inline_instance(
                    tokens@,
                    n,
                ) implies instance_written(
                    Instance { name: identifier_path, fields: collected },
                    tokens@,
                    n,
                ) by {
                    assert(after_path =~= tokens@.skip(1));
                    lemma_literal_fields(after_path, after_path, parse_item, n);
                    assert(pairs.len() == n);
                    assert forall|k: int| 0 <= k < n implies #[trigger] pairs[k].0.name@ == field_name(
                        tokens@,
                        k,
                    ) && literal_expr(pairs[k].1, tokens@[4 * k + 3].token_type) by {
                        assert(field_written(pairs[k], after_path, k));
                        assert(after_path[4 * k] == tokens@[4 * k + 1]);
                        assert(after_path[4 * k + 2] == tokens@[4 * k + 3]);
                    }
                    assert forall|k: int| 0 <= k < n implies has_name(
                        collected@,
                        #[trigger] field_name(tokens@, k),
                    ) by {
                        assert(has_name(collected@, pairs[k].0.name@));
                    }
                    assert forall|i: int| 0 <= i < collected@.len() implies exists|k: int|
                        0 <= k < n && #[trigger] field_name(tokens@, k) == (#[trigger] collected@[i]).0.name@ by {
                        assert(has_name(pairs, collected@[i].0.name@));
                        let k = choose|k: int| 0 <= k < pairs.len() && #[trigger] pairs[k].0.name@
                            == collected@[i].0.name@;
                        assert(pairs[k].0.name@ == field_name(tokens@, k));
                    }
                    if forall|j: int, k: int| 0 <= j < k < n ==> field_name(tokens@, j) != field_name(tokens@, k) {
                        assert(names_distinct(pairs)) by {
                            assert forall|j: int, k: int| 0 <= j < k < pairs.len() implies #[trigger] pairs[j].0.name@
                                != #[trigger] pairs[k].0.name@ by {
                                assert(pairs[j].0.name@ == field_name(tokens@, j));
                                assert(pairs[k].0.name@ == field_name(tokens@, k));
                            }
                        }
                        assert forall|k: int| 0 <= k < n implies (value_named(
                            collected@,
                            #[trigger] field_name(tokens@, k),
                        ) matches Some(e) && literal_expr(e, tokens@[4 * k + 3].token_type)) by {
                            assert(value_named(collected@, pairs[k].0.name@) == Some(pairs[k].1));
                        }
                    }
                }
            }
            Ok((Instance { name: identifier_path, fields: collected }, remaining_tokens))
        }
    }
}

} // verus!
