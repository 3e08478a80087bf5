use vstd::prelude::*;

use crate::ast::{FunctionDecl, Ident, Impl, ParseType, ParseTypeInner, TraitDecl};
use crate::lexer::{Token, TokenType};
use crate::parser::items::conditional::expect_keyword;
use crate::parser::items::parse_type::is_named_type;
use crate::parser::items::structs::{declares_type_line, parse_signature};
use crate::parser::parsable::{
    is_suffix, lemma_skip_suffix_auto, lemma_suffix_trans_auto, parse_post, starts_with_kw,
};
use crate::parser::parse_ctx::{ctx_same, ParseCtx};
use crate::parser::util::named::{insert_named, names_distinct, names_sorted, value_named};
use crate::parser::util::{
    expect, fails_on, gives, ignore_empty_lines, lemma_skip_empty_lines_suffix, may_fail, may_give,
    skip_empty_lines, starts_with_indent, Diagnostics,
};

verus! {

broadcast use {lemma_suffix_trans_auto, lemma_skip_suffix_auto};

/// The lines of `t` at the indentation `deeper` are the methods `decls`,
/// and the list leaves `rest`: empty lines before a line are skipped; the
/// list ends at the end of the tokens, at a line that is not that deep
/// (leaving that line, its empty lines skipped), or at a line that is no
/// method (leaving what follows its indentation).
pub open spec fn method_lines(t: Seq<Token>, deeper: int, decls: Seq<FunctionDecl>, rest: Seq<Token>) -> bool
    decreases decls.len(),
{
    let q = skip_empty_lines(t);
    if t.len() == 0 {
        decls.len() == 0 && rest == t
    } else if !starts_with_indent(q, deeper) {
        decls.len() == 0 && rest == q
    } else if fails_on(FunctionDecl::parse, q.skip(1)) {
        decls.len() == 0 && rest == q.skip(1)
    } else {
        decls.len() > 0 && exists|r: Seq<Token>|
            #[trigger] gives(FunctionDecl::parse, q.skip(1), decls[0], r) && method_lines(
                r,
                deeper,
                decls.drop_first(),
                rest,
            )
    }
}

/// The lines of `t` at the indentation `deeper` can be the methods `decls`
/// and leave `rest`: as `method_lines`, where each method is what a method
/// can be read as on its line, and the list can end at a line where reading
/// a method can fail.
pub open spec fn method_lines_may(t: Seq<Token>, deeper: int, decls: Seq<FunctionDecl>, rest: Seq<Token>) -> bool
    decreases decls.len(),
{
    let q = skip_empty_lines(t);
    if t.len() == 0 {
        decls.len() == 0 && rest == t
    } else if !starts_with_indent(q, deeper) {
        decls.len() == 0 && rest == q
    } else {
        ||| decls.len() == 0 && rest == q.skip(1) && may_fail(FunctionDecl::parse, q.skip(1))
        ||| decls.len() > 0 && exists|r: Seq<Token>|
            #[trigger] may_give(FunctionDecl::parse, q.skip(1), decls[0], r) && method_lines_may(
                r,
                deeper,
                decls.drop_first(),
                rest,
            )
    }
}

/// The methods of an impl can be `methods` after its lines `t` at the
/// indentation `deeper`, leaving `rest`: each name has the last of the
/// methods that the lines can be read as.
pub open spec fn methods_may(
    t: Seq<Token>,
    deeper: int,
    methods: Seq<(Ident, FunctionDecl)>,
    rest: Seq<Token>,
) -> bool {
    exists|decls: Seq<FunctionDecl>|
        #[trigger] method_lines_may(t, deeper, decls, rest) && forall|n: Seq<char>|
            #[trigger] value_named(methods, n) == last_named(decls, n)
}

/// The last of `decls` named `name`, if any: a method defined twice keeps
/// its last definition.
pub open spec fn last_named(decls: Seq<FunctionDecl>, name: Seq<char>) -> Option<FunctionDecl>
    decreases decls.len(),
{
    if decls.len() == 0 {
        None
    } else if decls.last().name.name@ == name {
        Some(decls.last())
    } else {
        last_named(decls.drop_last(), name)
    }
}

impl Impl {
    /// `impl`, the type, the end of the line, and its methods one per line,
    /// one block deeper. A method defined twice keeps the last definition.
    /// It stops at the first line that is not a method.
    #[verifier::rlimit(50)]
    pub fn parse<'a>(tokens: &'a [Token], parse_ctx: &mut ParseCtx) -> (res: Result<
        (Self, &'a [Token]),
        Diagnostics,
    >)
        ensures
            parse_post(tokens@, *old(parse_ctx), *final(parse_ctx), res),
            ctx_same(*old(parse_ctx), *final(parse_ctx)),
            res is Ok ==> starts_with_kw(tokens@, "impl"@),
            res matches Ok((i, _)) ==> names_distinct(i.methods@) && names_sorted(i.methods@),
            declares_type_line(tokens@, "impl"@) && old(parse_ctx).level() + old(
                parse_ctx,
            ).indent_step <= u8::MAX ==> (res matches Ok((i, _)) && is_named_type(
                ParseType::Type(i.name),
                tokens@[1].token_type,
            )),
            forall|decls: Seq<FunctionDecl>, rest: Seq<Token>|
                declares_type_line(tokens@, "impl"@) && old(parse_ctx).level() + old(
                    parse_ctx,
                ).indent_step <= u8::MAX && #[trigger] method_lines(
                    tokens@.skip(3),
                    old(parse_ctx).level() + old(parse_ctx).indent_step,
                    decls,
                    rest,
                ) ==> (res matches Ok((i, r)) && r@ == rest && forall|n: Seq<char>|
                    #[trigger] value_named(i.methods@, n) == last_named(decls, n)),
            declares_type_line(tokens@, "impl"@) ==> (res matches Ok((i, r)) ==> methods_may(
                tokens@.skip(3),
                old(parse_ctx).level() + old(parse_ctx).indent_step,
                i.methods@,
                r@,
            )),
    {
        let remaining_tokens = expect_keyword(tokens, "impl")?;
        assert(remaining_tokens@ =~= tokens@.skip(1));
        let (name, remaining_tokens) = ParseTypeInner::parse(remaining_tokens, parse_ctx)?;
        let mut remaining_tokens = expect(remaining_tokens, TokenType::Eol)?;
        proof {
            if declares_type_line(tokens@, "impl"@) {
                assert(tokens@.skip(1).skip(1) =~= tokens@.skip(2));
                assert(tokens@.skip(2).skip(1) =~= tokens@.skip(3));
            }
        }
        let mut methods: Vec<(crate::ast::Ident, FunctionDecl)> = Vec::new();
        parse_ctx.try_indent()?;
        let ghost start = remaining_tokens@;
        let ghost d = parse_ctx.level() as int;
        let ghost mut count: int = 0;
        let ghost mut seen: Seq<FunctionDecl> = Seq::empty();
        proof {
            assert forall|rem: Seq<FunctionDecl>, rest: Seq<Token>|
                #[trigger] method_lines_may(remaining_tokens@, d, rem, rest) implies method_lines_may(
                start,
                d,
                seen + rem,
                rest,
            ) by {
                assert(seen + rem =~= rem);
            }
            assert forall|decls: Seq<FunctionDecl>, rest: Seq<Token>|
                #[trigger] method_lines(start, d, decls, rest) implies count <= decls.len() && (forall|
                n: Seq<char>,
            | #[trigger] value_named(methods@, n) == last_named(decls.take(count), n))
                && method_lines(remaining_tokens@, d, decls.skip(count), rest) by {
                assert(decls.skip(0) =~= decls);
                assert(decls.take(0) =~= Seq::<FunctionDecl>::empty());
            }
        }
        loop
            invariant_except_break
                forall|rem: Seq<FunctionDecl>, rest: Seq<Token>|
                    #[trigger] method_lines_may(remaining_tokens@, d, rem, rest) ==> method_lines_may(
                        start,
                        d,
                        seen + rem,
                        rest,
                    ),
                forall|decls: Seq<FunctionDecl>, rest: Seq<Token>|
                    #[trigger] method_lines(start, d, decls, rest) ==> count <= decls.len() && (forall|
                        n: Seq<char>,
                    | #[trigger] value_named(methods@, n) == last_named(decls.take(count), n))
                        && method_lines(remaining_tokens@, d, decls.skip(count), rest),
            invariant
                d == parse_ctx.level(),
                count >= 0,
                forall|n: Seq<char>| #[trigger] value_named(methods@, n) == last_named(seen, n),
                is_suffix(remaining_tokens@, start),
                is_suffix(start, tokens@),
                start.len() < tokens@.len(),
                names_distinct(methods@),
                names_sorted(methods@),
                parse_ctx.level() == old(parse_ctx).level() + old(parse_ctx).indent_step,
                parse_ctx.indent_step == old(parse_ctx).indent_step,
                parse_ctx.is_inside_fn_type_decl == old(parse_ctx).is_inside_fn_type_decl,
            ensures
                is_suffix(remaining_tokens@, start),
                names_distinct(methods@),
                names_sorted(methods@),
                parse_ctx.level() == old(parse_ctx).level() + old(parse_ctx).indent_step,
                parse_ctx.indent_step == old(parse_ctx).indent_step,
                parse_ctx.is_inside_fn_type_decl == old(parse_ctx).is_inside_fn_type_decl,
                forall|decls: Seq<FunctionDecl>, rest: Seq<Token>|
                    #[trigger] method_lines(start, d, decls, rest) ==> remaining_tokens@ == rest && (
                    forall|n: Seq<char>|
                        #[trigger] value_named(methods@, n) == last_named(decls, n)),
                method_lines_may(start, d, seen, remaining_tokens@),
                forall|n: Seq<char>| #[trigger] value_named(methods@, n) == last_named(seen, n),
            decreases remaining_tokens@.len(),
        {
            let ghost st = remaining_tokens@;
            if remaining_tokens.len() == 0 {
                proof {
                    assert forall|decls: Seq<FunctionDecl>, rest: Seq<Token>|
                        #[trigger] method_lines(start, d, decls, rest) implies remaining_tokens@ == rest
                        && (forall|n: Seq<char>|
                        #[trigger] value_named(methods@, n) == last_named(decls, n)) by {
                        assert(method_lines(st, d, decls.skip(count), rest));
                        assert(decls =~= decls.take(count));
                    }
                    assert(method_lines_may(st, d, Seq::<FunctionDecl>::empty(), st));
                    assert(seen + Seq::<FunctionDecl>::empty() =~= seen);
                }
                break ;
            }
            let ghost before_lines = remaining_tokens@;
            remaining_tokens = ignore_empty_lines(remaining_tokens);
            proof {
                lemma_skip_empty_lines_suffix(before_lines);
            }
            let ghost q = remaining_tokens@;
            match parse_ctx.consume_indent(remaining_tokens) {
                Ok(new_remaining_tokens) => {
                    remaining_tokens = new_remaining_tokens;
                },
                Err(_) => {
                    proof {
                        assert forall|decls: Seq<FunctionDecl>, rest: Seq<Token>|
                            #[trigger] method_lines(start, d, decls, rest) implies remaining_tokens@
                            == rest && (forall|n: Seq<char>|
                            #[trigger] value_named(methods@, n) == last_named(decls, n)) by {
                            assert(method_lines(st, d, decls.skip(count), rest));
                            assert(!starts_with_indent(q, d));
                            assert(decls =~= decls.take(count));
                        }
                        assert(method_lines_may(st, d, Seq::<FunctionDecl>::empty(), q));
                        assert(seen + Seq::<FunctionDecl>::empty() =~= seen);
                    }
                    break ;
                },
            }
            let ghost line = remaining_tokens@;
            assert(starts_with_indent(q, d));
            if let Ok((method, new_remaining_tokens)) = FunctionDecl::parse(
                remaining_tokens,
                parse_ctx,
            ) {
                let ghost r = new_remaining_tokens@;
                let ghost the_method = method;
                let ghost before = methods@;
                remaining_tokens = new_remaining_tokens;
                let name = method.name.clone();
                insert_named(&mut methods, name, method);
                proof {
                    assert forall|decls: Seq<FunctionDecl>, rest: Seq<Token>|
                        #[trigger] method_lines(start, d, decls, rest) implies count + 1 <= decls.len()
                        && (forall|n: Seq<char>|
                        #[trigger] value_named(methods@, n) == last_named(decls.take(count + 1), n))
                        && method_lines(remaining_tokens@, d, decls.skip(count + 1), rest) by {
                        let its = decls.skip(count);
                        assert(method_lines(st, d, its, rest));
                        assert(!fails_on(FunctionDecl::parse, line));
                        let w = choose|w: Seq<Token>|
                            #[trigger] gives(FunctionDecl::parse, line, its[0], w) && method_lines(
                                w,
                                d,
                                its.drop_first(),
                                rest,
                            );
                        assert(gives(FunctionDecl::parse, line, its[0], w));
                        assert(its[0] == the_method && w == r);
                        assert(its.drop_first() =~= decls.skip(count + 1));
                        let tk = decls.take(count + 1);
                        assert(tk.drop_last() =~= decls.take(count));
                        assert(tk.last() == the_method);
                        assert forall|n: Seq<char>| #[trigger] value_named(methods@, n) == last_named(
                            tk,
                            n,
                        ) by {
                            assert(value_named(before, n) == last_named(decls.take(count), n));
                        }
                    }
                    count = count + 1;
                    assert(may_give(FunctionDecl::parse, line, the_method, r));
                    let old_seen = seen;
                    assert forall|rem: Seq<FunctionDecl>, rest: Seq<Token>|
                        #[trigger] method_lines_may(r, d, rem, rest) implies method_lines_may(
                        start,
                        d,
                        old_seen.push(the_method) + rem,
                        rest,
                    ) by {
                        let full = seq![the_method] + rem;
                        assert(full[0] == the_method);
                        assert(full.drop_first() =~= rem);
                        assert(method_lines_may(st, d, full, rest));
                        assert(old_seen.push(the_method) + rem =~= old_seen + full);
                    }
                    seen = old_seen.push(the_method);
                    assert(seen.drop_last() =~= old_seen);
                    assert forall|n: Seq<char>| #[trigger] value_named(methods@, n) == last_named(seen, n) by {
                        assert(value_named(before, n) == last_named(old_seen, n));
                    }
                }
                continue ;
            }
            proof {
                assert forall|decls: Seq<FunctionDecl>, rest: Seq<Token>|
                    #[trigger] method_lines(start, d, decls, rest) implies remaining_tokens@ == rest
                    && (forall|n: Seq<char>|
                    #[trigger] value_named(methods@, n) == last_named(decls, n)) by {
                    let its = decls.skip(count);
                    assert(method_lines(st, d, its, rest));
                    if !fails_on(FunctionDecl::parse, line) {
                        let w = choose|w: Seq<Token>| #[trigger] gives(FunctionDecl::parse, line, its[0], w);
                        assert(gives(FunctionDecl::parse, line, its[0], w));
                    }
                    assert(decls =~= decls.take(count));
                }
                assert(may_fail(FunctionDecl::parse, line));
                assert(method_lines_may(st, d, Seq::<FunctionDecl>::empty(), line));
                assert(seen + Seq::<FunctionDecl>::empty() =~= seen);
            }
            break ;
        }
        parse_ctx.dedent();
        proof {
            if declares_type_line(tokens@, "impl"@) {
                assert(start == tokens@.skip(3));
                assert(d == old(parse_ctx).level() + old(parse_ctx).indent_step);
                assert(method_lines_may(
                    tokens@.skip(3),
                    old(parse_ctx).level() + old(parse_ctx).indent_step,
                    seen,
                    remaining_tokens@,
                ));
            }
        }
        let result = Impl { name, methods };
        proof {
            if declares_type_line(tokens@, "impl"@) {
                assert(forall|n: Seq<char>| #[trigger] value_named(result.methods@, n) == last_named(seen, n));
                assert(methods_may(
                    tokens@.skip(3),
                    old(parse_ctx).level() + old(parse_ctx).indent_step,
                    result.methods@,
                    remaining_tokens@,
                ));
            }
        }
        Ok((result, remaining_tokens))
    }
}

/// The lines of `t` at the indentation `deeper` are the methods `decls`
/// and the signatures `sigs` (a line that is both is a method), and the
/// list leaves `rest`: it ends at the end of the tokens, at a line that is
/// not that deep (leaving it), or at a line that is neither (leaving what
/// follows its indentation).
pub open spec fn trait_lines(
    t: Seq<Token>,
    deeper: int,
    decls: Seq<FunctionDecl>,
    sigs: Seq<(Ident, ParseType)>,
    rest: Seq<Token>,
) -> bool
    decreases decls.len() + sigs.len(),
{
    if t.len() == 0 || !starts_with_indent(t, deeper) {
        decls.len() == 0 && sigs.len() == 0 && rest == t
    } else if !fails_on(FunctionDecl::parse, t.skip(1)) {
        decls.len() > 0 && exists|r: Seq<Token>|
            #[trigger] gives(FunctionDecl::parse, t.skip(1), decls[0], r) && trait_lines(
                r,
                deeper,
                decls.drop_first(),
                sigs,
                rest,
            )
    } else if !fails_on(parse_signature, t.skip(1)) {
        sigs.len() > 0 && exists|r: Seq<Token>|
            #[trigger] gives(parse_signature, t.skip(1), sigs[0], r) && trait_lines(
                r,
                deeper,
                decls,
                sigs.drop_first(),
                rest,
            )
    } else {
        decls.len() == 0 && sigs.len() == 0 && rest == t.skip(1)
    }
}

/// The lines of `t` at the indentation `deeper` can be the methods `decls`
/// and the signatures `sigs`, and leave `rest`: as `trait_lines`, where
/// each line is what it can be read as (a method when reading one does not
/// fail), and the list can end at a line where reading both can fail.
pub open spec fn trait_lines_may(
    t: Seq<Token>,
    deeper: int,
    decls: Seq<FunctionDecl>,
    sigs: Seq<(Ident, ParseType)>,
    rest: Seq<Token>,
) -> bool
    decreases decls.len() + sigs.len(),
{
    if t.len() == 0 || !starts_with_indent(t, deeper) {
        decls.len() == 0 && sigs.len() == 0 && rest == t
    } else {
        ||| decls.len() > 0 && exists|r: Seq<Token>|
            #[trigger] may_give(FunctionDecl::parse, t.skip(1), decls[0], r) && trait_lines_may(
                r,
                deeper,
                decls.drop_first(),
                sigs,
                rest,
            )
        ||| may_fail(FunctionDecl::parse, t.skip(1)) && sigs.len() > 0 && exists|r: Seq<Token>|
            #[trigger] may_give(parse_signature, t.skip(1), sigs[0], r) && trait_lines_may(
                r,
                deeper,
                decls,
                sigs.drop_first(),
                rest,
            )
        ||| may_fail(FunctionDecl::parse, t.skip(1)) && may_fail(parse_signature, t.skip(1))
            && decls.len() == 0 && sigs.len() == 0 && rest == t.skip(1)
    }
}

/// The methods and signatures of a trait can be `methods` and `signatures`
/// after its lines `t` at the indentation `deeper`, leaving `rest`.
pub open spec fn trait_may(
    t: Seq<Token>,
    deeper: int,
    methods: Seq<(Ident, FunctionDecl)>,
    signatures: Seq<(Ident, ParseType)>,
    rest: Seq<Token>,
) -> bool {
    exists|decls: Seq<FunctionDecl>, sigs: Seq<(Ident, ParseType)>|
        #[trigger] trait_lines_may(t, deeper, decls, sigs, rest) && (forall|n: Seq<char>|
            #[trigger] value_named(methods, n) == last_named(decls, n)) && (forall|n: Seq<char>|
            #[trigger] value_named(signatures, n) == last_signature(sigs, n))
}

/// The type of the last of `sigs` named `name`, if any.
pub open spec fn last_signature(sigs: Seq<(Ident, ParseType)>, name: Seq<char>) -> Option<ParseType>
    decreases sigs.len(),
{
    if sigs.len() == 0 {
        None
    } else if sigs.last().0.name@ == name {
        Some(sigs.last().1)
    } else {
        last_signature(sigs.drop_last(), name)
    }
}

impl TraitDecl {
    /// `trait`, the type, the end of the line, and its methods and
    /// signatures one per line, one block deeper. A method or a signature
    /// given twice keeps the last one. It stops at the first line that is
    /// neither.
    #[verifier::rlimit(50)]
    pub fn parse<'a>(tokens: &'a [Token], parse_ctx: &mut ParseCtx) -> (res: Result<
        (Self, &'a [Token]),
        Diagnostics,
    >)
        ensures
            parse_post(tokens@, *old(parse_ctx), *final(parse_ctx), res),
            ctx_same(*old(parse_ctx), *final(parse_ctx)),
            res is Ok ==> starts_with_kw(tokens@, "trait"@),
            res matches Ok((t, _)) ==> names_distinct(t.methods@) && names_distinct(
                t.signatures@,
            ) && names_sorted(t.methods@) && names_sorted(t.signatures@),
            declares_type_line(tokens@, "trait"@) && old(parse_ctx).level() + old(
                parse_ctx,
            ).indent_step <= u8::MAX ==> (res matches Ok((t, _)) && is_named_type(
                ParseType::Type(t.name),
                tokens@[1].token_type,
            )),
            forall|decls: Seq<FunctionDecl>, sigs: Seq<(Ident, ParseType)>, rest: Seq<Token>|
                declares_type_line(tokens@, "trait"@) && old(parse_ctx).level() + old(
                    parse_ctx,
                ).indent_step <= u8::MAX && #[trigger] trait_lines(
                    tokens@.skip(3),
                    old(parse_ctx).level() + old(parse_ctx).indent_step,
                    decls,
                    sigs,
                    rest,
                ) ==> (res matches Ok((t, r)) && r@ == rest && (forall|n: Seq<char>|
                    #[trigger] value_named(t.methods@, n) == last_named(decls, n)) && (forall|
                    n: Seq<char>,
                | #[trigger] value_named(t.signatures@, n) == last_signature(sigs, n))),
            declares_type_line(tokens@, "trait"@) ==> (res matches Ok((t, r)) ==> trait_may(
                tokens@.skip(3),
                old(parse_ctx).level() + old(parse_ctx).indent_step,
                t.methods@,
                t.signatures@,
                r@,
            )),
    {
        let remaining_tokens = expect_keyword(tokens, "trait")?;
        assert(remaining_tokens@ =~= tokens@.skip(1));
        let (name, remaining_tokens) = ParseTypeInner::parse(remaining_tokens, parse_ctx)?;
        let mut remaining_tokens = expect(remaining_tokens, TokenType::Eol)?;
        proof {
            if declares_type_line(tokens@, "trait"@) {
                assert(tokens@.skip(1).skip(1) =~= tokens@.skip(2));
                assert(tokens@.skip(2).skip(1) =~= tokens@.skip(3));
            }
        }
        let mut methods: Vec<(crate::ast::Ident, FunctionDecl)> = Vec::new();
        let mut signatures: Vec<(crate::ast::Ident, crate::ast::ParseType)> = Vec::new();
        parse_ctx.try_indent()?;
        let ghost start = remaining_tokens@;
        let ghost d = parse_ctx.level() as int;
        let ghost mut cm: int = 0;
        let ghost mut cs: int = 0;
        let ghost mut seen_m: Seq<FunctionDecl> = Seq::empty();
        let ghost mut seen_s: Seq<(Ident, ParseType)> = Seq::empty();
        proof {
            assert forall|rm: Seq<FunctionDecl>, rs: Seq<(Ident, ParseType)>, rest: Seq<Token>|
                #[trigger] trait_lines_may(remaining_tokens@, d, rm, rs, rest) implies trait_lines_may(
                start,
                d,
                seen_m + rm,
                seen_s + rs,
                rest,
            ) by {
                assert(seen_m + rm =~= rm);
                assert(seen_s + rs =~= rs);
            }
            assert forall|decls: Seq<FunctionDecl>, sigs: Seq<(Ident, ParseType)>, rest: Seq<Token>|
                #[trigger] trait_lines(start, d, decls, sigs, rest) implies cm <= decls.len() && cs
                <= sigs.len() && (forall|n: Seq<char>|
                #[trigger] value_named(methods@, n) == last_named(decls.take(cm), n)) && (forall|
                n: Seq<char>,
            | #[trigger] value_named(signatures@, n) == last_signature(sigs.take(cs), n))
                && trait_lines(remaining_tokens@, d, decls.skip(cm), sigs.skip(cs), rest) by {
                assert(decls.skip(0) =~= decls);
                assert(decls.take(0) =~= Seq::<FunctionDecl>::empty());
                assert(sigs.skip(0) =~= sigs);
                assert(sigs.take(0) =~= Seq::<(Ident, ParseType)>::empty());
            }
        }
        loop
            invariant_except_break
                forall|rm: Seq<FunctionDecl>, rs: Seq<(Ident, ParseType)>, rest: Seq<Token>|
                    #[trigger] trait_lines_may(remaining_tokens@, d, rm, rs, rest) ==> trait_lines_may(
                        start,
                        d,
                        seen_m + rm,
                        seen_s + rs,
                        rest,
                    ),
                forall|decls: Seq<FunctionDecl>, sigs: Seq<(Ident, ParseType)>, rest: Seq<Token>|
                    #[trigger] trait_lines(start, d, decls, sigs, rest) ==> cm <= decls.len() && cs
                        <= sigs.len() && (forall|n: Seq<char>|
                        #[trigger] value_named(methods@, n) == last_named(decls.take(cm), n)) && (
                    forall|n: Seq<char>|
                        #[trigger] value_named(signatures@, n) == last_signature(sigs.take(cs), n))
                        && trait_lines(remaining_tokens@, d, decls.skip(cm), sigs.skip(cs), rest),
            invariant
                d == parse_ctx.level(),
                cm >= 0,
                cs >= 0,
                forall|n: Seq<char>| #[trigger] value_named(methods@, n) == last_named(seen_m, n),
                forall|n: Seq<char>| #[trigger] value_named(signatures@, n) == last_signature(seen_s, n),
                is_suffix(remaining_tokens@, start),
                is_suffix(start, tokens@),
                start.len() < tokens@.len(),
                names_distinct(methods@),
                names_sorted(methods@),
                names_distinct(signatures@),
                names_sorted(signatures@),
                parse_ctx.level() == old(parse_ctx).level() + old(parse_ctx).indent_step,
                parse_ctx.indent_step == old(parse_ctx).indent_step,
                parse_ctx.is_inside_fn_type_decl == old(parse_ctx).is_inside_fn_type_decl,
            ensures
                is_suffix(remaining_tokens@, start),
                names_distinct(methods@),
                names_sorted(methods@),
                names_distinct(signatures@),
                names_sorted(signatures@),
                parse_ctx.level() == old(parse_ctx).level() + old(parse_ctx).indent_step,
                parse_ctx.indent_step == old(parse_ctx).indent_step,
                parse_ctx.is_inside_fn_type_decl == old(parse_ctx).is_inside_fn_type_decl,
                forall|decls: Seq<FunctionDecl>, sigs: Seq<(Ident, ParseType)>, rest: Seq<Token>|
                    #[trigger] trait_lines(start, d, decls, sigs, rest) ==> remaining_tokens@ == rest
                        && (forall|n: Seq<char>|
                        #[trigger] value_named(methods@, n) == last_named(decls, n)) && (forall|
                        n: Seq<char>,
                    | #[trigger] value_named(signatures@, n) == last_signature(sigs, n)),
                trait_lines_may(start, d, seen_m, seen_s, remaining_tokens@),
                forall|n: Seq<char>| #[trigger] value_named(methods@, n) == last_named(seen_m, n),
                forall|n: Seq<char>| #[trigger] value_named(signatures@, n) == last_signature(seen_s, n),
            decreases remaining_tokens@.len(),
        {
            let ghost st = remaining_tokens@;
            if remaining_tokens.len() == 0 {
                proof {
                    assert forall|decls: Seq<FunctionDecl>, sigs: Seq<(Ident, ParseType)>, rest: Seq<Token>|
                        #[trigger] trait_lines(start, d, decls, sigs, rest) implies remaining_tokens@
                        == rest && (forall|n: Seq<char>|
                        #[trigger] value_named(methods@, n) == last_named(decls, n)) && (forall|
                        n: Seq<char>,
                    | #[trigger] value_named(signatures@, n) == last_signature(sigs, n)) by {
                        assert(trait_lines(st, d, decls.skip(cm), sigs.skip(cs), rest));
                        assert(decls =~= decls.take(cm));
                        assert(sigs =~= sigs.take(cs));
                    }
                    assert(trait_lines_may(st, d, Seq::<FunctionDecl>::empty(), Seq::<(Ident, ParseType)>::empty(), st));
                    assert(seen_m + Seq::<FunctionDecl>::empty() =~= seen_m);
                    assert(seen_s + Seq::<(Ident, ParseType)>::empty() =~= seen_s);
                }
                break ;
            }
            match parse_ctx.consume_indent(remaining_tokens) {
                Ok(new_remaining_tokens) => {
                    remaining_tokens = new_remaining_tokens;
                },
                Err(_) => {
                    proof {
                        assert forall|
                            decls: Seq<FunctionDecl>,
                            sigs: Seq<(Ident, ParseType)>,
                            rest: Seq<Token>,
                        | #[trigger] trait_lines(start, d, decls, sigs, rest) implies remaining_tokens@
                            == rest && (forall|n: Seq<char>|
                            #[trigger] value_named(methods@, n) == last_named(decls, n)) && (forall|
                            n: Seq<char>,
                        | #[trigger] value_named(signatures@, n) == last_signature(sigs, n)) by {
                            assert(trait_lines(st, d, decls.skip(cm), sigs.skip(cs), rest));
                            assert(!starts_with_indent(st, d));
                            assert(decls =~= decls.take(cm));
                            assert(sigs =~= sigs.take(cs));
                        }
                        assert(trait_lines_may(st, d, Seq::<FunctionDecl>::empty(), Seq::<(Ident, ParseType)>::empty(), st));
                        assert(seen_m + Seq::<FunctionDecl>::empty() =~= seen_m);
                        assert(seen_s + Seq::<(Ident, ParseType)>::empty() =~= seen_s);
                    }
                    break ;
                },
            }
            let ghost line = remaining_tokens@;
            assert(starts_with_indent(st, d));
            if let Ok((function, new_remaining_tokens)) = FunctionDecl::parse(
                remaining_tokens,
                parse_ctx,
            ) {
                let ghost r = new_remaining_tokens@;
                let ghost the_method = function;
                let ghost before = methods@;
                remaining_tokens = new_remaining_tokens;
                let name = function.name.clone();
                insert_named(&mut methods, name, function);
                proof {
                    assert forall|
                        decls: Seq<FunctionDecl>,
                        sigs: Seq<(Ident, ParseType)>,
                        rest: Seq<Token>,
                    | #[trigger] trait_lines(start, d, decls, sigs, rest) implies cm + 1 <= decls.len()
                        && (forall|n: Seq<char>|
                        #[trigger] value_named(methods@, n) == last_named(decls.take(cm + 1), n))
                        && trait_lines(remaining_tokens@, d, decls.skip(cm + 1), sigs.skip(cs), rest) by {
                        let its = decls.skip(cm);
                        assert(trait_lines(st, d, its, sigs.skip(cs), rest));
                        assert(!fails_on(FunctionDecl::parse, line));
                        let w = choose|w: Seq<Token>|
                            #[trigger] gives(FunctionDecl::parse, line, its[0], w) && trait_lines(
                                w,
                                d,
                                its.drop_first(),
                                sigs.skip(cs),
                                rest,
                            );
                        assert(gives(FunctionDecl::parse, line, its[0], w));
                        assert(its[0] == the_method && w == r);
                        assert(its.drop_first() =~= decls.skip(cm + 1));
                        let tk = decls.take(cm + 1);
                        assert(tk.drop_last() =~= decls.take(cm));
                        assert(tk.last() == the_method);
                        assert forall|n: Seq<char>| #[trigger] value_named(methods@, n) == last_named(
                            tk,
                            n,
                        ) by {
                            assert(value_named(before, n) == last_named(decls.take(cm), n));
                        }
                    }
                    cm = cm + 1;
                    assert(may_give(FunctionDecl::parse, line, the_method, r));
                    let old_m = seen_m;
                    assert forall|rm: Seq<FunctionDecl>, rs: Seq<(Ident, ParseType)>, rest: Seq<Token>|
                        #[trigger] trait_lines_may(r, d, rm, rs, rest) implies trait_lines_may(
                        start,
                        d,
                        old_m.push(the_method) + rm,
                        seen_s + rs,
                        rest,
                    ) by {
                        let full = seq![the_method] + rm;
                        assert(full[0] == the_method);
                        assert(full.drop_first() =~= rm);
                        assert(trait_lines_may(st, d, full, rs, rest));
                        assert(old_m.push(the_method) + rm =~= old_m + full);
                    }
                    seen_m = old_m.push(the_method);
                    assert(seen_m.drop_last() =~= old_m);
                    assert forall|n: Seq<char>| #[trigger] value_named(methods@, n) == last_named(seen_m, n) by {
                        assert(value_named(before, n) == last_named(old_m, n));
                    }
                }
                continue ;
            }
            if let Ok((signature, new_remaining_tokens)) = parse_signature(
                remaining_tokens,
                parse_ctx,
            ) {
                let ghost r = new_remaining_tokens@;
                let ghost the_sig = signature;
                let ghost before = signatures@;
                remaining_tokens = new_remaining_tokens;
                let (name, sig) = signature;
                insert_named(&mut signatures, name, sig);
                proof {
                    assert forall|
                        decls: Seq<FunctionDecl>,
                        sigs: Seq<(Ident, ParseType)>,
                        rest: Seq<Token>,
                    | #[trigger] trait_lines(start, d, decls, sigs, rest) implies cs + 1 <= sigs.len()
                        && (forall|n: Seq<char>|
                        #[trigger] value_named(signatures@, n) == last_signature(sigs.take(cs + 1), n))
                        && trait_lines(remaining_tokens@, d, decls.skip(cm), sigs.skip(cs + 1), rest) by {
                        let its = sigs.skip(cs);
                        assert(trait_lines(st, d, decls.skip(cm), its, rest));
                        if !fails_on(FunctionDecl::parse, line) {
                            let w = choose|w: Seq<Token>|
                                #[trigger] gives(FunctionDecl::parse, line, decls.skip(cm)[0], w);
                            assert(gives(FunctionDecl::parse, line, decls.skip(cm)[0], w));
                        }
                        assert(!fails_on(parse_signature, line));
                        let w = choose|w: Seq<Token>|
                            #[trigger] gives(parse_signature, line, its[0], w) && trait_lines(
                                w,
                                d,
                                decls.skip(cm),
                                its.drop_first(),
                                rest,
                            );
                        assert(gives(parse_signature, line, its[0], w));
                        assert(its[0] == the_sig && w == r);
                        assert(its.drop_first() =~= sigs.skip(cs + 1));
                        let tk = sigs.take(cs + 1);
                        assert(tk.drop_last() =~= sigs.take(cs));
                        assert(tk.last() == the_sig);
                        assert forall|n: Seq<char>| #[trigger] value_named(signatures@, n)
                            == last_signature(tk, n) by {
                            assert(value_named(before, n) == last_signature(sigs.take(cs), n));
                        }
                    }
                    cs = cs + 1;
                    assert(may_fail(FunctionDecl::parse, line));
                    assert(may_give(parse_signature, line, the_sig, r));
                    let old_s = seen_s;
                    assert forall|rm: Seq<FunctionDecl>, rs: Seq<(Ident, ParseType)>, rest: Seq<Token>|
                        #[trigger] trait_lines_may(r, d, rm, rs, rest) implies trait_lines_may(
                        start,
                        d,
                        seen_m + rm,
                        old_s.push(the_sig) + rs,
                        rest,
                    ) by {
                        let full = seq![the_sig] + rs;
                        assert(full[0] == the_sig);
                        assert(full.drop_first() =~= rs);
                        assert(trait_lines_may(st, d, rm, full, rest));
                        assert(old_s.push(the_sig) + rs =~= old_s + full);
                    }
                    seen_s = old_s.push(the_sig);
                    assert(seen_s.drop_last() =~= old_s);
                    assert forall|n: Seq<char>| #[trigger] value_named(signatures@, n) == last_signature(
                        seen_s,
                        n,
                    ) by {
                        assert(value_named(before, n) == last_signature(old_s, n));
                    }
                }
                continue ;
            }
            proof {
                assert forall|decls: Seq<FunctionDecl>, sigs: Seq<(Ident, ParseType)>, rest: Seq<Token>|
                    #[trigger] trait_lines(start, d, decls, sigs, rest) implies remaining_tokens@ == rest
                    && (forall|n: Seq<char>|
                    #[trigger] value_named(methods@, n) == last_named(decls, n)) && (forall|
                    n: Seq<char>,
                | #[trigger] value_named(signatures@, n) == last_signature(sigs, n)) by {
                    assert(trait_lines(st, d, decls.skip(cm), sigs.skip(cs), rest));
                    if !fails_on(FunctionDecl::parse, line) {
                        let w = choose|w: Seq<Token>|
                            #[trigger] gives(FunctionDecl::parse, line, decls.skip(cm)[0], w);
                        assert(gives(FunctionDecl::parse, line, decls.skip(cm)[0], w));
                    }
                    if !fails_on(parse_signature, line) {
                        let w = choose|w: Seq<Token>|
                            #[trigger] gives(parse_signature, line, sigs.skip(cs)[0], w);
                        assert(gives(parse_signature, line, sigs.skip(cs)[0], w));
                    }
                    assert(decls =~= decls.take(cm));
                    assert(sigs =~= sigs.take(cs));
                }
                assert(may_fail(FunctionDecl::parse, line));
                assert(may_fail(parse_signature, line));
                assert(trait_lines_may(st, d, Seq::<FunctionDecl>::empty(), Seq::<(Ident, ParseType)>::empty(), line));
                assert(seen_m + Seq::<FunctionDecl>::empty() =~= seen_m);
                assert(seen_s + Seq::<(Ident, ParseType)>::empty() =~= seen_s);
            }
            break ;
        }
        parse_ctx.dedent();
        let result = TraitDecl { name, methods, signatures };
        proof {
            if declares_type_line(tokens@, "trait"@) {
                assert(start == tokens@.skip(3));
                assert(d == old(parse_ctx).level() + old(parse_ctx).indent_step);
                assert(trait_lines_may(
                    tokens@.skip(3),
                    old(parse_ctx).level() + old(parse_ctx).indent_step,
                    seen_m,
                    seen_s,
                    remaining_tokens@,
                ));
                assert(trait_may(
                    tokens@.skip(3),
                    old(parse_ctx).level() + old(parse_ctx).indent_step,
                    result.methods@,
                    result.signatures@,
                    remaining_tokens@,
                ));
            }
        }
        Ok((result, remaining_tokens))
    }
}

} // verus!
