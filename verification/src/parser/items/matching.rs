use vstd::prelude::*;

use crate::ast::{
    ArrayPattern, Block, Expression, FieldPattern, FieldsPatternOrArgumentsPattern, Ident,
    IdentifierPath, InstancePattern, Literal, Match, MatchArm, Pattern, PatternKind,
};
use crate::lexer::{Token, TokenType};
use crate::parser::items::conditional::expect_keyword;
use crate::parser::items::expression::{cannot_start_operand, head_literal, literal_token};
use crate::parser::items::ident::ident_name;
use crate::parser::items::literal::token_literal;
use crate::parser::items::loops::parse_head_expression;
use crate::parser::parsable::{
    is_suffix, lemma_skip_suffix_auto, lemma_suffix_trans_auto, parse_post, skip, starts_with_kw,
    starts_with_keyword,
};
use crate::parser::parse_ctx::{ctx_same, ParseCtx};
use crate::parser::util::{
    continues_with, count_after, count_from, expect, fail, leaves, list_may, list_may_after,
    may_fail, may_give, parse_vec_with, Diagnostics, ParseError,
};

verus! {

broadcast use {lemma_suffix_trans_auto, lemma_skip_suffix_auto};

/// The indentation step of a block whose lines start at `tokens`: the step
/// of the file, unless the first line is indented deeper than the current
/// level, in which case the block is as deep as its first line.
pub open spec fn block_step_of(parse_ctx: ParseCtx, tokens: Seq<Token>) -> u8 {
    if tokens.len() > 0 && tokens[0].token_type is Indent && tokens[0].token_type->Indent_0
        > parse_ctx.level() {
        (tokens[0].token_type->Indent_0 - parse_ctx.level()) as u8
    } else {
        parse_ctx.indent_step
    }
}

/// The indentation step of the block whose lines start at `tokens`.
pub fn block_step(parse_ctx: &ParseCtx, tokens: &[Token]) -> (res: u8)
    ensures
        res == block_step_of(*parse_ctx, tokens@),
{
    if tokens.len() > 0 {
        if let TokenType::Indent(l) = tokens[0].token_type {
            if l > parse_ctx.indent_level {
                return l - parse_ctx.indent_level;
            }
        }
    }
    parse_ctx.indent_step
}

impl Match {
    /// `match`, the matched expression, then its arms one per line, one
    /// block deeper.
    pub fn parse<'a>(tokens: &'a [Token], parse_ctx: &mut ParseCtx) -> (res: Result<
        (Self, &'a [Token]),
        Diagnostics,
    >)
        ensures
            parse_post(tokens@, *old(parse_ctx), *final(parse_ctx), res),
            ctx_same(*old(parse_ctx), *final(parse_ctx)),
            res is Ok ==> starts_with_kw(tokens@, "match"@),
            starts_with_kw(tokens@, "match"@) && head_literal(tokens@.skip(1)) && old(
                parse_ctx,
            ).level() + old(parse_ctx).indent_step <= u8::MAX ==> res is Ok,
        decreases tokens@.len(), 0int,
    {
        let remaining_tokens = expect_keyword(tokens, "match")?;
        assert(remaining_tokens@ =~= tokens@.skip(1));
        let (expr, remaining_tokens) = parse_head_expression(remaining_tokens, parse_ctx)?;
        proof {
            if head_literal(tokens@.skip(1)) {
                assert(remaining_tokens@[0] == tokens@[2]);
            }
        }
        let remaining_tokens = expect(remaining_tokens, TokenType::Eol)?;
        let saved_step = parse_ctx.indent_step;
        let step = block_step(parse_ctx, remaining_tokens);
        if parse_ctx.indent_level as u16 + step as u16 > 255 {
            return fail(ParseError::IndentOverflow(parse_ctx.indent_level, step));
        }
        parse_ctx.indent_step = step;
        let parse_arms = |c: &mut ParseCtx| -> (r: Result<
            (Vec<MatchArm>, &'a [Token], Diagnostics),
            Diagnostics,
        >)
            ensures
                ctx_same(*old(c), *final(c)),
                r matches Ok((_, rest, _)) && is_suffix(rest@, remaining_tokens@),
            {
                let parse_arm = |t: &'a [Token], c2: &mut ParseCtx| -> (r2: Result<
                    (MatchArm, &'a [Token]),
                    Diagnostics,
                >)
                    requires
                        is_suffix(t@, remaining_tokens@),
                    ensures
                        parse_post(t@, *old(c2), *final(c2), r2),
                        ctx_same(*old(c2), *final(c2)),
                    { MatchArm::parse(t, c2) };
                Ok(parse_vec_with(remaining_tokens, Some(TokenType::Eol), c, parse_arm))
            };
        let arms_res = parse_ctx.indent_block(parse_arms);
        parse_ctx.indent_step = saved_step;
        let (arms, remaining_tokens, _diags) = arms_res?;
        Ok((Match { expr, arms }, remaining_tokens))
    }
}

impl MatchArm {
    /// The indentation of the arms, a pattern, an optional guard (`if`
    /// expression), `=>` and the body.
    pub fn parse<'a>(tokens: &'a [Token], parse_ctx: &mut ParseCtx) -> (res: Result<
        (Self, &'a [Token]),
        Diagnostics,
    >)
        ensures
            parse_post(tokens@, *old(parse_ctx), *final(parse_ctx), res),
            ctx_same(*old(parse_ctx), *final(parse_ctx)),
            res is Ok ==> tokens@[0].token_type == TokenType::Indent(old(parse_ctx).level()),
            tokens@.len() > 4 && tokens@[0].token_type == TokenType::Indent(old(parse_ctx).level())
                && lone_pattern_at(tokens@, 1) && tokens@[2].token_type is FatArrow
                && tokens@[3].token_type is Eol && old(parse_ctx).level() + old(
                parse_ctx,
            ).indent_step <= u8::MAX ==> (res matches Ok((arm, _)) && arm.pattern.binding is None
                && arm.condition is None),
        decreases tokens@.len(), 0int,
    {
        let remaining_tokens = parse_ctx.consume_indent(tokens)?;
        proof {
            assert(remaining_tokens@ =~= tokens@.skip(1));
            if lone_pattern_at(tokens@, 1) {
                assert(remaining_tokens@[0] == tokens@[1]);
                assert(remaining_tokens@.len() > 1 ==> remaining_tokens@[1] == tokens@[2]);
                assert(lone_pattern_at(remaining_tokens@, 0));
                assert(remaining_tokens@.skip(1) =~= tokens@.skip(2));
            }
        }
        let (pattern, mut remaining_tokens) = Pattern::parse(remaining_tokens, parse_ctx)?;
        let condition = if starts_with_keyword(remaining_tokens, "if") {
            if let Ok((expr, new_remaining_tokens)) = Expression::parse(
                skip(remaining_tokens, 1),
                parse_ctx,
            ) {
                remaining_tokens = new_remaining_tokens;
                Some(expr)
            } else {
                None
            }
        } else {
            None
        };
        let remaining_tokens = expect(remaining_tokens, TokenType::FatArrow)?;
        let (body, remaining_tokens) = Block::parse(remaining_tokens, parse_ctx)?;
        Ok((MatchArm { pattern, condition, body }, remaining_tokens))
    }
}

/// A token that is a pattern on its own: a name, `_`, a string, a character
/// or a float.
pub open spec fn simple_pattern_token(t: TokenType) -> bool {
    t is Ident || t is Underscore || t is String || t is Char || t is Float
}

/// The pattern at `at` is a single token, not bound to a name with `@`.
pub open spec fn lone_pattern_at(tokens: Seq<Token>, at: int) -> bool {
    &&& 0 <= at < tokens.len()
    &&& simple_pattern_token(tokens[at].token_type)
    &&& !(tokens.len() > at + 1 && tokens[at + 1].token_type is Arobase)
}

/// `tokens` starts with `n` single-token patterns separated by comas, and
/// no coma follows the last of them.
pub open spec fn lone_patterns(tokens: Seq<Token>, n: nat) -> bool
    decreases n,
{
    &&& n > 0
    &&& lone_pattern_at(tokens, 0)
    &&& if n == 1 {
        !(tokens.len() > 1 && tokens[1].token_type is Coma)
    } else {
        tokens.len() > 2 && tokens[1].token_type is Coma && lone_patterns(tokens.skip(2), (n - 1) as nat)
    }
}

/// `k` is the pattern that a single token of type `t` stands for: the name
/// it holds, the wildcard `_`, or the literal it denotes.
pub open spec fn lone_pattern_kind(k: PatternKind, t: TokenType) -> bool {
    match t {
        TokenType::Ident(name) => k matches PatternKind::Ident(x) && x.name@ == name@,
        TokenType::Underscore => k is Wildcard,
        _ => k matches PatternKind::Literal(l) && token_literal(t, l.kind),
    }
}

/// `ps` are the `n` single-token patterns written in `tokens`, separated by
/// comas, in order: none is bound with `@`, and the i-th is the pattern of
/// the token `tokens[2 * i]`.
pub open spec fn lone_patterns_read(ps: Seq<Pattern>, tokens: Seq<Token>, n: nat) -> bool {
    &&& ps.len() == n
    &&& forall|i: int|
        0 <= i < n ==> (#[trigger] ps[i]).binding is None && lone_pattern_kind(
            ps[i].kind,
            tokens[2 * i].token_type,
        )
}

/// The name a pattern stands for when it is a name alone, else nothing.
pub open spec fn pattern_name(p: Pattern) -> Option<Seq<char>> {
    match p.kind {
        PatternKind::Ident(x) => if p.binding is None {
            Some(x.name@)
        } else {
            None
        },
        _ => None,
    }
}

/// The names written at the even places of `tokens`, the first `n` of them:
/// the names of a list `x1, x2, ...` separated by comas.
pub open spec fn written_names(tokens: Seq<Token>, n: nat) -> Seq<Option<Seq<char>>> {
    Seq::new(n, |i: int| ident_name(tokens[2 * i].token_type))
}

/// Patterns read from names written `x1, ..., xn` are those names, in the
/// order they were written.
pub proof fn law_patterns_in_written_order(ps: Seq<Pattern>, tokens: Seq<Token>, n: nat)
    requires
        lone_patterns(tokens, n),
        lone_patterns_read(ps, tokens, n),
        forall|i: int| 0 <= i < n ==> (#[trigger] tokens[2 * i]).token_type is Ident,
    ensures
        ps.map_values(|p: Pattern| pattern_name(p)) == written_names(tokens, n),
{
    let names = ps.map_values(|p: Pattern| pattern_name(p));
    assert forall|i: int| 0 <= i < n implies #[trigger] names[i] == written_names(tokens, n)[i] by {
        assert(tokens[2 * i].token_type is Ident);
        assert(ps[i].binding is None);
    }
    assert(names =~= written_names(tokens, n));
}

/// A list read with `f`, which reads a single-token pattern as that
/// pattern, on `n` such patterns separated by comas is those patterns, in
/// order, and it ends just after the last of them.
pub proof fn lemma_lone_patterns_items<'a, F: Fn(&'a [Token], &mut ParseCtx) -> Result<
    (Pattern, &'a [Token]),
    Diagnostics,
>>(t: Seq<Token>, after: Seq<Token>, f: F, n: nat, items: Seq<Pattern>, rest: Seq<Token>)
    requires
        lone_patterns(t, n),
        list_may(t, after, Some(TokenType::Coma), f, items, rest),
        forall|ts: &'a [Token], c: &mut ParseCtx, r: Result<(Pattern, &'a [Token]), Diagnostics>|
            #[trigger] f.ensures((ts, c), r) ==> (lone_pattern_at(ts@, 0) ==> (r matches Ok((p, rr))
                && p.binding is None && rr@ == ts@.skip(1) && lone_pattern_kind(
                p.kind,
                ts@[0].token_type,
            ))),
    ensures
        lone_patterns_read(items, t, n),
        t.len() >= 2 * n - 1,
        rest == t.skip(2 * n - 1),
    decreases n,
{
    if may_fail(f, t) {
        let (ts, c, r) = choose|ts: &'a [Token], c: &mut ParseCtx, r: Result<(Pattern, &'a [Token]), Diagnostics>|
            ts@ == t && #[trigger] f.ensures((ts, c), r) && r is Err;
        assert(f.ensures((ts, c), r));
    }
    assert(items.len() > 0);
    let r = choose|r: Seq<Token>|
        #[trigger] may_give(f, t, items[0], r) && list_may_after(
            r,
            Some(TokenType::Coma),
            f,
            items.drop_first(),
            rest,
        );
    let (ts, c, res) = choose|ts: &'a [Token], c: &mut ParseCtx, res: Result<(Pattern, &'a [Token]), Diagnostics>|
        ts@ == t && #[trigger] f.ensures((ts, c), res) && (res matches Ok((x, rr)) && x == items[0]
            && rr@ == r);
    assert(f.ensures((ts, c), res));
    assert(r == t.skip(1));
    if n == 1 {
        if r.len() > 0 {
            assert(r[0] == t[1]);
        }
        assert(!continues_with(r, TokenType::Coma));
        assert(items.drop_first().len() == 0);
        assert(items.len() == 1);
    } else {
        assert(r[0] == t[1]);
        assert(continues_with(r, TokenType::Coma));
        assert(r.skip(1) =~= t.skip(2));
        lemma_lone_patterns_items(t.skip(2), r, f, (n - 1) as nat, items.drop_first(), rest);
        assert(t.skip(2).skip(2 * (n - 1) - 1) =~= t.skip(2 * n - 1));
        assert forall|i: int| 0 <= i < n implies (#[trigger] items[i]).binding is None
            && lone_pattern_kind(items[i].kind, t[2 * i].token_type) by {
            if i > 0 {
                assert(items[i] == items.drop_first()[i - 1]);
                assert(t.skip(2)[2 * (i - 1)] == t[2 * i]);
            }
        }
    }
}

/// A list read with `f`, which reads a single-token pattern and leaves what
/// follows it, has `n` items on `n` such patterns separated by comas.
pub proof fn lemma_lone_patterns_count<'a, T, F: Fn(&'a [Token], &mut ParseCtx) -> Result<
    (T, &'a [Token]),
    Diagnostics,
>>(t: Seq<Token>, after: Seq<Token>, f: F, n: nat)
    requires
        lone_patterns(t, n),
        forall|ts: &'a [Token], c: &mut ParseCtx, r: Result<(T, &'a [Token]), Diagnostics>|
            #[trigger] f.ensures((ts, c), r) ==> (lone_pattern_at(ts@, 0) ==> (r matches Ok((_, rest))
                && rest@ == ts@.skip(1))),
    ensures
        count_from(t, after, Some(TokenType::Coma), f, n, t.skip(2 * n - 1)),
        t.len() >= 2 * n - 1,
    decreases n,
{
    assert(leaves(f, t, t.skip(1)));
    if n == 1 {
        assert(count_after(t.skip(1), Some(TokenType::Coma), f, 0, t.skip(1)));
    } else {
        lemma_lone_patterns_count(t.skip(2), t.skip(1), f, (n - 1) as nat);
        assert(t.skip(1).skip(1) =~= t.skip(2));
        assert(t.skip(2).skip(2 * (n - 1) - 1) =~= t.skip(2 * n - 1));
        assert(count_after(t.skip(1), Some(TokenType::Coma), f, (n - 1) as nat, t.skip(2 * n - 1)));
    }
}

impl Pattern {
    /// A pattern, bound to a name when written `name @ pattern`.
    pub fn parse<'a>(tokens: &'a [Token], parse_ctx: &mut ParseCtx) -> (res: Result<
        (Self, &'a [Token]),
        Diagnostics,
    >)
        ensures
            parse_post(tokens@, *old(parse_ctx), *final(parse_ctx), res),
            ctx_same(*old(parse_ctx), *final(parse_ctx)),
            res matches Ok((p, _)) ==> (p.binding is Some ==> tokens@.len() > 2
                && tokens@[1].token_type is Arobase),
            lone_pattern_at(tokens@, 0) ==> (res matches Ok((p, rest)) && p.binding is None
                && rest@ == tokens@.skip(1)),
            lone_pattern_at(tokens@, 0) ==> (res matches Ok((p, _)) && lone_pattern_kind(
                p.kind,
                tokens@[0].token_type,
            )),
            tokens@.len() > 0 && literal_token(tokens@[0].token_type) ==> (res matches Ok((_, rest))
                ==> rest@ == tokens@.skip(1)),
            cannot_start_operand(tokens@) ==> res is Err,
            tokens@.len() > 0 && tokens@[0].token_type is Arrow ==> res is Err,
            lone_pattern_at(tokens@, 0) && tokens@[0].token_type is Ident ==> (res matches Ok(
                (p, rest),
            ) && p.kind matches PatternKind::Ident(i) && i.name@ == tokens@[0].token_type->Ident_0@
                && rest@ == tokens@.skip(1)),
            tokens@.len() > 2 && ident_name(tokens@[0].token_type) is Some && tokens@[1].token_type
                is Arobase && simple_pattern_token(tokens@[2].token_type) ==> (res matches Ok((p, _))
                && p.binding matches Some(b) && Some(b.name@) == ident_name(tokens@[0].token_type)),
        decreases tokens@.len(), 3int,
    {
        let mut remaining_tokens = tokens;
        let mut binding: Option<Ident> = None;
        if let Ok((ident, new_remaining_tokens)) = Ident::parse(tokens, parse_ctx) {
            if new_remaining_tokens.len() >= 2 && new_remaining_tokens[0].token_type.same_as(
                &TokenType::Arobase,
            ) {
                remaining_tokens = skip(new_remaining_tokens, 1);
                binding = Some(ident);
            }
        }
        proof {
            assert(tokens@.skip(0) =~= tokens@);
            if binding is Some {
                assert(remaining_tokens@ =~= tokens@.skip(2));
                assert(remaining_tokens@[0] == tokens@[2]);
            }
        }
        let (kind, remaining_tokens) = PatternKind::parse(remaining_tokens, parse_ctx)?;
        Ok((Pattern { binding, kind }, remaining_tokens))
    }
}

impl PatternKind {
    /// A tuple (or a pattern in parentheses), an array, a struct or enum
    /// pattern, a name, `_`, or a literal.
    pub fn parse<'a>(tokens: &'a [Token], parse_ctx: &mut ParseCtx) -> (res: Result<
        (Self, &'a [Token]),
        Diagnostics,
    >)
        ensures
            parse_post(tokens@, *old(parse_ctx), *final(parse_ctx), res),
            ctx_same(*old(parse_ctx), *final(parse_ctx)),
            res matches Ok((k, rest)) ==> match tokens@[0].token_type {
                TokenType::OpenParen => k is Tuple || k is Nested,
                TokenType::OpenBracket => k is Array,
                TokenType::Type(_) => k is Instance,
                TokenType::Ident(name) => k matches PatternKind::Ident(i) && i.name@ == name@
                    && rest@ == tokens@.skip(1),
                TokenType::Underscore => k is Wildcard && rest@ == tokens@.skip(1),
                _ => k is Literal && rest@ == tokens@.skip(1),
            },
            tokens@.len() > 0 && simple_pattern_token(tokens@[0].token_type) ==> (res matches Ok(
                (k, _),
            ) ==> lone_pattern_kind(k, tokens@[0].token_type)),
            tokens@.len() > 0 && (tokens@[0].token_type is Ident || tokens@[0].token_type is Underscore
                || tokens@[0].token_type is String || tokens@[0].token_type is Char
                || tokens@[0].token_type is Float) ==> res is Ok,
            cannot_start_operand(tokens@) ==> res is Err,
            tokens@.len() > 0 && tokens@[0].token_type is Arrow ==> res is Err,
            forall|n: nat|
                #![trigger lone_patterns(tokens@.skip(1), n)]
                n > 1 && tokens@.len() > 2 * n && tokens@[0].token_type is OpenParen && lone_patterns(
                    tokens@.skip(1),
                    n,
                ) && tokens@[2 * n as int].token_type is CloseParen ==> (res matches Ok(
                    (PatternKind::Tuple(ps), rest),
                ) && ps@.len() == n && rest@ == tokens@.skip(2 * n as int + 1)),
            forall|n: nat|
                #![trigger lone_patterns(tokens@.skip(1), n)]
                tokens@.len() > 2 * n && tokens@[0].token_type is OpenBracket && lone_patterns(
                    tokens@.skip(1),
                    n,
                ) && tokens@[2 * n as int].token_type is CloseBracket ==> (res matches Ok(
                    (PatternKind::Array(ps), rest),
                ) && ps@.len() == n && rest@ == tokens@.skip(2 * n as int + 1)),
        decreases tokens@.len(), 2int,
    {
        if tokens.len() == 0 {
            return fail(ParseError::UnexpectedEof(TokenType::Ident(String::new())));
        }
        proof {
            reveal_strlit("then");
            reveal_strlit("else");
            reveal_strlit("true");
            reveal_strlit("false");
            assert("then"@.len() == 4 && "false"@.len() == 5 && "then"@[1] != "true"@[1]);
            assert("else"@.len() == 4 && "else"@[0] != "true"@[0]);
        }
        match &tokens[0].token_type {
            TokenType::OpenParen => {
                let after_paren = skip(tokens, 1);
                let parse_item = |t: &'a [Token], c: &mut ParseCtx| -> (r: Result<
                    (Pattern, &'a [Token]),
                    Diagnostics,
                >)
                    requires
                        is_suffix(t@, after_paren@),
                    ensures
                        parse_post(t@, *old(c), *final(c), r),
                        ctx_same(*old(c), *final(c)),
                        lone_pattern_at(t@, 0) ==> (r matches Ok((_, rest)) && rest@ == t@.skip(1)),
                    { Pattern::parse(t, c) };
                proof {
                    assert forall|n: nat| #[trigger] lone_patterns(tokens@.skip(1), n) implies count_from(
                        after_paren@,
                        after_paren@,
                        Some(TokenType::Coma),
                        parse_item,
                        n,
                        after_paren@.skip(2 * n - 1),
                    ) && after_paren@.skip(2 * n - 1) =~= tokens@.skip(2 * n as int) by {
                        lemma_lone_patterns_count(after_paren@, after_paren@, parse_item, n);
                    }
                }
                let (patterns, remaining_tokens, _diags) = parse_vec_with(
                    after_paren,
                    Some(TokenType::Coma),
                    parse_ctx,
                    parse_item,
                );
                if patterns.len() > 1 {
                    if let Ok(remaining_tokens) = expect(remaining_tokens, TokenType::CloseParen) {
                        proof {
                            assert forall|n: nat|
                                tokens@.len() > 2 * n && #[trigger] lone_patterns(tokens@.skip(1), n)
                                    implies remaining_tokens@ =~= tokens@.skip(2 * n as int + 1) by {
                                assert(tokens@.skip(2 * n as int).skip(1) =~= tokens@.skip(
                                    2 * n as int + 1,
                                ));
                            }
                        }
                        return Ok((PatternKind::Tuple(patterns), remaining_tokens));
                    }
                }
                let (pattern, remaining_tokens) = Pattern::parse(after_paren, parse_ctx)?;
                let remaining_tokens = expect(remaining_tokens, TokenType::CloseParen)?;
                Ok((PatternKind::Nested(Box::new(pattern)), remaining_tokens))
            },
            TokenType::OpenBracket => {
                let after_bracket = skip(tokens, 1);
                let parse_item = |t: &'a [Token], c: &mut ParseCtx| -> (r: Result<
                    (ArrayPattern, &'a [Token]),
                    Diagnostics,
                >)
                    requires
                        is_suffix(t@, after_bracket@),
                    ensures
                        parse_post(t@, *old(c), *final(c), r),
                        ctx_same(*old(c), *final(c)),
                        lone_pattern_at(t@, 0) ==> (r matches Ok((_, rest)) && rest@ == t@.skip(1)),
                    { ArrayPattern::parse(t, c) };
                proof {
                    assert forall|n: nat| #[trigger] lone_patterns(tokens@.skip(1), n) implies count_from(
                        after_bracket@,
                        after_bracket@,
                        Some(TokenType::Coma),
                        parse_item,
                        n,
                        after_bracket@.skip(2 * n - 1),
                    ) && after_bracket@.skip(2 * n - 1) =~= tokens@.skip(2 * n as int) by {
                        lemma_lone_patterns_count(after_bracket@, after_bracket@, parse_item, n);
                    }
                }
                let (patterns, remaining_tokens, _diags) = parse_vec_with(
                    after_bracket,
                    Some(TokenType::Coma),
                    parse_ctx,
                    parse_item,
                );
                let remaining_tokens = expect(remaining_tokens, TokenType::CloseBracket)?;
                proof {
                    assert forall|n: nat|
                        tokens@.len() > 2 * n && #[trigger] lone_patterns(tokens@.skip(1), n)
                            implies remaining_tokens@ =~= tokens@.skip(2 * n as int + 1) by {
                        assert(tokens@.skip(2 * n as int).skip(1) =~= tokens@.skip(2 * n as int + 1));
                    }
                }
                Ok((PatternKind::Array(patterns), remaining_tokens))
            },
            TokenType::Type(_) => {
                let (enum_inst, remaining_tokens) = InstancePattern::parse(tokens, parse_ctx)?;
                Ok((PatternKind::Instance(enum_inst), remaining_tokens))
            },
            TokenType::Ident(_) => {
                let (ident, remaining_tokens) = Ident::parse(tokens, parse_ctx)?;
                Ok((PatternKind::Ident(ident), remaining_tokens))
            },
            TokenType::Underscore => Ok((PatternKind::Wildcard, skip(tokens, 1))),
            _ => {
                if let Ok((literal, remaining_tokens)) = Literal::parse(tokens, parse_ctx) {
                    Ok((PatternKind::Literal(literal), remaining_tokens))
                } else {
                    fail(
                        ParseError::UnexpectedToken(
                            tokens[0].clone(),
                            vec![
                                TokenType::OpenParen,
                                TokenType::Ident(String::new()),
                                TokenType::Underscore,
                            ],
                        ),
                    )
                }
            },
        }
    }
}

impl ArrayPattern {
    /// `..name` (the rest of the array), or a pattern.
    pub fn parse<'a>(tokens: &'a [Token], parse_ctx: &mut ParseCtx) -> (res: Result<
        (Self, &'a [Token]),
        Diagnostics,
    >)
        ensures
            parse_post(tokens@, *old(parse_ctx), *final(parse_ctx), res),
            ctx_same(*old(parse_ctx), *final(parse_ctx)),
            tokens@.len() > 2 && (tokens@[0].token_type is Dot || tokens@[0].token_type is SpacedDot)
                && tokens@[1].token_type is Dot && ident_name(tokens@[2].token_type) is Some ==> (
            res matches Ok((ArrayPattern::Rest(i), rest)) && Some(i.name@) == ident_name(
                tokens@[2].token_type,
            ) && rest@ == tokens@.skip(3)),
            lone_pattern_at(tokens@, 0) ==> (res matches Ok((ArrayPattern::Pattern(p), rest))
                && p.binding is None && rest@ == tokens@.skip(1)),
        decreases tokens@.len(), 4int,
    {
        if tokens.len() == 0 {
            return fail(ParseError::UnexpectedEof(TokenType::Dot));
        }
        if (tokens[0].token_type.same_as(&TokenType::Dot) || tokens[0].token_type.same_as(
            &TokenType::SpacedDot,
        )) && tokens.len() > 1 && tokens[1].token_type.same_as(&TokenType::Dot) {
            let (ident, remaining_tokens) = Ident::parse(skip(tokens, 2), parse_ctx)?;
            return Ok((ArrayPattern::Rest(ident), remaining_tokens));
        }
        if let Ok((pattern, remaining_tokens)) = Pattern::parse(tokens, parse_ctx) {
            return Ok((ArrayPattern::Pattern(pattern), remaining_tokens));
        }
        fail(ParseError::UnexpectedToken(tokens[0].clone(), vec![TokenType::Dot, TokenType::OpenBracket]))
    }
}

impl InstancePattern {
    /// A path, then named field patterns or positional ones.
    pub fn parse<'a>(tokens: &'a [Token], parse_ctx: &mut ParseCtx) -> (res: Result<
        (Self, &'a [Token]),
        Diagnostics,
    >)
        ensures
            ctx_same(*old(parse_ctx), *final(parse_ctx)),
            res matches Ok((p, rest)) && {
                &&& is_suffix(rest@, tokens@)
                &&& p.name.path@.len() > 0 ==> rest@.len() < tokens@.len()
                &&& tokens@.len() > 0 && tokens@[0].token_type is Type ==> p.name.path@.len() > 0
            },
        decreases tokens@.len(), if tokens@.len() > 0 && tokens@[0].token_type is Type {
            1int
        } else {
            5int
        },
    {
        let (name, remaining_tokens) = IdentifierPath::parse(tokens, parse_ctx)?;
        let (args, remaining_tokens) = FieldsPatternOrArgumentsPattern::parse(
            remaining_tokens,
            parse_ctx,
        )?;
        Ok((InstancePattern { name, args }, remaining_tokens))
    }
}

impl FieldsPatternOrArgumentsPattern {
    /// Named field patterns (`name: pattern`) separated by comas, else
    /// patterns separated by comas, possibly none.
    pub fn parse<'a>(tokens: &'a [Token], parse_ctx: &mut ParseCtx) -> (res: Result<
        (Self, &'a [Token]),
        Diagnostics,
    >)
        ensures
            ctx_same(*old(parse_ctx), *final(parse_ctx)),
            res matches Ok((p, rest)) && {
                &&& is_suffix(rest@, tokens@)
                &&& p matches FieldsPatternOrArgumentsPattern::Fields(f) ==> f@.len() > 0
            },
        decreases tokens@.len(), 4int,
    {
        let parse_field = |t: &'a [Token], c: &mut ParseCtx| -> (r: Result<
            (FieldPattern, &'a [Token]),
            Diagnostics,
        >)
            requires
                is_suffix(t@, tokens@),
            ensures
                parse_post(t@, *old(c), *final(c), r),
                ctx_same(*old(c), *final(c)),
            { FieldPattern::parse(t, c) };
        let (fields, remaining_tokens, _diags) = parse_vec_with(
            tokens,
            Some(TokenType::Coma),
            parse_ctx,
            parse_field,
        );
        if fields.len() > 0 {
            return Ok((FieldsPatternOrArgumentsPattern::Fields(fields), remaining_tokens));
        }
        let parse_arg = |t: &'a [Token], c: &mut ParseCtx| -> (r: Result<
            (Pattern, &'a [Token]),
            Diagnostics,
        >)
            requires
                is_suffix(t@, tokens@),
            ensures
                parse_post(t@, *old(c), *final(c), r),
                ctx_same(*old(c), *final(c)),
            { Pattern::parse(t, c) };
        let (args, remaining_tokens, _diags) = parse_vec_with(
            tokens,
            Some(TokenType::Coma),
            parse_ctx,
            parse_arg,
        );
        Ok((FieldsPatternOrArgumentsPattern::Arguments(args), remaining_tokens))
    }
}

impl FieldPattern {
    /// `name: pattern`.
    pub fn parse<'a>(tokens: &'a [Token], parse_ctx: &mut ParseCtx) -> (res: Result<
        (Self, &'a [Token]),
        Diagnostics,
    >)
        ensures
            parse_post(tokens@, *old(parse_ctx), *final(parse_ctx), res),
            ctx_same(*old(parse_ctx), *final(parse_ctx)),
            tokens@.len() > 1 && ident_name(tokens@[0].token_type) is Some && tokens@[1].token_type
                is Colon && lone_pattern_at(tokens@, 2) ==> (res matches Ok((f, _)) && Some(
                f.name.name@,
            ) == ident_name(tokens@[0].token_type) && f.pattern.binding is None),
        decreases tokens@.len(), 0int,
    {
        let (ident, remaining_tokens) = Ident::parse(tokens, parse_ctx)?;
        let remaining_tokens = expect(remaining_tokens, TokenType::Colon)?;
        proof {
            if lone_pattern_at(tokens@, 2) {
                assert(remaining_tokens@ =~= tokens@.skip(2));
                assert(remaining_tokens@[0] == tokens@[2]);
                assert(remaining_tokens@.len() > 1 ==> remaining_tokens@[1] == tokens@[3]);
            }
        }
        let (pattern, remaining_tokens) = Pattern::parse(remaining_tokens, parse_ctx)?;
        Ok((FieldPattern { name: ident, pattern }, remaining_tokens))
    }
}

} // verus!
