use vstd::prelude::*;

use crate::ast::{Array, Expression, Literal, LiteralKind};
use crate::lexer::chars::{is_decimal_digit, text_is};
use crate::lexer::{Token, TokenType};
use crate::parser::parsable::{
    is_suffix, lemma_skip_suffix_auto, lemma_suffix_trans_auto, parse_post, skip, Parsable,
};
use crate::parser::parse_ctx::{ctx_same, ParseCtx};
use crate::parser::util::{count_from, expect, fail, parse_vec_with, Diagnostics, ParseError};
use crate::parser::items::expression::{
    cannot_start_operand, lemma_literal_args_count, literal_args, lone_literal,
};

verus! {

broadcast use {lemma_suffix_trans_auto, lemma_skip_suffix_auto};

/// The value of a string of decimal digits.
pub open spec fn decimal_value(s: Seq<char>) -> int
    decreases s.len(),
{
    if s.len() == 0 {
        0
    } else {
        decimal_value(s.drop_last()) * 10 + (s.last() as int - '0' as int)
    }
}

pub open spec fn all_digits(s: Seq<char>) -> bool {
    forall|i: int| 0 <= i < s.len() ==> #[trigger] is_decimal_digit(s[i])
}

proof fn lemma_decimal_value_grows(s: Seq<char>, j: int)
    requires
        all_digits(s),
        0 <= j <= s.len(),
    ensures
        0 <= decimal_value(s.take(j)) <= decimal_value(s),
    decreases s.len() - j,
{
    if j < s.len() {
        lemma_decimal_value_grows(s, j + 1);
        assert(s.take(j + 1).drop_last() =~= s.take(j));
        assert(is_decimal_digit(s[j]));
        lemma_decimal_value_nonneg(s.take(j));
    } else {
        assert(s.take(j) =~= s);
        lemma_decimal_value_nonneg(s);
    }
}

proof fn lemma_decimal_value_nonneg(s: Seq<char>)
    requires
        all_digits(s),
    ensures
        decimal_value(s) >= 0,
    decreases s.len(),
{
    if s.len() > 0 {
        assert(is_decimal_digit(s[s.len() - 1]));
        assert(all_digits(s.drop_last()));
        lemma_decimal_value_nonneg(s.drop_last());
    }
}

/// The number written in decimal digits in `s`, when it fits in 64 bits.
pub fn parse_u64(s: &str) -> (res: Option<u64>)
    ensures
        res is Some <==> s@.len() > 0 && all_digits(s@) && decimal_value(s@) <= u64::MAX,
        res matches Some(v) ==> v == decimal_value(s@),
{
    let n = s.unicode_len();
    if n == 0 {
        return None;
    }
    let mut value: u64 = 0;
    let mut i: usize = 0;
    assert(s@.take(0) =~= Seq::<char>::empty());
    while i < n
        invariant
            n == s@.len(),
            i <= n,
            all_digits(s@.take(i as int)),
            value == decimal_value(s@.take(i as int)),
        decreases n - i,
    {
        let c = s.get_char(i);
        if !('0' <= c && c <= '9') {
            assert(!is_decimal_digit(s@[i as int]));
            return None;
        }
        assert(s@.take(i + 1).drop_last() =~= s@.take(i as int));
        assert(all_digits(s@.take(i + 1))) by {
            assert forall|k: int| 0 <= k < i + 1 implies #[trigger] is_decimal_digit(
                s@.take(i + 1)[k],
            ) by {
                if k < i {
                    assert(s@.take(i + 1)[k] == s@.take(i as int)[k]);
                }
            }
        }
        let digit = (c as u32 - '0' as u32) as u64;
        match value.checked_mul(10) {
            Some(scaled) => match scaled.checked_add(digit) {
                Some(next) => {
                    value = next;
                },
                None => {
                    proof {
                        if all_digits(s@) {
                            lemma_decimal_value_grows(s@, i + 1);
                        }
                    }
                    return None;
                },
            },
            None => {
                proof {
                    if all_digits(s@) {
                        lemma_decimal_value_grows(s@, i + 1);
                        lemma_decimal_value_nonneg(s@.take(i as int));
                    }
                }
                return None;
            },
        }
        i = i + 1;
    }
    assert(s@.take(n as int) =~= s@);
    Some(value)
}

/// The value that a literal token stands for.
pub open spec fn token_literal(t: TokenType, kind: LiteralKind) -> bool {
    match t {
        TokenType::Number(v) => kind matches LiteralKind::Number(n) && n == decimal_value(v@),
        TokenType::String(s) => kind matches LiteralKind::String(x) && x@ == s@,
        TokenType::Char(c) => kind == LiteralKind::Char(c),
        TokenType::Keyword(k) => kind == LiteralKind::Bool(k@ == "true"@),
        TokenType::Float(f) => kind matches LiteralKind::Float(x) && x@ == f@,
        _ => false,
    }
}

impl Literal {
    /// A boolean, a number, a string, a character or an array of expressions.
    pub fn parse<'a>(tokens: &'a [Token], parse_ctx: &mut ParseCtx) -> (res: Result<
        (Self, &'a [Token]),
        Diagnostics,
    >)
        ensures
            parse_post(tokens@, *old(parse_ctx), *final(parse_ctx), res),
            ctx_same(*old(parse_ctx), *final(parse_ctx)),
            res matches Ok((lit, rest)) ==> match tokens@[0].token_type {
                TokenType::Number(v) => lit.kind matches LiteralKind::Number(n) && n
                    == decimal_value(v@) && rest@ == tokens@.skip(1),
                TokenType::String(s) => lit.kind matches LiteralKind::String(t) && t@ == s@
                    && rest@ == tokens@.skip(1),
                TokenType::Char(c) => lit.kind == LiteralKind::Char(c) && rest@ == tokens@.skip(1),
                TokenType::Keyword(k) => lit.kind == LiteralKind::Bool(k@ == "true"@)
                    && rest@ == tokens@.skip(1),
                TokenType::OpenBracket => lit.kind is Array,
                TokenType::Float(f) => lit.kind matches LiteralKind::Float(t) && t@ == f@
                    && rest@ == tokens@.skip(1),
                _ => false,
            },
            tokens@.len() > 0 ==> match tokens@[0].token_type {
                TokenType::Number(v) => res is Ok <==> (v@.len() > 0 && all_digits(v@)
                    && decimal_value(v@) <= u64::MAX),
                TokenType::String(_) => res is Ok,
                TokenType::Char(_) => res is Ok,
                TokenType::Float(_) => res is Ok,
                TokenType::Keyword(k) => res is Ok <==> (k@ == "true"@ || k@ == "false"@),
                TokenType::OpenBracket => true,
                _ => res is Err,
            },
            tokens@.len() > 1 && tokens@[0].token_type is OpenBracket && tokens@[1].token_type
                is CloseBracket ==> (res matches Ok((lit, rest)) && (lit.kind matches LiteralKind::Array(
                a,
            ) && a.elements@.len() == 0) && rest@ == tokens@.skip(2)),
            forall|n: nat|
                #![trigger literal_args(tokens@.skip(1), n)]
                tokens@.len() > 2 * n && tokens@[0].token_type is OpenBracket && literal_args(
                    tokens@.skip(1),
                    n,
                ) && tokens@[2 * n as int].token_type is CloseBracket ==> (res matches Ok((lit, rest)) && (
                lit.kind matches LiteralKind::Array(a) && a.elements@.len() == n) && rest@ == tokens@.skip(
                    2 * n as int + 1,
                )),
            res matches Ok((lit, rest)) ==> (lit.kind matches LiteralKind::Array(a) && a.elements@.len()
                == 0 ==> tokens@[1].token_type is CloseBracket && rest@ == tokens@.skip(2)),
            tokens@.len() > 0 && !(tokens@[0].token_type is OpenBracket) ==> *final(parse_ctx)
                == *old(parse_ctx),
        decreases tokens@.len(), 1int,
    {
        if tokens.len() == 0 {
            return fail(ParseError::UnexpectedEof(TokenType::Number(String::new())));
        }
        let token = &tokens[0];
        let (literal_kind, remaining_tokens) = match &token.token_type {
            TokenType::Keyword(value) => {
                if text_is(value.as_str(), "true") {
                    (LiteralKind::Bool(true), skip(tokens, 1))
                } else if text_is(value.as_str(), "false") {
                    proof {
                        reveal_strlit("true");
                        reveal_strlit("false");
                    }
                    (LiteralKind::Bool(false), skip(tokens, 1))
                } else {
                    return fail(
                        ParseError::UnexpectedToken(
                            token.clone(),
                            vec![TokenType::Number(String::new())],
                        ),
                    );
                }
            },
            TokenType::Number(value) => match parse_u64(value.as_str()) {
                Some(n) => (LiteralKind::Number(n), skip(tokens, 1)),
                None => {
                    return fail(ParseError::InvalidNumber(token.clone()));
                },
            },
            TokenType::Float(value) => (LiteralKind::Float(value.clone()), skip(tokens, 1)),
            TokenType::String(s) => (LiteralKind::String(s.clone()), skip(tokens, 1)),
            TokenType::Char(c) => (LiteralKind::Char(*c), skip(tokens, 1)),
            TokenType::OpenBracket => {
                let after_open = skip(tokens, 1);
                let parse_item = |t: &'a [Token], c: &mut ParseCtx| -> (r: Result<
                    (Expression, &'a [Token]),
                    Diagnostics,
                >)
                    requires
                        is_suffix(t@, after_open@),
                    ensures
                        parse_post(t@, *old(c), *final(c), r),
                        ctx_same(*old(c), *final(c)),
                        cannot_start_operand(t@) ==> r is Err,
                        lone_literal(t@) ==> (r matches Ok((_, rest)) && rest@ == t@.skip(1)),
                    { Expression::parse(t, c) };
                proof {
                    assert forall|n: nat| #[trigger] literal_args(tokens@.skip(1), n) implies count_from(
                        after_open@,
                        after_open@,
                        Some(TokenType::Coma),
                        parse_item,
                        n,
                        after_open@.skip(2 * n - 1),
                    ) by {
                        lemma_literal_args_count(after_open@, after_open@, parse_item, n);
                    }
                }
                let (array, remaining_tokens, _diags) = parse_vec_with(
                    after_open,
                    Some(TokenType::Coma),
                    parse_ctx,
                    parse_item,
                );
                proof {
                    assert forall|n: nat|
                        tokens@.len() > 2 * n && #[trigger] literal_args(tokens@.skip(1), n)
                            implies after_open@.skip(2 * n - 1) =~= tokens@.skip(2 * n as int) by {
                        lemma_literal_args_count(after_open@, after_open@, parse_item, n);
                    }
                }
                let remaining_tokens = expect(remaining_tokens, TokenType::CloseBracket)?;
                proof {
                    assert forall|n: nat|
                        tokens@.len() > 2 * n && #[trigger] literal_args(tokens@.skip(1), n)
                            implies remaining_tokens@ =~= tokens@.skip(2 * n as int + 1) by {
                        assert(tokens@.skip(2 * n as int).skip(1) =~= tokens@.skip(2 * n as int + 1));
                    }
                }
                (LiteralKind::Array(Array { elements: array }), remaining_tokens)
            },
            _ => {
                return fail(
                    ParseError::UnexpectedToken(token.clone(), vec![TokenType::Number(String::new())]),
                );
            },
        };
        Ok((Literal { kind: literal_kind, span: token.span.clone() }, remaining_tokens))
    }
}

impl Parsable for Literal {
    fn parse<'a>(tokens: &'a [Token], parse_ctx: &mut ParseCtx) -> (res: Result<
        (Self, &'a [Token]),
        Diagnostics,
    >)
        ensures
            parse_post(tokens@, *old(parse_ctx), *final(parse_ctx), res),
            ctx_same(*old(parse_ctx), *final(parse_ctx)),
            res matches Ok((lit, rest)) ==> match tokens@[0].token_type {
                TokenType::Number(v) => lit.kind matches LiteralKind::Number(n) && n
                    == decimal_value(v@) && rest@ == tokens@.skip(1),
                TokenType::String(s) => lit.kind matches LiteralKind::String(t) && t@ == s@
                    && rest@ == tokens@.skip(1),
                TokenType::Char(c) => lit.kind == LiteralKind::Char(c) && rest@ == tokens@.skip(1),
                TokenType::Keyword(k) => lit.kind == LiteralKind::Bool(k@ == "true"@)
                    && rest@ == tokens@.skip(1),
                TokenType::OpenBracket => lit.kind is Array,
                TokenType::Float(f) => lit.kind matches LiteralKind::Float(t) && t@ == f@
                    && rest@ == tokens@.skip(1),
                _ => false,
            },
            tokens@.len() > 0 ==> match tokens@[0].token_type {
                TokenType::Number(v) => res is Ok <==> (v@.len() > 0 && all_digits(v@)
                    && decimal_value(v@) <= u64::MAX),
                TokenType::String(_) => res is Ok,
                TokenType::Char(_) => res is Ok,
                TokenType::Float(_) => res is Ok,
                TokenType::Keyword(k) => res is Ok <==> (k@ == "true"@ || k@ == "false"@),
                TokenType::OpenBracket => true,
                _ => res is Err,
            },
            tokens@.len() > 1 && tokens@[0].token_type is OpenBracket && tokens@[1].token_type
                is CloseBracket ==> (res matches Ok((lit, rest)) && (lit.kind matches LiteralKind::Array(
                a,
            ) && a.elements@.len() == 0) && rest@ == tokens@.skip(2)),
            forall|n: nat|
                #![trigger literal_args(tokens@.skip(1), n)]
                tokens@.len() > 2 * n && tokens@[0].token_type is OpenBracket && literal_args(
                    tokens@.skip(1),
                    n,
                ) && tokens@[2 * n as int].token_type is CloseBracket ==> (res matches Ok((lit, rest)) && (
                lit.kind matches LiteralKind::Array(a) && a.elements@.len() == n) && rest@ == tokens@.skip(
                    2 * n as int + 1,
                )),
            res matches Ok((lit, rest)) ==> (lit.kind matches LiteralKind::Array(a) && a.elements@.len()
                == 0 ==> tokens@[1].token_type is CloseBracket && rest@ == tokens@.skip(2)),
    {
        Literal::parse(tokens, parse_ctx)
    }
}

} // verus!
