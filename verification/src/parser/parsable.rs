use vstd::prelude::*;

use crate::lexer::chars::text_is;
use crate::lexer::token::same_token_type;
use crate::lexer::{Token, TokenType};
use crate::parser::parse_ctx::{ctx_kept, ParseCtx};
use crate::parser::util::Diagnostics;

verus! {

/// `rest` is what is left of `tokens` once some of its first tokens are taken.
pub open spec fn is_suffix(rest: Seq<Token>, tokens: Seq<Token>) -> bool {
    rest.len() <= tokens.len() && rest == tokens.skip(tokens.len() - rest.len())
}

/// What every parser promises: a success consumes at least one token and
/// leaves the rest, with the indentation level as it found it; success or
/// not, the indentation step and the type mode are kept.
pub open spec fn parse_post<'a, T>(
    tokens: Seq<Token>,
    before: ParseCtx,
    after: ParseCtx,
    res: Result<(T, &'a [Token]), Diagnostics>,
) -> bool {
    &&& ctx_kept(before, after)
    &&& res matches Ok((_, rest)) ==> {
        &&& rest@.len() < tokens.len()
        &&& is_suffix(rest@, tokens)
        &&& after.level() == before.level()
    }
}

pub proof fn lemma_suffix_trans(a: Seq<Token>, b: Seq<Token>, c: Seq<Token>)
    requires
        is_suffix(a, b),
        is_suffix(b, c),
    ensures
        is_suffix(a, c),
{
    assert(a =~= c.skip(c.len() - a.len()));
}

pub broadcast proof fn lemma_suffix_trans_auto(a: Seq<Token>, b: Seq<Token>, c: Seq<Token>)
    requires
        #[trigger] is_suffix(a, b),
        #[trigger] is_suffix(b, c),
    ensures
        is_suffix(a, c),
{
    lemma_suffix_trans(a, b, c);
}

/// `tokens` without its first `n` tokens.
pub fn skip<'a>(tokens: &'a [Token], n: usize) -> (res: &'a [Token])
    requires
        n <= tokens@.len(),
    ensures
        res@ == tokens@.skip(n as int),
        is_suffix(res@, tokens@),
        res@.len() == tokens@.len() - n,
{
    proof {
        lemma_skip_suffix(tokens@, n as int);
    }
    vstd::slice::slice_subrange(tokens, n, tokens.len())
}

/// Whether the first token is of type `token_type`.
pub fn starts_with(tokens: &[Token], token_type: &TokenType) -> (res: bool)
    ensures
        res == starts_with_type(tokens@, *token_type),
{
    tokens.len() > 0 && tokens[0].token_type.same_as(token_type)
}

/// The first of `tokens` is the keyword `keyword`.
pub open spec fn starts_with_kw(tokens: Seq<Token>, keyword: Seq<char>) -> bool {
    tokens.len() > 0 && tokens[0].token_type is Keyword && tokens[0].token_type->Keyword_0@
        == keyword
}

/// The first of `tokens` has the type `token_type`.
pub open spec fn starts_with_type(tokens: Seq<Token>, token_type: TokenType) -> bool {
    tokens.len() > 0 && same_token_type(tokens[0].token_type, token_type)
}

/// Whether the first token is the keyword `keyword`.
pub fn starts_with_keyword(tokens: &[Token], keyword: &str) -> (res: bool)
    ensures
        res == starts_with_kw(tokens@, keyword@),
{
    if tokens.len() == 0 {
        return false;
    }
    match &tokens[0].token_type {
        TokenType::Keyword(k) => text_is(k.as_str(), keyword),
        _ => false,
    }
}

/// Copies of the tokens.
pub fn clone_tokens(tokens: &[Token]) -> (res: Vec<Token>)
    ensures
        res@ == tokens@,
{
    let mut res: Vec<Token> = Vec::new();
    let mut i: usize = 0;
    while i < tokens.len()
        invariant
            i <= tokens@.len(),
            res@ == tokens@.take(i as int),
        decreases tokens.len() - i,
    {
        res.push(tokens[i].clone());
        i = i + 1;
        assert(res@ =~= tokens@.take(i as int));
    }
    assert(tokens@.take(i as int) =~= tokens@);
    res
}

pub proof fn lemma_skip_suffix(tokens: Seq<Token>, n: int)
    requires
        0 <= n <= tokens.len(),
    ensures
        is_suffix(tokens.skip(n), tokens),
{
    assert(tokens.skip(n) =~= tokens.skip(tokens.len() - tokens.skip(n).len()));
}

pub broadcast proof fn lemma_skip_suffix_auto(tokens: Seq<Token>, n: int)
    requires
        0 <= n <= tokens.len(),
    ensures
        is_suffix(#[trigger] tokens.skip(n), tokens),
{
    lemma_skip_suffix(tokens, n);
}

pub proof fn lemma_suffix_refl(tokens: Seq<Token>)
    ensures
        is_suffix(tokens, tokens),
{
    assert(tokens.skip(0) =~= tokens);
}

/// Something that can be read from the start of a list of tokens.
pub trait Parsable: Sized {
    fn parse<'a>(tokens: &'a [Token], parse_ctx: &mut ParseCtx) -> (res: Result<
        (Self, &'a [Token]),
        Diagnostics,
    >)
        ensures
            parse_post(tokens@, *old(parse_ctx), *final(parse_ctx), res),
    ;
}

} // verus!
