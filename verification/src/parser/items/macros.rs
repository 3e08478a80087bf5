use vstd::prelude::*;

use crate::ast::{Ident, MacroDecl, MacroEntry, MacroFragment, MacroInvoc};
use crate::lexer::chars::text_is;
use crate::lexer::{Span, Token, TokenType};
use crate::parser::items::conditional::expect_keyword;
use crate::parser::items::ident::ident_name;
use crate::parser::parsable::{
    is_suffix, lemma_skip_suffix_auto, lemma_suffix_refl, lemma_suffix_trans_auto, parse_post,
    skip, starts_with_kw,
};
use crate::parser::parse_ctx::{ctx_kept, ctx_same, ParseCtx};
use crate::parser::util::{
    consume_tokens_until, expect, fail, list_from, list_may, parse_vec_with, Diagnostics, ParseError,
};

verus! {

broadcast use {lemma_suffix_trans_auto, lemma_skip_suffix_auto};

/// The first line of a macro: `macro name`, the end of the line, then the
/// indentation `deeper` of its first entry, which a line can have.
pub open spec fn macro_header(tokens: Seq<Token>, deeper: int) -> bool {
    &&& starts_with_kw(tokens, "macro"@)
    &&& tokens.len() > 3
    &&& ident_name(tokens[1].token_type) is Some
    &&& tokens[2].token_type is Eol
    &&& deeper <= u8::MAX
    &&& tokens[3].token_type == TokenType::Indent(deeper as u8)
}

impl MacroDecl {
    /// `macro name`, the end of the line, then its entries, the first one
    /// indented one block deeper.
    pub fn parse<'a>(tokens: &'a [Token], parse_ctx: &mut ParseCtx) -> (res: Result<
        (Self, &'a [Token]),
        Diagnostics,
    >)
        ensures
            parse_post(tokens@, *old(parse_ctx), *final(parse_ctx), res),
            res is Ok ==> starts_with_kw(tokens@, "macro"@),
            final(parse_ctx).level() != old(parse_ctx).level() ==> (res matches Err(d)
                && d.errors@.len() > 0),
            res is Ok <==> macro_header(
                tokens@,
                old(parse_ctx).level() + old(parse_ctx).indent_step,
            ),
            res matches Ok((m, _)) ==> Some(m.name.name@) == ident_name(tokens@[1].token_type),
            forall|entries: Seq<MacroEntry>, rest: Seq<Token>|
                macro_header(tokens@, old(parse_ctx).level() + old(parse_ctx).indent_step)
                    && #[trigger] list_from(
                    tokens@.skip(4),
                    tokens@.skip(4),
                    Some(TokenType::Indent(2)),
                    MacroEntry::parse,
                    entries,
                    rest,
                ) ==> (res matches Ok((m, r)) && m.entries@ == entries && r@ == rest),
            res matches Ok((m, r)) ==> list_may(
                tokens@.skip(4),
                tokens@.skip(4),
                Some(TokenType::Indent(2)),
                MacroEntry::parse,
                m.entries@,
                r@,
            ),
    {
        let remaining_tokens = expect_keyword(tokens, "macro")?;
        assert(remaining_tokens@ =~= tokens@.skip(1));
        let (name, remaining_tokens) = Ident::parse(remaining_tokens, parse_ctx)?;
        let remaining_tokens = expect(remaining_tokens, TokenType::Eol)?;
        assert(remaining_tokens@ =~= tokens@.skip(3));
        parse_ctx.try_indent()?;
        let remaining_tokens = parse_ctx.consume_indent(remaining_tokens)?;
        assert(remaining_tokens@ =~= tokens@.skip(4));
        let (entries, remaining_tokens, _diags) = parse_vec_with(
            remaining_tokens,
            Some(TokenType::Indent(2)),
            parse_ctx,
            MacroEntry::parse,
        );
        parse_ctx.dedent();
        Ok((MacroDecl { name, entries }, remaining_tokens))
    }
}

impl MacroEntry {
    /// The pattern of an entry, `=>`, the end of the line, and its body; the
    /// body ends with an end-of-file token.
    pub fn parse<'a>(tokens: &'a [Token], parse_ctx: &mut ParseCtx) -> (res: Result<
        (Self, &'a [Token]),
        Diagnostics,
    >)
        ensures
            parse_post(tokens@, *old(parse_ctx), *final(parse_ctx), res),
            ctx_same(*old(parse_ctx), *final(parse_ctx)),
            res matches Ok((e, _)) ==> e.body@.len() > 0 && (e.body@.last() matches MacroFragment::Token(t)
                && t.token_type is Eof),
            forall|n: int, m: int|
                #[trigger] plain_entry(tokens@, n, m) ==> (res matches Ok((e, rest)) && e.defs@.len()
                    == n && e.body@.len() == m + 1 && rest@ == tokens@.skip(n + 2 + m)),
            flat_head(tokens@) ==> (res matches Ok((e, _)) ==> e.defs@ == head_defs(tokens@)),
    {
        let (defs, remaining_tokens) = parse_macro_head_recursive(tokens, parse_ctx)?;
        let remaining_tokens = expect(remaining_tokens, TokenType::FatArrow)?;
        let remaining_tokens = expect(remaining_tokens, TokenType::Eol)?;
        let (mut body, remaining_tokens) = parse_macro_block_recursive(remaining_tokens, parse_ctx)?;
        body.push(MacroFragment::Token(Token { token_type: TokenType::Eof, span: Span::empty() }));
        Ok((MacroEntry { defs, body }, remaining_tokens))
    }
}

/// A fragment of a pattern is a variable, a repetition, or a token that is
/// none of the marks of a pattern (variables, repetitions, `=>`).
pub open spec fn plain_fragment(f: MacroFragment) -> bool {
    match f {
        MacroFragment::Token(t) => !(t.token_type is MacroVar || t.token_type is MacroRepeatOpen
            || t.token_type is MacroRepeatClose || t.token_type is FatArrow),
        _ => true,
    }
}

/// A pattern without repetitions up to its end (`=>`, the close of a
/// repetition, or the end of the tokens): each variable is followed by `:`
/// and its kind.
pub open spec fn flat_head(t: Seq<Token>) -> bool
    decreases t.len(),
{
    if t.len() == 0 || t[0].token_type is FatArrow || t[0].token_type is MacroRepeatClose {
        true
    } else if t[0].token_type is MacroRepeatOpen {
        false
    } else if t[0].token_type is MacroVar {
        t.len() >= 3 && t[1].token_type is Colon && flat_head(t.skip(3))
    } else {
        flat_head(t.skip(1))
    }
}

/// The fragments of a pattern without repetitions: a variable of kind
/// `ident` for each such variable, every other token for itself.
pub open spec fn head_defs(t: Seq<Token>) -> Seq<MacroFragment>
    decreases t.len(),
{
    if t.len() == 0 || t[0].token_type is FatArrow || t[0].token_type is MacroRepeatClose
        || t[0].token_type is MacroRepeatOpen {
        Seq::empty()
    } else if t[0].token_type is MacroVar {
        if t.len() >= 3 {
            (if t[2].token_type is Ident && t[2].token_type->Ident_0@ == "ident"@ {
                seq![
                    MacroFragment::Ident(
                        Ident { name: t[0].token_type->MacroVar_0, span: t[0].span },
                    ),
                ]
            } else {
                Seq::empty()
            }) + head_defs(t.skip(3))
        } else {
            Seq::empty()
        }
    } else {
        seq![MacroFragment::Token(t[0])] + head_defs(t.skip(1))
    }
}

/// What a pattern without repetitions leaves: from its `=>`, or after the
/// close of its repetition.
pub open spec fn head_rest(t: Seq<Token>) -> Seq<Token>
    decreases t.len(),
{
    if t.len() == 0 || t[0].token_type is FatArrow {
        t
    } else if t[0].token_type is MacroRepeatClose {
        t.skip(1)
    } else if t[0].token_type is MacroVar {
        if t.len() >= 3 {
            head_rest(t.skip(3))
        } else {
            t
        }
    } else if t[0].token_type is MacroRepeatOpen {
        t
    } else {
        head_rest(t.skip(1))
    }
}

/// A token of a pattern that stands for itself: no variable, no mark of a
/// repetition, no `=>`.
pub open spec fn plain_pattern_token(t: TokenType) -> bool {
    !(t is MacroVar || t is MacroRepeatOpen || t is MacroRepeatClose || t is FatArrow)
}

/// The first `k` tokens stand for themselves, and `=>` follows them.
pub open spec fn plain_pattern_then_arrow(tokens: Seq<Token>, k: int) -> bool {
    &&& 0 <= k < tokens.len()
    &&& forall|i: int| 0 <= i < k ==> plain_pattern_token(#[trigger] tokens[i].token_type)
    &&& tokens[k].token_type is FatArrow
}

/// A token of a body that stands for itself: no variable, no mark of a
/// repetition, no indentation.
pub open spec fn plain_body_token(t: TokenType) -> bool {
    !(t is MacroVar || t is MacroRepeatOpen || t is MacroRepeatClose || t is Indent)
}

/// The first `k` tokens stand for themselves, and the tokens end there or a
/// line indented at 0 or 2 follows, where the entry ends.
pub open spec fn plain_body_then_end(tokens: Seq<Token>, k: int) -> bool {
    &&& 0 <= k <= tokens.len()
    &&& forall|i: int| 0 <= i < k ==> plain_body_token(#[trigger] tokens[i].token_type)
    &&& k == tokens.len() || tokens[k].token_type == TokenType::Indent(0) || tokens[k].token_type
        == TokenType::Indent(2)
}

/// An entry with a pattern of `n` plain tokens, `=>`, the end of the line,
/// and a body of `m` plain tokens.
pub open spec fn plain_entry(tokens: Seq<Token>, n: int, m: int) -> bool {
    &&& plain_pattern_then_arrow(tokens, n)
    &&& n + 1 < tokens.len()
    &&& tokens[n + 1].token_type is Eol
    &&& plain_body_then_end(tokens.skip(n + 2), m)
}

/// The pattern of a macro entry, up to `=>` or to the `)` that closes a
/// repetition (which is consumed). A variable is written `$name:kind`; those
/// of kind `ident` are kept, the others are dropped.
pub fn parse_macro_head_recursive<'a>(tokens: &'a [Token], parse_ctx: &mut ParseCtx) -> (res: Result<
    (Vec<MacroFragment>, &'a [Token]),
    Diagnostics,
>)
    ensures
        res matches Err(d) ==> d.errors@.len() > 0,
        *final(parse_ctx) == *old(parse_ctx),
        res matches Ok((defs, rest)) ==> {
            &&& is_suffix(rest@, tokens@)
            &&& rest@.len() == 0 || rest@[0].token_type is FatArrow || (rest@.len() < tokens@.len()
                && tokens@[tokens@.len() - rest@.len() - 1].token_type is MacroRepeatClose)
            &&& forall|i: int| 0 <= i < defs@.len() ==> plain_fragment(#[trigger] defs@[i])
        },
        forall|k: int|
            #[trigger] plain_pattern_then_arrow(tokens@, k) ==> (res matches Ok((defs, rest))
                && defs@.len() == k && rest@ == tokens@.skip(k)),
        flat_head(tokens@) ==> (res matches Ok((defs, rest)) && defs@ == head_defs(tokens@) && rest@
            == head_rest(tokens@)),
    decreases tokens@.len(),
{
    let mut defs: Vec<MacroFragment> = Vec::new();
    let mut remaining_tokens = tokens;
    let mut skip_until: usize = 0;
    proof {
        lemma_suffix_refl(tokens@);
    }
    while remaining_tokens.len() > 0
        invariant
            is_suffix(remaining_tokens@, tokens@),
            skip_until <= remaining_tokens@.len(),
            skip_until <= 3,
            *parse_ctx == *old(parse_ctx),
            forall|i: int| 0 <= i < defs@.len() ==> plain_fragment(#[trigger] defs@[i]),
            forall|k: int|
                #[trigger] plain_pattern_then_arrow(tokens@, k) ==> skip_until == 0
                    && tokens@.len() - remaining_tokens@.len() <= k && defs@.len() == tokens@.len()
                    - remaining_tokens@.len(),
            flat_head(tokens@) ==> {
                &&& flat_head(remaining_tokens@.skip(skip_until as int))
                &&& head_defs(tokens@) == defs@ + head_defs(remaining_tokens@.skip(skip_until as int))
                &&& head_rest(tokens@) == head_rest(remaining_tokens@.skip(skip_until as int))
            },
        decreases remaining_tokens@.len() * 4 - skip_until,
    {
        if skip_until > 0 {
            proof {
                assert(remaining_tokens@.skip(1).skip(skip_until - 1) =~= remaining_tokens@.skip(
                    skip_until as int,
                ));
            }
            skip_until = skip_until - 1;
            remaining_tokens = skip(remaining_tokens, 1);
            continue ;
        }
        let ghost rem = remaining_tokens@;
        let ghost before = defs@;
        proof {
            assert(rem.skip(0) =~= rem);
            reveal_strlit("ident");
        }
        let token = &remaining_tokens[0];
        match &token.token_type {
            TokenType::MacroVar(name) => {
                if remaining_tokens.len() < 2 {
                    return fail(ParseError::UnexpectedEof(TokenType::Colon));
                }
                if !remaining_tokens[1].token_type.same_as(&TokenType::Colon) {
                    return fail(
                        ParseError::UnexpectedToken(
                            remaining_tokens[1].clone(),
                            vec![TokenType::Colon],
                        ),
                    );
                }
                if remaining_tokens.len() < 3 {
                    return fail(ParseError::UnexpectedEof(TokenType::Ident(String::new())));
                }
                let is_ident = match &remaining_tokens[2].token_type {
                    TokenType::Ident(kind) => text_is(kind.as_str(), "ident"),
                    _ => false,
                };
                if is_ident {
                    defs.push(MacroFragment::Ident(Ident { name: name.clone(), span: token.span.clone() }));
                }
                proof {
                    if flat_head(tokens@) {
                        if is_ident {
                            assert(head_defs(rem) =~= seq![defs@.last()] + head_defs(rem.skip(3)));
                        } else {
                            assert(head_defs(rem) =~= head_defs(rem.skip(3)));
                        }
                        assert(defs@ + head_defs(rem.skip(3)) =~= before + head_defs(rem));
                    }
                }
                skip_until = 3;
                continue ;
            },
            TokenType::MacroRepeatOpen => {
                let (inner_block, new_remaining_tokens) = parse_macro_head_recursive(
                    skip(remaining_tokens, 1),
                    parse_ctx,
                )?;
                remaining_tokens = new_remaining_tokens;
                defs.push(MacroFragment::Repetition(inner_block));
            },
            TokenType::MacroRepeatClose => {
                proof {
                    assert(defs@ + head_defs(rem) =~= defs@);
                }
                return Ok((defs, skip(remaining_tokens, 1)));
            },
            TokenType::FatArrow => {
                proof {
                    assert(defs@ + head_defs(rem) =~= defs@);
                }
                return Ok((defs, remaining_tokens));
            },
            _ => {
                defs.push(MacroFragment::Token(token.clone()));
                remaining_tokens = skip(remaining_tokens, 1);
                proof {
                    assert(remaining_tokens@.skip(0) =~= remaining_tokens@);
                    if flat_head(tokens@) {
                        assert(defs@ + head_defs(rem.skip(1)) =~= before + head_defs(rem));
                    }
                }
            },
        }
    }
    proof {
        assert(remaining_tokens@.skip(0) =~= remaining_tokens@);
        assert(defs@ + head_defs(remaining_tokens@) =~= defs@);
    }
    Ok((defs, remaining_tokens))
}

/// The body of a macro entry, up to the `)` that closes a repetition (which
/// is consumed) or to a line indented at 0 or 2, where the entry ends. The
/// indentation of the other lines is taken 4 shallower, as the body is read
/// at the level of the invocation.
pub fn parse_macro_block_recursive<'a>(tokens: &'a [Token], parse_ctx: &mut ParseCtx) -> (res: Result<
    (Vec<MacroFragment>, &'a [Token]),
    Diagnostics,
>)
    ensures
        res matches Err(d) ==> d.errors@.len() > 0,
        *final(parse_ctx) == *old(parse_ctx),
        res matches Ok((_, rest)) ==> is_suffix(rest@, tokens@),
        forall|k: int|
            #[trigger] plain_body_then_end(tokens@, k) ==> (res matches Ok((block, rest))
                && block@.len() == k && rest@ == tokens@.skip(k)),
    decreases tokens@.len(),
{
    let mut block: Vec<MacroFragment> = Vec::new();
    let mut remaining_tokens = tokens;
    proof {
        lemma_suffix_refl(tokens@);
    }
    while remaining_tokens.len() > 0
        invariant
            is_suffix(remaining_tokens@, tokens@),
            *parse_ctx == *old(parse_ctx),
            forall|k: int|
                #[trigger] plain_body_then_end(tokens@, k) ==> tokens@.len() - remaining_tokens@.len()
                    <= k && block@.len() == tokens@.len() - remaining_tokens@.len(),
        decreases remaining_tokens@.len(),
    {
        let token = &remaining_tokens[0];
        match &token.token_type {
            TokenType::MacroVar(name) => {
                block.push(MacroFragment::Ident(Ident { name: name.clone(), span: token.span.clone() }));
                remaining_tokens = skip(remaining_tokens, 1);
            },
            TokenType::MacroRepeatOpen => {
                let (inner_block, new_remaining_tokens) = parse_macro_block_recursive(
                    skip(remaining_tokens, 1),
                    parse_ctx,
                )?;
                remaining_tokens = new_remaining_tokens;
                block.push(MacroFragment::Repetition(inner_block));
            },
            TokenType::MacroRepeatClose => {
                return Ok((block, skip(remaining_tokens, 1)));
            },
            TokenType::Indent(level) => {
                let level = *level;
                if level == 0 || level == 2 {
                    // the entry is over
                    return Ok((block, remaining_tokens));
                }
                if level < 4 {
                    return fail(ParseError::IndentMismatch(level, 4, token.span.clone()));
                }
                block.push(
                    MacroFragment::Token(
                        Token { token_type: TokenType::Indent(level - 4), span: token.span.clone() },
                    ),
                );
                remaining_tokens = skip(remaining_tokens, 1);
            },
            _ => {
                block.push(MacroFragment::Token(token.clone()));
                remaining_tokens = skip(remaining_tokens, 1);
            },
        }
    }
    Ok((block, remaining_tokens))
}

/// Whether a token is kept among the arguments of a macro invocation: line
/// ends and indentations are not.
pub open spec fn is_macro_arg(t: Token) -> bool {
    !(t.token_type is Eol || t.token_type is Indent)
}

/// The tokens of `s` kept as macro arguments, in order.
pub open spec fn macro_args(s: Seq<Token>) -> Seq<Token>
    decreases s.len(),
{
    if s.len() == 0 {
        s
    } else if is_macro_arg(s.last()) {
        macro_args(s.drop_last()).push(s.last())
    } else {
        macro_args(s.drop_last())
    }
}

/// The tokens of `tokens` without line ends and indentations.
pub fn filter_macro_args(tokens: &Vec<Token>) -> (res: Vec<Token>)
    ensures
        res@ == macro_args(tokens@),
{
    let mut res: Vec<Token> = Vec::new();
    let mut i: usize = 0;
    assert(tokens@.take(0) =~= Seq::<Token>::empty());
    while i < tokens.len()
        invariant
            i <= tokens@.len(),
            res@ == macro_args(tokens@.take(i as int)),
        decreases tokens@.len() - i,
    {
        assert(tokens@.take(i + 1).drop_last() =~= tokens@.take(i as int));
        let t = &tokens[i];
        let keep = match &t.token_type {
            TokenType::Eol => false,
            TokenType::Indent(_) => false,
            _ => true,
        };
        if keep {
            res.push(t.clone());
        }
        i = i + 1;
    }
    assert(tokens@.take(i as int) =~= tokens@);
    res
}

impl MacroInvoc {
    /// An invocation `%name`, and its arguments: the tokens up to the next
    /// line indented at 0, without line ends and indentations.
    pub fn parse<'a>(tokens: &'a [Token], parse_ctx: &mut ParseCtx) -> (res: Result<
        (Self, &'a [Token]),
        Diagnostics,
    >)
        ensures
            *final(parse_ctx) == *old(parse_ctx),
            res is Ok <==> tokens@.len() > 0 && tokens@[0].token_type is MacroInvoc,
            res matches Ok((m, rest)) ==> {
                let (args, after) = (
                    tokens@.skip(1).take(tokens@.len() - 1 - rest@.len()),
                    rest@,
                );
                &&& is_suffix(rest@, tokens@)
                &&& rest@.len() < tokens@.len()
                &&& m.name.name@ == tokens@[0].token_type->MacroInvoc_0@
                &&& m.args@ == macro_args(args)
                &&& forall|i: int| 0 <= i < args.len() ==> #[trigger] args[i].token_type
                    != TokenType::Indent(0)
                &&& after.len() > 0 ==> after[0].token_type == TokenType::Indent(0)
            },
    {
        if tokens.len() > 0 {
            let token = &tokens[0];
            if let TokenType::MacroInvoc(ident) = &token.token_type {
                let (args, remaining_tokens) = consume_tokens_until(
                    skip(tokens, 1),
                    TokenType::Indent(0),
                );
                let args = filter_macro_args(&args);
                return Ok(
                    (
                        MacroInvoc {
                            name: Ident { name: ident.clone(), span: token.span.clone() },
                            args,
                        },
                        remaining_tokens,
                    ),
                );
            }
        }
        fail(ParseError::UnexpectedEof(TokenType::MacroInvoc(String::new())))
    }
}

} // verus!
