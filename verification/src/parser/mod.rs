use vstd::prelude::*;

use crate::ast::{ModuleInner, Program};
use crate::config::Config;
use crate::lexer::lexer::{
    fails_after, law_lexing_succeeds_or_fails, law_lexing_unique, lexed, trailer_of,
};
use crate::lexer::token::same_token_type;
use crate::lexer::{Lexer, Token, TokenType};
use crate::parser::items::program::{eof_only_last, top_lines_may, top_lines_never_fail};
use crate::parser::parse_ctx::first_indent;

pub mod items;
pub mod parsable;
pub mod parse_ctx;
pub mod util;

pub use parsable::Parsable;
pub use parse_ctx::ParseCtx;
pub use util::{Diagnostics, ParseError};

verus! {

/// What the tokens of a whole file are read as: a program (the root file),
/// or the top levels of a module (the file of a module).
pub trait ParseFile: Sized {
    /// Reading the tokens `tokens` of a file at the indentation `level` can
    /// give `v` and leave `rest`.
    spec fn file_reads(tokens: Seq<Token>, level: u8, v: Self, rest: Seq<Token>) -> bool;

    /// Reading the tokens `tokens` of a file at the indentation `level`
    /// cannot fail.
    spec fn file_parses(tokens: Seq<Token>, level: u8) -> bool;

    fn parse_file_tokens<'a>(tokens: &'a [Token], parse_ctx: &mut ParseCtx) -> (res: Result<
        (Self, &'a [Token]),
        Diagnostics,
    >)
        ensures
            parse_ctx::ctx_kept(*old(parse_ctx), *final(parse_ctx)),
            res matches Ok((_, rest)) ==> parsable::is_suffix(rest@, tokens@),
            res matches Err(d) ==> d.errors@.len() > 0,
            res matches Ok((v, rest)) ==> Self::file_reads(tokens@, old(parse_ctx).level(), v, rest@),
            Self::file_parses(tokens@, old(parse_ctx).level()) ==> res is Ok,
    ;
}

/// `res` is what parsing the tokens `tokens` of a file can give: its value,
/// or its diagnostics.
pub open spec fn file_outcome<T: ParseFile>(tokens: Seq<Token>, res: Result<T, Diagnostics>) -> bool {
    exists|s: &[Token], c: &mut ParseCtx, r: Result<(T, &[Token]), Diagnostics>|
        s@ == tokens && #[trigger] T::parse_file_tokens.ensures((s, c), r) && match r {
            Ok((v, _)) => res == Ok::<T, Diagnostics>(v),
            Err(d) => res == Err::<T, Diagnostics>(d),
        }
}

/// Reading the tokens of a file at the indentation `level` can give `v`,
/// whatever it leaves.
pub open spec fn file_read_as<T: ParseFile>(tokens: Seq<Token>, level: u8, v: T) -> bool {
    exists|rest: Seq<Token>| #[trigger] T::file_reads(tokens, level, v, rest)
}

impl ParseFile for Program {
    /// The program's top levels are what its lines can be read as.
    open spec fn file_reads(tokens: Seq<Token>, level: u8, v: Self, rest: Seq<Token>) -> bool {
        top_lines_may(tokens, level, v.module.top_levels@, rest)
    }

    /// Each line is a top level that always reads, and no end of file comes
    /// before the last token.
    open spec fn file_parses(tokens: Seq<Token>, level: u8) -> bool {
        top_lines_never_fail(tokens, level) && eof_only_last(tokens)
    }

    fn parse_file_tokens<'a>(tokens: &'a [Token], parse_ctx: &mut ParseCtx) -> (res: Result<
        (Self, &'a [Token]),
        Diagnostics,
    >) {
        Program::parse(tokens, parse_ctx)
    }
}

impl ParseFile for ModuleInner {
    /// The module's top levels are what its lines can be read as.
    open spec fn file_reads(tokens: Seq<Token>, level: u8, v: Self, rest: Seq<Token>) -> bool {
        top_lines_may(tokens, level, v.top_levels@, rest)
    }

    /// Each line is a top level that always reads.
    open spec fn file_parses(tokens: Seq<Token>, level: u8) -> bool {
        top_lines_never_fail(tokens, level)
    }

    fn parse_file_tokens<'a>(tokens: &'a [Token], parse_ctx: &mut ParseCtx) -> (res: Result<
        (Self, &'a [Token]),
        Diagnostics,
    >) {
        ModuleInner::parse(tokens, parse_ctx)
    }
}

/// The width of the first indented line of `tokens`, if any.
pub fn find_first_indent(tokens: &[Token]) -> (res: Option<u8>)
    ensures
        res == first_indent(tokens@),
{
    let mut i: usize = 0;
    assert(tokens@.skip(0) =~= tokens@);
    while i < tokens.len()
        invariant
            i <= tokens@.len(),
            first_indent(tokens@) == first_indent(tokens@.skip(i as int)),
        decreases tokens.len() - i,
    {
        proof {
            assert(tokens@.skip(i as int).drop_first() =~= tokens@.skip(i + 1));
        }
        if let TokenType::Indent(level) = tokens[i].token_type {
            if level > 0 {
                return Some(level);
            }
        }
        i = i + 1;
    }
    assert(tokens@.skip(i as int) =~= Seq::<Token>::empty());
    None
}

/// Parses the tokens of a whole file, once the indentation step of the file
/// is taken from its first indented line, which must be even.
pub fn parse_tokens<T: ParseFile>(tokens: &[Token], parse_ctx: &mut ParseCtx) -> (res: Result<
    T,
    Diagnostics,
>)
    ensures
        match first_indent(tokens@) {
            Some(l) => l % 2 != 0 ==> (res matches Err(d) && d.errors@.len() == 1 && d.errors@[0]
                == ParseError::OddIndentStep(l) && *final(parse_ctx) == *old(parse_ctx)),
            None => true,
        },
        !(first_indent(tokens@) matches Some(l) && l % 2 != 0) ==> final(parse_ctx).indent_step
            == match first_indent(tokens@) {
            Some(l) => l,
            None => old(parse_ctx).indent_step,
        },
        res matches Err(d) ==> d.errors@.len() > 0,
        !(first_indent(tokens@) matches Some(l) && l % 2 != 0) ==> file_outcome::<T>(tokens@, res),
        !(first_indent(tokens@) matches Some(l) && l % 2 != 0) && T::file_parses(
            tokens@,
            old(parse_ctx).level(),
        ) ==> res is Ok,
        res matches Ok(v) ==> file_read_as::<T>(tokens@, old(parse_ctx).level(), v),
{
    if let Some(step) = find_first_indent(tokens) {
        if step % 2 != 0 {
            return Err(Diagnostics::from_error(ParseError::OddIndentStep(step)));
        }
    }
    parse_ctx.deduce_indent_step(tokens);
    let ghost level = parse_ctx.level();
    match T::parse_file_tokens(tokens, parse_ctx) {
        Ok((parsed, rest)) => {
            assert(T::file_reads(tokens@, level, parsed, rest@));
            assert(file_read_as::<T>(tokens@, level, parsed));
            Ok(parsed)
        },
        Err(d) => Err(d),
    }
}

/// Reads all the tokens of `lexer` and parses them as a whole file.
pub fn parse<T: ParseFile>(lexer: Lexer, parse_ctx: &mut ParseCtx) -> (res: Result<T, Diagnostics>)
    requires
        lexer.wf(),
        lexer.pos() <= lexer.source().len(),
    ensures
        res matches Err(d) ==> d.errors@.len() > 0,
        (exists|read: Seq<Token>| #[trigger]
            fails_after(lexer.source(), lexer.pos(), lexer.after_indent(), read)) ==> (res matches Err(
            d,
        ) && d.errors@.len() == 1 && d.errors@[0] is Lexer),
        forall|tokens: Seq<Token>, n: int|
            #[trigger] lexed(
                lexer.source(),
                lexer.pos(),
                lexer.after_indent(),
                lexer.adds_newline(),
                tokens,
                n,
            ) ==> match first_indent(tokens) {
                Some(l) => l % 2 != 0 ==> (res matches Err(d) && d.errors@ == seq![
                    ParseError::OddIndentStep(l),
                ]),
                None => true,
            },
        (forall|read: Seq<Token>|
            !#[trigger] fails_after(lexer.source(), lexer.pos(), lexer.after_indent(), read))
            ==> exists|tokens: Seq<Token>, n: int|
            #[trigger] lexed(
                lexer.source(),
                lexer.pos(),
                lexer.after_indent(),
                lexer.adds_newline(),
                tokens,
                n,
            ) && (!(first_indent(tokens) matches Some(l) && l % 2 != 0) ==> file_outcome::<T>(
                tokens,
                res,
            )) && (!(first_indent(tokens) matches Some(l) && l % 2 != 0) && T::file_parses(
                tokens,
                old(parse_ctx).level(),
            ) ==> res is Ok) && (res matches Ok(v) ==> file_read_as::<T>(
                tokens,
                old(parse_ctx).level(),
                v,
            )),
{
    let ghost start = lexer;
    let mut lexer = lexer;
    let tokens = match lexer.collect() {
        Ok(tokens) => tokens,
        Err(e) => {
            proof {
                let read = choose|read: Seq<Token>| #[trigger]
                    fails_after(start.source(), start.pos(), start.after_indent(), read);
                assert forall|other: Seq<Token>, m: int|
                    !#[trigger] lexed(
                        start.source(),
                        start.pos(),
                        start.after_indent(),
                        start.adds_newline(),
                        other,
                        m,
                    ) by {
                    if lexed(start.source(), start.pos(), start.after_indent(), start.adds_newline(), other, m) {
                        law_lexing_succeeds_or_fails(
                            start.source(),
                            start.pos(),
                            start.after_indent(),
                            start.adds_newline(),
                            other,
                            m,
                            read,
                        );
                    }
                }
            }
            return Err(Diagnostics::from_error(ParseError::Lexer(e)));
        },
    };
    proof {
        let n = choose|n: int| #[trigger]
            lexed(
                start.source(),
                start.pos(),
                start.after_indent(),
                start.adds_newline(),
                tokens@,
                n,
            );
        assert forall|read: Seq<Token>| !#[trigger] fails_after(
            start.source(),
            start.pos(),
            start.after_indent(),
            read,
        ) by {
            law_lexing_succeeds_or_fails(
                start.source(),
                start.pos(),
                start.after_indent(),
                start.adds_newline(),
                tokens@,
                n,
                read,
            );
        }
        assert forall|other: Seq<Token>, m: int|
            #[trigger] lexed(
                start.source(),
                start.pos(),
                start.after_indent(),
                start.adds_newline(),
                other,
                m,
            ) implies first_indent(other) == first_indent(tokens@) by {
            law_lexing_unique(
                start.source(),
                start.pos(),
                start.after_indent(),
                start.adds_newline(),
                other,
                m,
                tokens@,
                n,
            );
            lemma_lexed_same_types(start.adds_newline(), other, m, tokens@, n);
            lemma_first_indent_same(other, tokens@);
        }
    }
    parse_tokens(tokens.as_slice(), parse_ctx)
}

/// Two lexings that read the same tokens agree on every token type.
proof fn lemma_lexed_same_types(adds_newline: bool, a: Seq<Token>, n: int, b: Seq<Token>, m: int)
    requires
        n == m,
        0 <= n < a.len(),
        0 <= m < b.len(),
        forall|i: int|
            0 <= i < n ==> same_token_type(#[trigger] a[i].token_type, b[i].token_type),
        trailer_of(adds_newline, a, n),
        trailer_of(adds_newline, b, m),
    ensures
        a.len() == b.len(),
        forall|i: int| 0 <= i < a.len() ==> same_token_type(#[trigger] a[i].token_type, b[i].token_type),
{
    if n > 0 {
        assert(same_token_type(a[n - 1].token_type, b[n - 1].token_type));
        assert((a[n - 1].token_type is Eol) == (b[n - 1].token_type is Eol));
    }
    assert forall|i: int| 0 <= i < a.len() implies same_token_type(#[trigger] a[i].token_type, b[i].token_type) by {
        if i >= n {
            assert(a[i] == a.skip(n)[i - n]);
            assert(b[i] == b.skip(n)[i - n]);
        }
    }
}

/// Token sequences that agree on every token type have the same first
/// indentation.
proof fn lemma_first_indent_same(a: Seq<Token>, b: Seq<Token>)
    requires
        a.len() == b.len(),
        forall|i: int| 0 <= i < a.len() ==> same_token_type(#[trigger] a[i].token_type, b[i].token_type),
    ensures
        first_indent(a) == first_indent(b),
    decreases a.len(),
{
    if a.len() > 0 {
        assert(same_token_type(a[0].token_type, b[0].token_type));
        assert forall|i: int| 0 <= i < a.drop_first().len() implies same_token_type(
            #[trigger] a.drop_first()[i].token_type,
            b.drop_first()[i].token_type,
        ) by {
            assert(same_token_type(a[i + 1].token_type, b[i + 1].token_type));
        }
        lemma_first_indent_same(a.drop_first(), b.drop_first());
    }
}

/// Parses `input` as a whole file, with the default configuration.
pub fn parse_string<T: ParseFile>(input: &str) -> (res: Result<T, Diagnostics>)
    requires
        input@.len() + 2 <= usize::MAX,
    ensures
        res matches Err(d) ==> d.errors@.len() > 0,
        (exists|read: Seq<Token>| #[trigger] fails_after(input@, 0, false, read)) ==> (res matches Err(
            d,
        ) && d.errors@.len() == 1 && d.errors@[0] is Lexer),
        forall|tokens: Seq<Token>, n: int|
            #[trigger] lexed(input@, 0, false, true, tokens, n) ==> match first_indent(tokens) {
                Some(l) => l % 2 != 0 ==> (res matches Err(d) && d.errors@ == seq![
                    ParseError::OddIndentStep(l),
                ]),
                None => true,
            },
        (forall|read: Seq<Token>| !#[trigger] fails_after(input@, 0, false, read)) ==> exists|
            tokens: Seq<Token>,
            n: int,
        |
            #[trigger] lexed(input@, 0, false, true, tokens, n) && (!(first_indent(tokens) matches Some(
                l,
            ) && l % 2 != 0) ==> file_outcome::<T>(tokens, res)) && (!(first_indent(tokens) matches Some(
                l,
            ) && l % 2 != 0) && T::file_parses(tokens, 0) ==> res is Ok) && (res matches Ok(v)
                ==> file_read_as::<T>(tokens, 0, v)),
{
    let lexer = match Lexer::new(String::new(), input) {
        Ok(lexer) => lexer,
        Err(e) => {
            return Err(Diagnostics::from_error(ParseError::Lexer(e)));
        },
    };
    let config = Config::default();
    let mut parse_ctx = ParseCtx::new(&config);
    parse(lexer, &mut parse_ctx)
}

} // verus!
