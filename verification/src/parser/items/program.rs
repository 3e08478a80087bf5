use vstd::prelude::*;

use crate::ast::{Ident, Module, ModuleInner, Program, TopLevel};
use crate::lexer::chars::{is_whitespace, unicode_whitespace};
use crate::lexer::token::same_token_type;
use crate::lexer::{Span, Token, TokenType};
use crate::parser::items::conditional::expect_keyword;
use crate::parser::items::expression::deeper_indent;
use crate::parser::items::top_level::named_after_decl;
use crate::parser::parsable::{
    clone_tokens, is_suffix, lemma_skip_suffix_auto, lemma_suffix_refl, lemma_suffix_trans_auto,
    parse_post, skip, starts_with_kw,
};
use crate::parser::parse_ctx::{ctx_kept, ParseCtx};
use crate::parser::util::{
    expect, fail, ignore_empty_lines, lemma_skip_empty_lines_idempotent,
    lemma_skip_empty_lines_suffix, look_ahead, may_give, skip_empty_lines, Diagnostics, ParseError,
};

verus! {

broadcast use {lemma_suffix_trans_auto, lemma_skip_suffix_auto};

/// A copy of a file path.
pub fn clone_path(path: &Option<String>) -> (res: Option<String>)
    ensures
        res == *path,
{
    match path {
        Some(p) => Some(p.clone()),
        None => None,
    }
}

/// `s` without the whitespace at its start.
pub open spec fn trim_start_spec(s: Seq<char>) -> Seq<char>
    decreases s.len(),
{
    if s.len() > 0 && unicode_whitespace(s[0]) {
        trim_start_spec(s.skip(1))
    } else {
        s
    }
}

/// `s` without the whitespace at its end.
pub open spec fn trim_end_spec(s: Seq<char>) -> Seq<char>
    decreases s.len(),
{
    if s.len() > 0 && unicode_whitespace(s.last()) {
        trim_end_spec(s.drop_last())
    } else {
        s
    }
}

/// `s` without the whitespace at either end.
pub open spec fn trimmed(s: Seq<char>) -> Seq<char> {
    trim_end_spec(trim_start_spec(s))
}

/// `s` without the whitespace at either end.
pub fn trim(s: &str) -> (res: String)
    ensures
        res@ == trimmed(s@),
{
    let n = s.unicode_len();
    let mut start: usize = 0;
    assert(s@.skip(0) =~= s@);
    while start < n && is_whitespace(s.get_char(start))
        invariant
            n == s@.len(),
            start <= n,
            trim_start_spec(s@.skip(start as int)) == trim_start_spec(s@),
        decreases n - start,
    {
        assert(s@.skip(start as int).skip(1) =~= s@.skip(start + 1));
        start = start + 1;
    }
    let mut end: usize = n;
    assert(trim_start_spec(s@) =~= s@.subrange(start as int, n as int));
    while end > start && is_whitespace(s.get_char(end - 1))
        invariant
            n == s@.len(),
            start <= end <= n,
            trim_end_spec(s@.subrange(start as int, end as int)) == trimmed(s@),
        decreases end,
    {
        assert(s@.subrange(start as int, end as int).drop_last() =~= s@.subrange(
            start as int,
            end - 1,
        ));
        end = end - 1;
    }
    s.substring_char(start, end).to_owned()
}

/// The first of `tokens` that can start a new top level after an error: an
/// indentation at 0 followed by something else than a line end. Nothing is
/// left when there is none.
pub open spec fn recovered(tokens: Seq<Token>) -> Seq<Token>
    decreases tokens.len(),
{
    if tokens.len() == 0 {
        tokens
    } else if tokens[0].token_type == TokenType::Indent(0) && tokens.len() > 1
        && !(tokens[1].token_type is Eol) {
        tokens
    } else {
        recovered(tokens.skip(1))
    }
}

pub proof fn lemma_recovered_suffix(tokens: Seq<Token>)
    ensures
        is_suffix(recovered(tokens), tokens),
    decreases tokens.len(),
{
    if tokens.len() == 0 || (tokens[0].token_type == TokenType::Indent(0) && tokens.len() > 1
        && !(tokens[1].token_type is Eol)) {
        lemma_suffix_refl(tokens);
    } else {
        lemma_recovered_suffix(tokens.skip(1));
    }
}

/// In some context, parsing a top level on `t` can fail with no error.
pub open spec fn top_fails_silently<'a>(t: Seq<Token>) -> bool {
    exists|s: &'a [Token], c: &mut ParseCtx, r: Result<(TopLevel, &'a [Token]), Diagnostics>|
        s@ == t && #[trigger] TopLevel::parse.ensures((s, c), r) && (r matches Err(d)
            && d.errors@.len() == 0)
}

/// The lines of `t`, each a top level at the indentation `d`, can be the
/// top levels `items` with no error, leaving `rest`: empty lines are
/// skipped; the list ends at the end of the tokens or at the end of file;
/// each line is what a top level can be read as there, or, where reading
/// one can fail with no error, it is skipped up to the next line at 0.
pub open spec fn top_lines_may(t: Seq<Token>, d: u8, items: Seq<TopLevel>, rest: Seq<Token>) -> bool
    decreases t.len(),
{
    let q = skip_empty_lines(t);
    if q.len() == 0 || q[0].token_type is Eof {
        items.len() == 0 && rest == q
    } else {
        &&& q[0].token_type == TokenType::Indent(d)
        &&& {
            ||| items.len() > 0 && exists|r: Seq<Token>|
                #[trigger] may_give(TopLevel::parse, q.skip(1), items[0], r) && r.len() < t.len()
                    && top_lines_may(r, d, items.drop_first(), rest)
            ||| top_fails_silently(q.skip(1)) && recovered(q.skip(1)).len() < t.len()
                && top_lines_may(recovered(q.skip(1)), d, items, rest)
        }
    }
}

/// Each line of `t`, up to the end of the tokens or the end of file, is a
/// top level at the indentation `d` that reading it always gives: no such
/// reading can fail.
pub open spec fn top_lines_never_fail(t: Seq<Token>, d: u8) -> bool
    decreases t.len(),
{
    let q = skip_empty_lines(t);
    if q.len() == 0 || q[0].token_type is Eof {
        true
    } else {
        &&& q[0].token_type == TokenType::Indent(d)
        &&& forall|s: &[Token], c: &mut ParseCtx, r: Result<(TopLevel, &[Token]), Diagnostics>|
            s@ == q.skip(1) && #[trigger] TopLevel::parse.ensures((s, c), r) ==> (r matches Ok(
                (_, rr),
            ) && rr@.len() < t.len() && top_lines_never_fail(rr@, d))
    }
}

/// `t` holds a line before its end of file.
pub open spec fn has_top_line(t: Seq<Token>) -> bool {
    skip_empty_lines(t).len() > 0 && !(skip_empty_lines(t)[0].token_type is Eof)
}

/// Lines that always read give at least one top level when there is one.
pub proof fn lemma_lines_give_some(t: Seq<Token>, d: u8, items: Seq<TopLevel>, rest: Seq<Token>)
    requires
        top_lines_never_fail(t, d),
        top_lines_may(t, d, items, rest),
        has_top_line(t),
    ensures
        items.len() > 0,
{
    let q = skip_empty_lines(t);
    if items.len() == 0 {
        if top_fails_silently(q.skip(1)) {
            let (s, c, r) = choose|s: &[Token], c: &mut ParseCtx, r: Result<(TopLevel, &[Token]), Diagnostics>|
                s@ == q.skip(1) && #[trigger] TopLevel::parse.ensures((s, c), r) && (r matches Err(e)
                    && e.errors@.len() == 0);
            assert(TopLevel::parse.ensures((s, c), r));
        }
    }
}

/// Skips to the next line at indentation 0 that is not empty.
pub fn try_recover<'a>(tokens: &'a [Token]) -> (res: &'a [Token])
    ensures
        res@ == recovered(tokens@),
        is_suffix(res@, tokens@),
{
    proof {
        lemma_recovered_suffix(tokens@);
    }
    let ghost initial = tokens@;
    let mut rest = tokens;
    loop
        invariant
            recovered(rest@) == recovered(initial),
        ensures
            recovered(rest@) == recovered(initial),
            recovered(rest@) == rest@,
        decreases rest@.len(),
    {
        if rest.len() == 0 {
            break ;
        }
        if let TokenType::Indent(0) = rest[0].token_type {
            if rest.len() > 1 && !rest[1].token_type.same_as(&TokenType::Eol) {
                break ;
            }
        }
        rest = skip(rest, 1);
    }
    rest
}

impl From<ModuleInner> for Module {
    fn from(module_inner: ModuleInner) -> (res: Module)
        ensures
            res == Module::from_inner_spec(module_inner),
    {
        Module {
            name: None,
            top_levels: module_inner.top_levels,
            is_inline: false,
            filepath: None,
            comment: None,
        }
    }
}

impl vstd::std_specs::convert::FromSpecImpl<ModuleInner> for Module {
    open spec fn obeys_from_spec() -> bool {
        true
    }

    open spec fn from_spec(v: ModuleInner) -> Module {
        Module::from_inner_spec(v)
    }
}

/// `mod name` and the end of the line, with no line one block deeper (at
/// `deeper`) right after it: a module whose top levels are in a file of its
/// own.
pub open spec fn declares_file_module(tokens: Seq<Token>, deeper: int) -> bool {
    &&& starts_with_kw(tokens, "mod"@)
    &&& tokens.len() > 2
    &&& tokens[1].token_type is Ident
    &&& tokens[2].token_type is Eol
    &&& !(tokens.len() > 3 && tokens[3].token_type is Indent && tokens[3].token_type->Indent_0
        == deeper)
}

impl Module {
    /// The unnamed module, read from a file, that holds the top levels.
    pub open spec fn from_inner_spec(v: ModuleInner) -> Module {
        Module { name: None, top_levels: v.top_levels, is_inline: false, filepath: None, comment: None }
    }

    /// `mod name` with an optional comment. A module whose top levels follow,
    /// one block deeper, is inline; otherwise its top levels are in the file
    /// named after it next to the current one, which is recorded and left to
    /// be read.
    pub fn parse<'a>(tokens: &'a [Token], parse_ctx: &mut ParseCtx) -> (res: Result<
        (Self, &'a [Token]),
        Diagnostics,
    >)
        ensures
            parse_post(tokens@, *old(parse_ctx), *final(parse_ctx), res),
            res is Ok ==> starts_with_kw(tokens@, "mod"@),
            final(parse_ctx).level() != old(parse_ctx).level() ==> (res matches Err(d)
                && d.errors@.len() > 0),
            res matches Ok((m, _)) ==> m.name is Some && (!m.is_inline ==> m.top_levels@.len()
                == 0 && m.filepath is Some),
            declares_file_module(tokens@, old(parse_ctx).level() + old(parse_ctx).indent_step)
                ==> (res matches Ok((m, rest)) && !m.is_inline && m.comment is None && rest@
                == tokens@.skip(3)),
        decreases tokens@.len(), 1int,
    {
        let remaining_tokens = expect_keyword(tokens, "mod")?;
        assert(remaining_tokens@ =~= tokens@.skip(1));
        let (name, mut remaining_tokens) = Ident::parse(remaining_tokens, parse_ctx)?;
        let comment = if remaining_tokens.len() > 0 {
            if let TokenType::Comment(comment) = &remaining_tokens[0].token_type {
                let comment = trim(comment.as_str());
                remaining_tokens = skip(remaining_tokens, 1);
                Some(comment)
            } else {
                None
            }
        } else {
            None
        };
        let inline = match deeper_indent(parse_ctx) {
            Some(d) => {
                let expected = vec![TokenType::Eol, TokenType::Indent(d)];
                let found = look_ahead(remaining_tokens, expected.as_slice());
                proof {
                    if found {
                        assert(same_token_type(remaining_tokens@[1].token_type, expected@[1]));
                        assert(remaining_tokens@[1].token_type == TokenType::Indent(d));
                    }
                }
                found
            },
            None => false,
        };
        proof {
            if declares_file_module(tokens@, old(parse_ctx).level() + old(parse_ctx).indent_step) {
                assert(remaining_tokens@ =~= tokens@.skip(2));
                if inline {
                    assert(remaining_tokens@[1] == tokens@[3]);
                }
            }
        }
        if inline {
            let remaining_tokens = expect(remaining_tokens, TokenType::Eol)?;
            parse_ctx.indent();
            let (module_inner, remaining_tokens) = parse_nested_module(remaining_tokens, parse_ctx)?;
            parse_ctx.dedent();
            Ok(
                (
                    Module {
                        name: Some(name),
                        top_levels: module_inner.top_levels,
                        is_inline: true,
                        filepath: None,
                        comment,
                    },
                    remaining_tokens,
                ),
            )
        } else {
            let remaining_tokens = expect(remaining_tokens, TokenType::Eol)?;
            let old_file_name = clone_path(&parse_ctx.current_file);
            parse_ctx.add_file_relative(name.name.clone());
            let path = clone_path(&parse_ctx.current_file);
            parse_ctx.current_file = old_file_name;
            Ok(
                (
                    Module {
                        name: Some(name),
                        top_levels: Vec::new(),
                        is_inline: false,
                        filepath: path,
                        comment,
                    },
                    remaining_tokens,
                ),
            )
        }
    }
}

impl ModuleInner {
    /// The top levels of a module, one per line at the current level, up to
    /// the end of the tokens. After an error it goes on at the next line
    /// indented at 0, and all the errors are given.
    pub fn parse<'a>(tokens: &'a [Token], parse_ctx: &mut ParseCtx) -> (res: Result<
        (Self, &'a [Token]),
        Diagnostics,
    >)
        ensures
            ctx_kept(*old(parse_ctx), *final(parse_ctx)),
            res matches Ok((m, rest)) ==> {
                &&& is_suffix(rest@, tokens@)
                &&& final(parse_ctx).level() == old(parse_ctx).level()
                &&& rest@.len() == 0 || rest@[0].token_type is Eof
                &&& forall|i: int| 0 <= i < m.top_levels@.len() ==> named_after_decl(
                    #[trigger] m.top_levels@[i],
                )
            },
            res matches Err(d) ==> d.errors@.len() > 0,
            res matches Ok((m, rest)) ==> top_lines_may(tokens@, old(parse_ctx).level(), m.top_levels@, rest@),
            top_lines_never_fail(tokens@, old(parse_ctx).level()) ==> res is Ok,
    {
        let mut top_levels: Vec<TopLevel> = Vec::new();
        let mut remaining_tokens = tokens;
        let mut diagnostics = Diagnostics::new();
        let ghost d = old(parse_ctx).level();
        proof {
            lemma_suffix_refl(tokens@);
            assert forall|rem: Seq<TopLevel>, rest: Seq<Token>|
                #[trigger] top_lines_may(remaining_tokens@, d, rem, rest) implies top_lines_may(
                tokens@,
                d,
                top_levels@ + rem,
                rest,
            ) by {
                assert(top_levels@ + rem =~= rem);
            }
        }
        loop
            invariant_except_break
                diagnostics.errors@.len() == 0 ==> forall|rem: Seq<TopLevel>, rest: Seq<Token>|
                    #[trigger] top_lines_may(remaining_tokens@, d, rem, rest) ==> top_lines_may(
                        tokens@,
                        d,
                        top_levels@ + rem,
                        rest,
                    ),
                top_lines_never_fail(tokens@, d) ==> top_lines_never_fail(remaining_tokens@, d),
            invariant
                d == old(parse_ctx).level(),
                top_lines_never_fail(tokens@, d) ==> diagnostics.errors@.len() == 0,
                is_suffix(remaining_tokens@, tokens@),
                ctx_kept(*old(parse_ctx), *parse_ctx),
                diagnostics.errors@.len() == 0 ==> parse_ctx.level() == old(parse_ctx).level(),
                forall|i: int| 0 <= i < top_levels@.len() ==> named_after_decl(#[trigger] top_levels@[i]),
            ensures
                is_suffix(remaining_tokens@, tokens@),
                ctx_kept(*old(parse_ctx), *parse_ctx),
                diagnostics.errors@.len() == 0 ==> parse_ctx.level() == old(parse_ctx).level(),
                remaining_tokens@.len() == 0 || remaining_tokens@[0].token_type is Eof,
                forall|i: int| 0 <= i < top_levels@.len() ==> named_after_decl(#[trigger] top_levels@[i]),
                diagnostics.errors@.len() == 0 ==> top_lines_may(
                    tokens@,
                    d,
                    top_levels@,
                    remaining_tokens@,
                ),
            decreases remaining_tokens@.len(),
        {
            let ghost before_lines = remaining_tokens@;
            let ghost before_items = top_levels@;
            remaining_tokens = ignore_empty_lines(remaining_tokens);
            let ghost q = remaining_tokens@;
            proof {
                lemma_skip_empty_lines_suffix(before_lines);
                lemma_skip_empty_lines_idempotent(before_lines);
            }
            if remaining_tokens.len() == 0 || remaining_tokens[0].token_type.same_as(
                &TokenType::Eof,
            ) {
                proof {
                    if diagnostics.errors@.len() == 0 {
                        assert(top_lines_may(before_lines, d, Seq::<TopLevel>::empty(), q));
                        assert(top_levels@ + Seq::<TopLevel>::empty() =~= top_levels@);
                    }
                }
                break ;
            }
            match parse_ctx.consume_indent(remaining_tokens) {
                Ok(new_tokens) => {
                    remaining_tokens = new_tokens;
                },
                Err(e) => {
                    diagnostics.merge(e);
                    remaining_tokens = try_recover(skip(remaining_tokens, 1));
                    continue ;
                },
            }
            let ghost line = remaining_tokens@;
            match TopLevel::parse(remaining_tokens, parse_ctx) {
                Ok((top_level, new_tokens)) => {
                    let ghost r = new_tokens@;
                    let ghost item = top_level;
                    remaining_tokens = new_tokens;
                    top_levels.push(top_level);
                    proof {
                        if diagnostics.errors@.len() == 0 {
                            assert(may_give(TopLevel::parse, line, item, r));
                            assert forall|rem: Seq<TopLevel>, rest: Seq<Token>|
                                #[trigger] top_lines_may(r, d, rem, rest) implies top_lines_may(
                                tokens@,
                                d,
                                top_levels@ + rem,
                                rest,
                            ) by {
                                let full = seq![item] + rem;
                                assert(full[0] == item);
                                assert(full.drop_first() =~= rem);
                                assert(top_lines_may(before_lines, d, full, rest));
                                assert(top_levels@ + rem =~= before_items + full);
                            }
                        }
                    }
                },
                Err(e) => {
                    let ghost silent = e.errors@.len() == 0;
                    let ghost at = remaining_tokens@;
                    diagnostics.merge(e);
                    remaining_tokens = try_recover(remaining_tokens);
                    proof {
                        if diagnostics.errors@.len() == 0 {
                            assert(top_fails_silently(line));
                            lemma_recovered_suffix(line);
                            assert forall|rem: Seq<TopLevel>, rest: Seq<Token>|
                                #[trigger] top_lines_may(remaining_tokens@, d, rem, rest) implies top_lines_may(
                                tokens@,
                                d,
                                top_levels@ + rem,
                                rest,
                            ) by {
                                assert(top_lines_may(before_lines, d, rem, rest));
                            }
                        }
                    }
                },
            }
            if remaining_tokens.len() == 0 || remaining_tokens[0].token_type.same_as(
                &TokenType::Eof,
            ) {
                proof {
                    if diagnostics.errors@.len() == 0 {
                        assert(skip_empty_lines(remaining_tokens@) == remaining_tokens@);
                        assert(top_lines_may(remaining_tokens@, d, Seq::<TopLevel>::empty(), remaining_tokens@));
                        assert(top_levels@ + Seq::<TopLevel>::empty() =~= top_levels@);
                    }
                }
                break ;
            }
        }
        diagnostics.return_if_err()?;
        Ok((ModuleInner { top_levels }, remaining_tokens))
    }
}

/// The top levels of a module inline in another, as `ModuleInner::parse`
/// reads those of a file. It is kept apart from that function because it
/// takes part in the recursion through nested modules, whose members Verus
/// does not let a contract name.
fn parse_nested_module<'a>(tokens: &'a [Token], parse_ctx: &mut ParseCtx) -> (res: Result<
    (ModuleInner, &'a [Token]),
    Diagnostics,
>)
    ensures
        ctx_kept(*old(parse_ctx), *final(parse_ctx)),
        res matches Ok((m, rest)) ==> {
            &&& is_suffix(rest@, tokens@)
            &&& final(parse_ctx).level() == old(parse_ctx).level()
            &&& rest@.len() == 0 || rest@[0].token_type is Eof
            &&& forall|i: int| 0 <= i < m.top_levels@.len() ==> named_after_decl(
                #[trigger] m.top_levels@[i],
            )
        },
        res matches Err(d) ==> d.errors@.len() > 0,
    decreases tokens@.len(), 0int,
{
    let mut top_levels: Vec<TopLevel> = Vec::new();
    let mut remaining_tokens = tokens;
    let mut diagnostics = Diagnostics::new();
    proof {
        lemma_suffix_refl(tokens@);
    }
    loop
        invariant
            is_suffix(remaining_tokens@, tokens@),
            ctx_kept(*old(parse_ctx), *parse_ctx),
            diagnostics.errors@.len() == 0 ==> parse_ctx.level() == old(parse_ctx).level(),
            forall|i: int| 0 <= i < top_levels@.len() ==> named_after_decl(#[trigger] top_levels@[i]),
        ensures
            is_suffix(remaining_tokens@, tokens@),
            ctx_kept(*old(parse_ctx), *parse_ctx),
            diagnostics.errors@.len() == 0 ==> parse_ctx.level() == old(parse_ctx).level(),
            remaining_tokens@.len() == 0 || remaining_tokens@[0].token_type is Eof,
            forall|i: int| 0 <= i < top_levels@.len() ==> named_after_decl(#[trigger] top_levels@[i]),
        decreases remaining_tokens@.len(),
    {
        let ghost before_lines = remaining_tokens@;
        remaining_tokens = ignore_empty_lines(remaining_tokens);
        proof {
            lemma_skip_empty_lines_suffix(before_lines);
        }
        if remaining_tokens.len() == 0 || remaining_tokens[0].token_type.same_as(
            &TokenType::Eof,
        ) {
            break ;
        }
        match parse_ctx.consume_indent(remaining_tokens) {
            Ok(new_tokens) => {
                remaining_tokens = new_tokens;
            },
            Err(e) => {
                diagnostics.merge(e);
                remaining_tokens = try_recover(skip(remaining_tokens, 1));
                continue ;
            },
        }
        match TopLevel::parse(remaining_tokens, parse_ctx) {
            Ok((top_level, new_tokens)) => {
                remaining_tokens = new_tokens;
                top_levels.push(top_level);
            },
            Err(e) => {
                diagnostics.merge(e);
                remaining_tokens = try_recover(remaining_tokens);
            },
        }
        if remaining_tokens.len() == 0 || remaining_tokens[0].token_type.same_as(
            &TokenType::Eof,
        ) {
            break ;
        }
    }
    diagnostics.return_if_err()?;
    Ok((ModuleInner { top_levels }, remaining_tokens))
}

/// No end of file comes before the last token.
pub open spec fn eof_only_last(tokens: Seq<Token>) -> bool {
    forall|i: int| 0 <= i < tokens.len() - 1 ==> !(#[trigger] tokens[i].token_type is Eof)
}

impl Program {
    /// The root module of a program, `main`, in the file `./src/main.rk`, up
    /// to the end of file; anything after it is an error.
    pub fn parse<'a>(tokens: &'a [Token], parse_ctx: &mut ParseCtx) -> (res: Result<
        (Self, &'a [Token]),
        Diagnostics,
    >)
        ensures
            ctx_kept(*old(parse_ctx), *final(parse_ctx)),
            res matches Ok((p, rest)) ==> {
                &&& is_suffix(rest@, tokens@)
                &&& rest@.len() == 0 || (rest@.len() == 1 && rest@[0].token_type is Eof)
                &&& p.module.name matches Some(n) && n.name@ == "main"@
                &&& p.module.filepath == final(parse_ctx).current_file
                &&& !p.module.is_inline
            },
            res matches Err(d) ==> d.errors@.len() > 0,
            res matches Ok((p, rest)) ==> top_lines_may(
                tokens@,
                old(parse_ctx).level(),
                p.module.top_levels@,
                rest@,
            ),
            top_lines_never_fail(tokens@, old(parse_ctx).level()) && eof_only_last(tokens@) ==> res is Ok,
    {
        parse_ctx.add_file_relative(String::from_str("./src/main.rk"));
        let (module_inner, remaining_tokens) = ModuleInner::parse(tokens, parse_ctx)?;
        proof {
            if eof_only_last(tokens@) && remaining_tokens@.len() > 1 {
                let k = tokens@.len() - remaining_tokens@.len();
                assert(remaining_tokens@ == tokens@.skip(k));
                assert(tokens@[k] == remaining_tokens@[0]);
            }
        }
        let mut module = Module::from(module_inner);
        module.filepath = clone_path(&parse_ctx.current_file);
        module.name = Some(Ident { name: String::from_str("main"), span: Span::empty() });
        let after_eof = expect(remaining_tokens, TokenType::Eof)?;
        if after_eof.len() > 0 {
            return fail(ParseError::LeftoverTokens(clone_tokens(after_eof)));
        }
        Ok((Program { module }, remaining_tokens))
    }
}

} // verus!
