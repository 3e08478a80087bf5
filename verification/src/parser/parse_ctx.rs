use vstd::prelude::*;

use crate::config::{same_config, Config};
use crate::lexer::{Token, TokenType};
use crate::parser::util::{Diagnostics, ParseError};

verus! {

/// The state that parsing carries along: the indentation of the current
/// block, the indentation step of the file, and a few modes.
#[derive(Debug, Clone)]
pub struct ParseCtx {
    pub indent_level: u8,
    pub indent_step: u8,
    pub inside_argument_list: bool,
    pub files_map: Vec<String>,
    pub current_file: Option<String>,
    pub config: Config,
    /// This is to handle nested fn type declarations
    pub is_inside_fn_type_decl: bool,
    pub disallowed_multiline_fn_call: bool,
}

/// What every parse leaves unchanged in the context, whatever its outcome:
/// the step and the type mode; the indentation level can only have grown.
pub open spec fn ctx_kept(before: ParseCtx, after: ParseCtx) -> bool {
    &&& after.indent_step == before.indent_step
    &&& after.level() >= before.level()
    &&& after.is_inside_fn_type_decl == before.is_inside_fn_type_decl
}

/// What the parsers of types and expressions leave unchanged in the context,
/// whatever their outcome: the indentation level and step, and the type mode.
pub open spec fn ctx_same(before: ParseCtx, after: ParseCtx) -> bool {
    &&& after.indent_step == before.indent_step
    &&& after.indent_level == before.indent_level
    &&& after.is_inside_fn_type_decl == before.is_inside_fn_type_decl
}

/// The error given where the indentation `level` is expected at the start of
/// `tokens` and is not there: the end of the tokens, another indentation
/// (found, expected, where), or another token.
pub open spec fn indent_error(e: ParseError, tokens: Seq<Token>, level: u8) -> bool {
    if tokens.len() == 0 {
        e == ParseError::UnexpectedEof(TokenType::Indent(level))
    } else if tokens[0].token_type is Indent {
        e == ParseError::IndentMismatch(tokens[0].token_type->Indent_0, level, tokens[0].span)
    } else {
        e matches ParseError::UnexpectedToken(t, expected) && t == tokens[0] && expected@ == seq![
            TokenType::Indent(level),
        ]
    }
}

/// The path of the file `name` next to `current` (its last component replaced
/// by `name.rk`), or `name` itself when there is no current file.
pub open spec fn relative_file(current: Option<Seq<char>>, name: Seq<char>) -> Seq<char> {
    match current {
        None => name,
        Some(path) => {
            let joined = name + ".rk"@;
            match last_slash(path) {
                None => joined,
                Some(i) => if i == 0 {
                    "/"@ + joined
                } else {
                    path.subrange(0, i) + "/"@ + joined
                },
            }
        },
    }
}

/// The index of the last `/` of `path`, if any.
pub open spec fn last_slash(path: Seq<char>) -> Option<int>
    decreases path.len(),
{
    if path.len() == 0 {
        None
    } else if path.last() == '/' {
        Some(path.len() - 1)
    } else {
        last_slash(path.drop_last())
    }
}

/// The context one step deeper: only the indentation level changes.
pub open spec fn indented(c: ParseCtx) -> ParseCtx {
    ParseCtx { indent_level: (c.indent_level + c.indent_step) as u8, ..c }
}

/// The context one step shallower: only the indentation level changes.
pub open spec fn dedented(c: ParseCtx) -> ParseCtx {
    ParseCtx { indent_level: (c.indent_level - c.indent_step) as u8, ..c }
}

/// Leaving a block that was just entered gives back the context as it was.
pub proof fn law_dedent_undoes_indent(c: ParseCtx)
    requires
        c.indent_level + c.indent_step <= u8::MAX,
    ensures
        dedented(indented(c)) == c,
{
}

/// Entering a block right after leaving one gives back the context as it was.
pub proof fn law_indent_undoes_dedent(c: ParseCtx)
    requires
        c.indent_level >= c.indent_step,
    ensures
        indented(dedented(c)) == c,
{
}

/// The files recorded once `path` is recorded in `before`: unchanged when a
/// file of that name is there, else `path` added after them, so that no name
/// is recorded twice.
pub open spec fn records_file(before: Seq<String>, path: String, after: Seq<String>) -> bool {
    if exists|k: int| 0 <= k < before.len() && #[trigger] before[k]@ == path@ {
        after == before
    } else {
        after == before.push(path)
    }
}

/// No two recorded files have the same name.
pub open spec fn distinct_files(files: Seq<String>) -> bool {
    forall|i: int, j: int| 0 <= i < j < files.len() ==> #[trigger] files[i]@ != #[trigger] files[j]@
}

/// Recording a file never records a name twice.
pub proof fn law_recorded_files_distinct(before: Seq<String>, path: String, after: Seq<String>)
    requires
        distinct_files(before),
        records_file(before, path, after),
    ensures
        distinct_files(after),
{
    if !exists|k: int| 0 <= k < before.len() && #[trigger] before[k]@ == path@ {
        assert forall|i: int, j: int| 0 <= i < j < after.len() implies #[trigger] after[i]@ != #[trigger] after[j]@ by {
            if j == before.len() {
                assert(after[j] == path);
                assert(after[i] == before[i]);
            } else {
                assert(after[i] == before[i] && after[j] == before[j]);
            }
        }
    }
}

impl ParseCtx {
    pub open spec fn level(&self) -> u8 {
        self.indent_level
    }

    pub fn new(config: &Config) -> (res: Self)
        ensures
            res.level() == 0,
            res.indent_step == 2,
            !res.inside_argument_list,
            !res.is_inside_fn_type_decl,
            !res.disallowed_multiline_fn_call,
            res.files_map@.len() == 0,
            res.current_file is None,
            same_config(res.config, *config),
    {
        ParseCtx {
            indent_step: 2,
            indent_level: 0,
            inside_argument_list: false,
            files_map: Vec::new(),
            current_file: None,
            config: config.duplicate(),
            is_inside_fn_type_decl: false,
            disallowed_multiline_fn_call: false,
        }
    }

    /// Enters a block one step deeper.
    pub fn indent(&mut self)
        requires
            old(self).level() + old(self).indent_step <= u8::MAX,
        ensures
            *final(self) == indented(*old(self)),
            final(self).level() == old(self).level() + old(self).indent_step,
            final(self).indent_step == old(self).indent_step,
            final(self).is_inside_fn_type_decl == old(self).is_inside_fn_type_decl,
            final(self).inside_argument_list == old(self).inside_argument_list,
            final(self).disallowed_multiline_fn_call == old(self).disallowed_multiline_fn_call,
            final(self).current_file == old(self).current_file,
            final(self).files_map@ == old(self).files_map@,
    {
        self.indent_level = self.indent_level + self.indent_step;
    }

    /// Enters a block one step deeper, or fails when that would go past the
    /// widest indentation a line can have.
    pub fn try_indent(&mut self) -> (res: Result<(), Diagnostics>)
        ensures
            res matches Err(d) ==> d.errors@.len() > 0,
            res is Ok <==> old(self).level() + old(self).indent_step <= u8::MAX,
            res is Ok ==> final(self).level() == old(self).level() + old(self).indent_step,
            res is Err ==> final(self).level() == old(self).level(),
            final(self).indent_step == old(self).indent_step,
            final(self).is_inside_fn_type_decl == old(self).is_inside_fn_type_decl,
            final(self).inside_argument_list == old(self).inside_argument_list,
            final(self).disallowed_multiline_fn_call == old(self).disallowed_multiline_fn_call,
            final(self).current_file == old(self).current_file,
            final(self).files_map@ == old(self).files_map@,
    {
        if self.indent_level as u16 + self.indent_step as u16 > 255 {
            return Err(
                Diagnostics::from_error(
                    ParseError::IndentOverflow(self.indent_level, self.indent_step),
                ),
            );
        }
        self.indent();
        Ok(())
    }

    /// Runs `f` one step deeper, and comes back to the current level.
    pub fn indent_block<T, F>(&mut self, f: F) -> (res: Result<T, Diagnostics>) where
        F: FnOnce(&mut Self) -> Result<T, Diagnostics>,

        requires
            old(self).level() + old(self).indent_step <= u8::MAX,
            forall|c: &mut ParseCtx| #[trigger] f.requires((c,)),
            forall|c: &mut ParseCtx, r: Result<T, Diagnostics>|
                #[trigger] f.ensures((c,), r) && c.indent_level == old(self).indent_level + old(
                    self,
                ).indent_step && c.indent_step == old(self).indent_step ==> final(c).indent_level
                    >= final(c).indent_step,
        ensures
            (forall|c: &mut ParseCtx, r: Result<T, Diagnostics>|
                #[trigger] f.ensures((c,), r) ==> ctx_kept(*c, *final(c))) ==> ctx_kept(
                *old(self),
                *final(self),
            ),
            exists|c: &mut ParseCtx|
                {
                    &&& #[trigger] f.ensures((c,), res)
                    &&& c.indent_level == old(self).indent_level + old(self).indent_step
                    &&& c.indent_step == old(self).indent_step
                    &&& c.is_inside_fn_type_decl == old(self).is_inside_fn_type_decl
                    &&& final(self).indent_level == final(c).indent_level - final(c).indent_step
                    &&& final(c).indent_step == final(self).indent_step
                    &&& final(c).is_inside_fn_type_decl == final(self).is_inside_fn_type_decl
                },
    {
        self.indent();
        let res = f(self);
        self.dedent();
        res
    }

    /// Leaves a block for the enclosing one.
    pub fn dedent(&mut self)
        requires
            old(self).level() >= old(self).indent_step,
        ensures
            *final(self) == dedented(*old(self)),
            final(self).level() == old(self).level() - old(self).indent_step,
            final(self).indent_step == old(self).indent_step,
            final(self).is_inside_fn_type_decl == old(self).is_inside_fn_type_decl,
            final(self).inside_argument_list == old(self).inside_argument_list,
            final(self).disallowed_multiline_fn_call == old(self).disallowed_multiline_fn_call,
            final(self).current_file == old(self).current_file,
            final(self).files_map@ == old(self).files_map@,
    {
        self.indent_level = self.indent_level - self.indent_step;
    }

    /// Consumes the indentation of the current level.
    pub fn consume_indent<'a>(&self, tokens: &'a [Token]) -> (res: Result<&'a [Token], Diagnostics>)
        ensures
            res is Ok <==> tokens@.len() > 0 && tokens@[0].token_type == TokenType::Indent(
                self.level(),
            ),
            res matches Ok(rest) ==> rest@ == tokens@.skip(1),
            res matches Err(d) ==> d.errors@.len() == 1 && indent_error(
                d.errors@[0],
                tokens@,
                self.level(),
            ),
    {
        if tokens.len() == 0 {
            return Err(
                Diagnostics::from_error(
                    ParseError::UnexpectedEof(TokenType::Indent(self.indent_level)),
                ),
            );
        }
        if let TokenType::Indent(level) = tokens[0].token_type {
            if self.indent_level == level {
                return Ok(vstd::slice::slice_subrange(tokens, 1, tokens.len()));
            } else {
                return Err(
                    Diagnostics::from_error(
                        ParseError::IndentMismatch(
                            level,
                            self.indent_level,
                            tokens[0].span.clone(),
                        ),
                    ),
                );
            }
        }
        let mut expected: Vec<TokenType> = Vec::new();
        expected.push(TokenType::Indent(self.indent_level));
        Err(Diagnostics::from_error(ParseError::UnexpectedToken(tokens[0].clone(), expected)))
    }

    /// Consumes the indentation of the current level if it is there.
    pub fn consume_indent_if_any<'a>(&self, tokens: &'a [Token]) -> (res: (bool, &'a [Token]))
        ensures
            res.0 <==> tokens@.len() > 0 && tokens@[0].token_type == TokenType::Indent(self.level()),
            res.0 ==> res.1@ == tokens@.skip(1),
            !res.0 ==> res.1@ == tokens@,
    {
        if let Ok(new_remaining_tokens) = self.consume_indent(tokens) {
            return (true, new_remaining_tokens);
        }
        (false, tokens)
    }

    /// Takes the indentation step of the file from its first indented line.
    pub fn deduce_indent_step(&mut self, tokens: &[Token])
        requires
            first_indent(tokens@) matches Some(l) ==> l % 2 == 0,
        ensures
            final(self).indent_step == match first_indent(tokens@) {
                Some(l) => l,
                None => old(self).indent_step,
            },
            final(self).level() == old(self).level(),
            final(self).is_inside_fn_type_decl == old(self).is_inside_fn_type_decl,
            final(self).inside_argument_list == old(self).inside_argument_list,
            final(self).disallowed_multiline_fn_call == old(self).disallowed_multiline_fn_call,
    {
        let mut i: usize = 0;
        assert(tokens@.skip(0) =~= tokens@);
        while i < tokens.len()
            invariant
                i <= tokens@.len(),
                first_indent(tokens@) == first_indent(tokens@.skip(i as int)),
                self.indent_step == old(self).indent_step,
                self.indent_level == old(self).indent_level,
                self.is_inside_fn_type_decl == old(self).is_inside_fn_type_decl,
                self.inside_argument_list == old(self).inside_argument_list,
                self.disallowed_multiline_fn_call == old(self).disallowed_multiline_fn_call,
            decreases tokens.len() - i,
        {
            proof {
                assert(tokens@.skip(i as int).drop_first() =~= tokens@.skip(i + 1));
            }
            if let TokenType::Indent(level) = tokens[i].token_type {
                if level > 0 {
                    self.indent_step = level;
                    return;
                }
            }
            i = i + 1;
        }
        assert(tokens@.skip(i as int) =~= Seq::<Token>::empty());
    }

    pub fn indent_level(&self) -> (res: u8)
        ensures
            res == self.level(),
    {
        self.indent_level
    }

    pub fn indent_step(&self) -> (res: u8)
        ensures
            res == self.indent_step,
    {
        self.indent_step
    }

    /// Makes `name` the current file, relative to the current one, and records it.
    pub fn add_file_relative(&mut self, name: String)
        ensures
            final(self).current_file matches Some(f) && f@ == relative_file(
                match old(self).current_file {
                    Some(c) => Some(c@),
                    None => None,
                },
                name@,
            ),
            records_file(old(self).files_map@, final(self).current_file->Some_0, final(self).files_map@),
            final(self).config == old(self).config,
            final(self).level() == old(self).level(),
            final(self).indent_step == old(self).indent_step,
            final(self).is_inside_fn_type_decl == old(self).is_inside_fn_type_decl,
            final(self).inside_argument_list == old(self).inside_argument_list,
            final(self).disallowed_multiline_fn_call == old(self).disallowed_multiline_fn_call,
    {
        let path = match &self.current_file {
            Some(current_path) => {
                let joined = name.concat(".rk");
                proof {
                    lemma_last_slash(current_path@);
                }
                match find_last_slash(current_path.as_str()) {
                    None => joined,
                    Some(i) => {
                        if i == 0 {
                            String::from_str("/").concat(joined.as_str())
                        } else {
                            let parent = current_path.as_str().substring_char(0, i).to_owned();
                            parent.concat("/").concat(joined.as_str())
                        }
                    },
                }
            },
            None => name,
        };
        proof {
            reveal_strlit("/");
        }
        let mut known = false;
        let mut i: usize = 0;
        while i < self.files_map.len()
            invariant
                i <= self.files_map@.len(),
                known == exists|k: int| 0 <= k < i && #[trigger] self.files_map@[k]@ == path@,
            decreases self.files_map@.len() - i,
        {
            if crate::lexer::chars::text_is(self.files_map[i].as_str(), path.as_str()) {
                known = true;
            }
            i = i + 1;
        }
        if !known {
            self.files_map.push(path.clone());
        }
        self.current_file = Some(path);
    }

    /// Marks the parse of an argument list, for the time `f` runs: a spaced dot
    /// then closes the list.
    pub fn argument_list<'a, T, F>(&mut self, f: F) -> (res: Result<(T, &'a [Token]), Diagnostics>) where
        F: FnOnce(&mut Self) -> Result<(T, &'a [Token]), Diagnostics>,

        requires
            forall|c: &mut ParseCtx| #[trigger] f.requires((c,)),
        ensures
            final(self).inside_argument_list == old(self).inside_argument_list,
            exists|c: &mut ParseCtx|
                {
                    &&& #[trigger] f.ensures((c,), res)
                    &&& c.inside_argument_list
                    &&& c.disallowed_multiline_fn_call == old(self).disallowed_multiline_fn_call
                    &&& c.indent_level == old(self).indent_level
                    &&& c.indent_step == old(self).indent_step
                    &&& c.is_inside_fn_type_decl == old(self).is_inside_fn_type_decl
                    &&& final(c).indent_level == final(self).indent_level
                    &&& final(c).indent_step == final(self).indent_step
                    &&& final(c).is_inside_fn_type_decl == final(self).is_inside_fn_type_decl
                },
    {
        let old_state = self.inside_argument_list;
        self.inside_argument_list = true;
        let res = f(self);
        self.inside_argument_list = old_state;
        res
    }

    /// Inside an argument list, fails once (and leaves the list) so that the
    /// list closes; outside one, does nothing.
    pub fn argument_list_short_circuit(&mut self) -> (res: Result<(), Diagnostics>)
        ensures
            res matches Err(d) ==> d.errors@.len() > 0,
            res is Ok <==> !old(self).inside_argument_list,
            !final(self).inside_argument_list,
            final(self).level() == old(self).level(),
            final(self).indent_step == old(self).indent_step,
            final(self).is_inside_fn_type_decl == old(self).is_inside_fn_type_decl,
            final(self).disallowed_multiline_fn_call == old(self).disallowed_multiline_fn_call,
            final(self).files_map == old(self).files_map,
            final(self).current_file == old(self).current_file,
            final(self).config == old(self).config,
            res matches Err(d) ==> d.errors@ == seq![ParseError::ShortCircuit],
    {
        if !self.inside_argument_list {
            return Ok(());
        }
        self.inside_argument_list = false;
        Err(Diagnostics::from_error(ParseError::ShortCircuit))
    }

    /// Runs `f` with function calls over several lines refused.
    pub fn disallow_multiline_fn_call<T, F: FnOnce(&mut Self) -> Result<T, Diagnostics>>(
        &mut self,
        f: F,
    ) -> (res: Result<T, Diagnostics>)
        requires
            forall|c: &mut ParseCtx| #[trigger] f.requires((c,)),
        ensures
            final(self).disallowed_multiline_fn_call == old(self).disallowed_multiline_fn_call,
            exists|c: &mut ParseCtx|
                {
                    &&& #[trigger] f.ensures((c,), res)
                    &&& c.disallowed_multiline_fn_call
                    &&& c.indent_level == old(self).indent_level
                    &&& c.indent_step == old(self).indent_step
                    &&& c.is_inside_fn_type_decl == old(self).is_inside_fn_type_decl
                    &&& final(c).indent_level == final(self).indent_level
                    &&& final(c).indent_step == final(self).indent_step
                    &&& final(c).is_inside_fn_type_decl == final(self).is_inside_fn_type_decl
                },
    {
        let old_state = self.disallowed_multiline_fn_call;
        self.disallowed_multiline_fn_call = true;
        let res = f(self);
        self.disallowed_multiline_fn_call = old_state;
        res
    }
}

/// The width of the first indented line of `tokens`, if any.
pub open spec fn first_indent(tokens: Seq<Token>) -> Option<u8>
    decreases tokens.len(),
{
    if tokens.len() == 0 {
        None
    } else if tokens[0].token_type is Indent && tokens[0].token_type->Indent_0 > 0 {
        Some(tokens[0].token_type->Indent_0)
    } else {
        first_indent(tokens.drop_first())
    }
}

pub proof fn lemma_last_slash(path: Seq<char>)
    ensures
        last_slash(path) matches Some(i) ==> 0 <= i < path.len() && path[i] == '/',
    decreases path.len(),
{
    if path.len() > 0 && path.last() != '/' {
        lemma_last_slash(path.drop_last());
    }
}

/// Finds the last `/` of `path`.
fn find_last_slash(path: &str) -> (res: Option<usize>)
    ensures
        res matches Some(i) ==> last_slash(path@) == Some(i as int),
        res is None ==> last_slash(path@) is None,
{
    let n = path.unicode_len();
    let mut i = n;
    assert(path@.subrange(0, n as int) =~= path@);
    while i > 0
        invariant
            n == path@.len(),
            i <= n,
            last_slash(path@) == last_slash(path@.subrange(0, i as int)),
        decreases i,
    {
        assert(path@.subrange(0, i as int).drop_last() =~= path@.subrange(0, i - 1));
        if path.get_char(i - 1) == '/' {
            return Some(i - 1);
        }
        i = i - 1;
    }
    None
}

} // verus!
