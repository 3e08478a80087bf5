use vstd::prelude::*;

use crate::ast::Ident;
use crate::lexer::{LexerError, Span, Token, TokenType};

verus! {

/// The error of a matching that no pattern fits, named by `name` and
/// written nowhere.
pub fn no_correspondance(name: &str) -> (res: ParseError)
    ensures
        res matches ParseError::MacroNoCorrespondance(id) && id.name@ == name@ && id.span.start == 0
            && id.span.end == 0,
{
    ParseError::MacroNoCorrespondance(Ident { name: String::from_str(name), span: Span::empty() })
}

/// Why a parse failed.
#[derive(Debug)]
pub enum ParseError {
    UnexpectedKeyword(Token, Vec<String>),
    UnexpectedToken(Token, Vec<TokenType>),
    UnexpectedEof(TokenType),
    LeftoverTokens(Vec<Token>),
    UnknownFile(String),
    Lexer(LexerError),
    MacroNoCorrespondance(Ident),
    MacroUnknownVar(String),
    /// The indentation found, the one expected, and where.
    IndentMismatch(u8, u8, Span),
    /// Indentation would go past the widest one a line can have.
    IndentOverflow(u8, u8),
    /// An odd indentation width was found where the indentation step is deduced.
    OddIndentStep(u8),
    InvalidPrecedence(u8, Token),
    /// A number literal too large for 64 bits.
    InvalidNumber(Token),
    InvalidVariant(Span, Span),
    ExpectedType(Span),
    /// What stands left of `=` cannot be assigned to.
    InvalidLHS(Span),
    /// A spaced dot closes the argument list being parsed.
    ShortCircuit,
    InternalError(String),
}

/// The errors gathered while parsing; empty when all went well.
#[derive(Debug, Default)]
pub struct Diagnostics {
    pub errors: Vec<ParseError>,
}

impl Diagnostics {
    pub fn new() -> (res: Self)
        ensures
            res.errors@.len() == 0,
    {
        Diagnostics { errors: Vec::new() }
    }

    /// The diagnostics made of one error.
    pub fn from_error(e: ParseError) -> (res: Self)
        ensures
            res.errors@ == seq![e],
    {
        let mut errors = Vec::new();
        errors.push(e);
        Diagnostics { errors }
    }

    pub fn push(&mut self, e: ParseError)
        ensures
            final(self).errors@ == old(self).errors@.push(e),
    {
        self.errors.push(e);
    }

    /// Adds the errors of `other` after those already here.
    pub fn merge(&mut self, other: Diagnostics)
        ensures
            final(self).errors@ == old(self).errors@ + other.errors@,
    {
        let mut other = other;
        self.errors.append(&mut other.errors);
    }

    pub fn is_empty(&self) -> (res: bool)
        ensures
            res == (self.errors@.len() == 0),
    {
        self.errors.len() == 0
    }

    /// `Ok` when no error was gathered, else the diagnostics themselves.
    pub fn return_if_err(self) -> (res: Result<(), Diagnostics>)
        ensures
            res is Ok <==> self.errors@.len() == 0,
            res matches Err(d) ==> d == self,
    {
        if self.errors.len() == 0 {
            Ok(())
        } else {
            Err(self)
        }
    }
}

} // verus!
