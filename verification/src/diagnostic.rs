use vstd::prelude::*;

use crate::lexer::{LexerError, Span, TokenType};
use crate::debug_text::{
    char_debug, char_debug_text, list_of, parse_error_debug, parse_error_text, str_debug, texts_text,
    token_type_debug, token_type_text, token_types_text,
};
use crate::parser::ParseError;

verus! {

/// How serious a diagnostic is.
#[derive(Debug, Clone, Copy, PartialEq, Eq, Structural)]
pub enum DiagnosticType {
    Error,
    Warning,
    Note,
}

/// A message for the user about a place of the source, with notes on other
/// places.
#[derive(Debug)]
pub struct Diagnostic {
    pub message: String,
    pub labels: Vec<(String, Span)>,
    pub span: Span,
    pub kind: DiagnosticType,
}

/// `prefix` followed by `rest`.
fn prefixed(prefix: &str, rest: String) -> (res: String)
    ensures
        res@ == prefix@ + rest@,
{
    let mut res = String::from_str(prefix);
    res.append(rest.as_str());
    res
}

impl Diagnostic {
    /// The diagnostic that reports a parse error: an unexpected token or
    /// keyword is shown where it stands, with what was expected as a note
    /// there; an unknown character is shown where the lexer met it; any
    /// other error is reported with no place.
    pub fn from_parse_error(err: ParseError) -> (res: Self)
        ensures
            res.kind == DiagnosticType::Error,
            match err {
                ParseError::UnexpectedToken(token, expected) => {
                    &&& res.message@ == "Unexpected token: "@ + token_type_debug(token.token_type)
                    &&& res.span == token.span
                    &&& res.labels@.len() == 1
                    &&& res.labels@[0].0@ == "Expected one of "@ + list_of(
                        expected@.map_values(|t: TokenType| token_type_debug(t)),
                    )
                    &&& res.labels@[0].1 == token.span
                },
                ParseError::UnexpectedKeyword(token, expected) => {
                    &&& res.message@ == "Unexpected keyword: "@ + token_type_debug(token.token_type)
                    &&& res.span == token.span
                    &&& res.labels@.len() == 1
                    &&& res.labels@[0].0@ == "Expected one of "@ + list_of(
                        expected@.map_values(|k: String| str_debug(k@)),
                    )
                    &&& res.labels@[0].1 == token.span
                },
                ParseError::Lexer(LexerError::UnknownToken(c, span)) => {
                    &&& res.message@ == "Unknown token: "@ + char_debug(c)
                    &&& res.span == span
                    &&& res.labels@.len() == 0
                },
                _ => {
                    &&& res.message@ == "Unexpected error: "@ + parse_error_debug(err)
                    &&& res.span.file_path@.len() == 0
                    &&& res.span.start == 0
                    &&& res.span.end == 0
                    &&& res.labels@.len() == 0
                },
            },
    {
        match err {
            ParseError::UnexpectedToken(token, expected) => {
                let message = prefixed("Unexpected token: ", token_type_text(&token.token_type));
                let label = prefixed("Expected one of ", token_types_text(&expected));
                let mut labels = Vec::new();
                labels.push((label, token.span.clone()));
                Diagnostic { message, labels, span: token.span, kind: DiagnosticType::Error }
            },
            ParseError::UnexpectedKeyword(token, expected) => {
                let message = prefixed("Unexpected keyword: ", token_type_text(&token.token_type));
                let label = prefixed("Expected one of ", texts_text(&expected));
                let mut labels = Vec::new();
                labels.push((label, token.span.clone()));
                Diagnostic { message, labels, span: token.span, kind: DiagnosticType::Error }
            },
            ParseError::Lexer(LexerError::UnknownToken(c, span)) => {
                let message = prefixed("Unknown token: ", char_debug_text(c));
                Diagnostic { message, labels: Vec::new(), span, kind: DiagnosticType::Error }
            },
            other => {
                let message = prefixed("Unexpected error: ", parse_error_text(&other));
                Diagnostic {
                    message,
                    labels: Vec::new(),
                    span: Span::empty(),
                    kind: DiagnosticType::Error,
                }
            },
        }
    }
}

} // verus!
