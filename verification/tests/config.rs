use rock::config::{parse_meta_files, split_text, Command};
use rock::diagnostic::{Diagnostic, DiagnosticType};
use rock::lexer::{LexerError, Span, Token, TokenType};
use rock::parser::ParseError;
use rock::Config;

#[test]
fn meta_file_name_and_path() {
    let (name, path) = parse_meta_files("std=lib/std.rk").unwrap();
    assert_eq!(name, "std");
    assert_eq!(path, "lib/std.rk");
}

#[test]
fn meta_file_without_equal_is_refused() {
    let err = parse_meta_files("std").unwrap_err();
    assert_eq!(err, "`std` isn't in the form `name=path`");
}

#[test]
fn meta_file_with_two_equals_is_refused() {
    let err = parse_meta_files("a=b=c").unwrap_err();
    assert_eq!(err, "`a=b=c` isn't in the form `name=path`");
}

#[test]
fn split_keeps_empty_pieces() {
    assert_eq!(split_text("tokens,ast", ','), vec!["tokens".to_string(), "ast".to_string()]);
    assert_eq!(split_text("", ','), vec!["".to_string()]);
    assert_eq!(
        split_text(",a,", ','),
        vec!["".to_string(), "a".to_string(), "".to_string()]
    );
}

#[test]
fn debug_print_lookup() {
    let mut config = Config::default();
    assert!(!config.has_debug_print("tokens"));
    config.debug_print = split_text("tokens,ast", ',');
    assert!(config.has_debug_print("tokens"));
    assert!(config.has_debug_print("ast"));
    assert!(!config.has_debug_print("ir"));
}

#[test]
fn commands_are_distinct() {
    assert_ne!(Command::Format, Command::Build);
    assert_eq!(Command::Expand, Command::Expand);
}

fn span(start: usize, end: usize) -> Span {
    let mut s = Span::empty();
    s.start = start;
    s.end = end;
    s
}

#[test]
fn diagnostic_of_unexpected_token() {
    let token = Token { token_type: TokenType::Eol, span: span(3, 4) };
    let d = Diagnostic::from_parse_error(ParseError::UnexpectedToken(token, vec![TokenType::Colon]));
    assert_eq!(d.kind, DiagnosticType::Error);
    assert_eq!(d.message, "Unexpected token: Eol");
    assert_eq!(d.labels.len(), 1);
    assert_eq!(d.labels[0].0, "Expected one of [Colon]");
    assert_eq!((d.labels[0].1.start, d.labels[0].1.end), (3, 4));
    assert_eq!((d.span.start, d.span.end), (3, 4));
}

#[test]
fn diagnostic_of_unknown_character() {
    let d = Diagnostic::from_parse_error(ParseError::Lexer(LexerError::UnknownToken('?', span(7, 8))));
    assert_eq!(d.message, "Unknown token: '?'");
    assert!(d.labels.is_empty());
    assert_eq!((d.span.start, d.span.end), (7, 8));
}

#[test]
fn diagnostic_of_other_error() {
    let d = Diagnostic::from_parse_error(ParseError::OddIndentStep(3));
    assert_eq!(d.message, "Unexpected error: OddIndentStep(3)");
    assert!(d.labels.is_empty());
    assert_eq!((d.span.start, d.span.end), (0, 0));
}
