use rock::ast::Program;
use rock::lexer::{Lexer, LexerError, TokenType};
use rock::parser::{parse_string, ParseError};
use rock::parser::util::lex_test;

fn types(input: &str) -> Vec<TokenType> {
    let mut lexer = Lexer::new(String::new(), input).unwrap().with_newline_at_end(false);
    lexer
        .collect()
        .unwrap()
        .into_iter()
        .map(|t| t.token_type)
        .collect()
}

#[test]
fn each_line_opens_with_its_indentation() {
    assert_eq!(
        types("a\n  b"),
        vec![
            TokenType::Indent(0),
            TokenType::Ident("a".to_string()),
            TokenType::Eol,
            TokenType::Indent(2),
            TokenType::Ident("b".to_string()),
            TokenType::Eof,
        ]
    );
}

#[test]
fn words_are_keywords_types_or_identifiers() {
    assert_eq!(
        types("if Foo bar"),
        vec![
            TokenType::Indent(0),
            TokenType::Keyword("if".to_string()),
            TokenType::Type("Foo".to_string()),
            TokenType::Ident("bar".to_string()),
            TokenType::Eof,
        ]
    );
}

#[test]
fn operators_stick_to_what_follows_after_a_blank() {
    assert_eq!(
        types("a - b -c = d"),
        vec![
            TokenType::Indent(0),
            TokenType::Ident("a".to_string()),
            TokenType::Operator("-".to_string()),
            TokenType::Ident("b".to_string()),
            TokenType::StuckOperator("-".to_string()),
            TokenType::Ident("c".to_string()),
            TokenType::Equal,
            TokenType::Ident("d".to_string()),
            TokenType::Eof,
        ]
    );
}

#[test]
fn a_dot_after_a_blank_is_spaced() {
    assert_eq!(
        types("a.b .c"),
        vec![
            TokenType::Indent(0),
            TokenType::Ident("a".to_string()),
            TokenType::Dot,
            TokenType::Ident("b".to_string()),
            TokenType::SpacedDot,
            TokenType::Ident("c".to_string()),
            TokenType::Eof,
        ]
    );
}

#[test]
fn numbers_strings_chars_and_comments() {
    assert_eq!(
        types("12 3.5 \"hi\" 'c' # note"),
        vec![
            TokenType::Indent(0),
            TokenType::Number("12".to_string()),
            TokenType::Float("3.5".to_string()),
            TokenType::String("hi".to_string()),
            TokenType::Char('c'),
            TokenType::Comment(" note".to_string()),
            TokenType::Eof,
        ]
    );
}

#[test]
fn macro_sigils() {
    assert_eq!(
        types("$a $( )* %m"),
        vec![
            TokenType::Indent(0),
            TokenType::MacroVar("a".to_string()),
            TokenType::MacroRepeatOpen,
            TokenType::MacroRepeatClose,
            TokenType::MacroInvoc("m".to_string()),
            TokenType::Eof,
        ]
    );
}

#[test]
fn an_empty_last_line_is_added_when_asked() {
    let mut lexer = Lexer::new(String::new(), "a").unwrap();
    let tokens: Vec<TokenType> = lexer.collect().unwrap().into_iter().map(|t| t.token_type).collect();
    assert_eq!(
        tokens,
        vec![
            TokenType::Indent(0),
            TokenType::Ident("a".to_string()),
            TokenType::Eol,
            TokenType::Indent(0),
            TokenType::Eol,
            TokenType::Eof,
        ]
    );
}

#[test]
fn unknown_character_and_unclosed_string_are_refused() {
    let mut lexer = Lexer::new(String::new(), "a ~").unwrap();
    assert!(matches!(lexer.collect(), Err(LexerError::UnknownToken('~', _))));
    let mut lexer = Lexer::new(String::new(), "\"open").unwrap();
    assert!(matches!(lexer.collect(), Err(LexerError::UnknownToken('"', _))));
}

#[test]
fn test_lexing_leaves_out_the_first_indentation_and_the_end() {
    let tokens = lex_test("a b").unwrap();
    let kinds: Vec<TokenType> = tokens.into_iter().map(|t| t.token_type).collect();
    assert_eq!(
        kinds,
        vec![TokenType::Ident("a".to_string()), TokenType::Ident("b".to_string())]
    );
}

#[test]
fn a_dot_after_digits_is_a_fraction_only_before_a_digit() {
    assert_eq!(
        types("1.x 2.50"),
        vec![
            TokenType::Indent(0),
            TokenType::Number("1".to_string()),
            TokenType::Dot,
            TokenType::Ident("x".to_string()),
            TokenType::Float("2.50".to_string()),
            TokenType::Eof,
        ]
    );
}

#[test]
fn reading_the_same_input_twice_gives_the_same_tokens() {
    let input = "f = x -> x + 1\n  g $a %m \"s\"";
    assert_eq!(types(input), types(input));
}

#[test]
fn token_text_is_what_was_read() {
    let input = "f = x -> \"s\" 'c' # n";
    let mut lexer = Lexer::new(String::new(), input).unwrap().with_newline_at_end(false);
    let tokens = lexer.collect().unwrap();
    let chars: Vec<char> = input.chars().collect();
    for token in tokens.iter() {
        match token.token_type {
            TokenType::Indent(_) | TokenType::Eof => {}
            _ => {
                let source: String = chars[token.span.start..token.span.end].iter().collect();
                assert_eq!(token.token_type.to_string(), source);
            }
        }
    }
    assert_eq!(TokenType::Indent(3).to_string(), "   ");
    assert_eq!(TokenType::Eof.to_string(), "EOF");
    assert_eq!(TokenType::MacroRepeatClose.to_string(), ")");
}

#[test]
fn a_lexing_failure_is_the_one_error_of_the_parse() {
    let diagnostics = parse_string::<Program>("main = -> 1 ~ 2").unwrap_err();
    assert_eq!(diagnostics.errors.len(), 1);
    assert!(matches!(diagnostics.errors[0], ParseError::Lexer(LexerError::UnknownToken('~', _))));
}

#[test]
fn an_odd_first_indentation_is_refused() {
    let diagnostics = parse_string::<Program>("main = ->\n   a").unwrap_err();
    assert_eq!(diagnostics.errors.len(), 1);
    assert!(matches!(diagnostics.errors[0], ParseError::OddIndentStep(3)));
}
