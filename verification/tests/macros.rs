use rock::ast::{Ident, MacroFragment, Program, TopLevelKind};
use rock::lexer::{Span, Token, TokenType};
use rock::macro_expansion::correspondance::{text_less, Correspondance};
use rock::macro_expansion::expand::{expand_macros, replace_body_variables};
use rock::parser::items::macros::parse_macro_head_recursive;
use rock::parser::ParseCtx;
use rock::Config;
use rock::parser::parse_string;

fn ident_token(name: &str) -> Token {
    Token {
        token_type: TokenType::Ident(name.to_string()),
        span: Span::empty(),
    }
}

#[test]
fn expand_simple_macro_into_function() {
    let input = "macro gen\n  $name:ident =>\n    $name = -> 1\n\n%gen hello\n";
    let program = parse_string::<Program>(input).unwrap();
    assert!(program.has_macro_invoc());
    let expanded = expand_macros(program).unwrap();
    assert!(!expanded.has_macro_invoc());
    let names: Vec<String> = expanded
        .module
        .top_levels
        .iter()
        .filter_map(|t| match &t.kind {
            TopLevelKind::FunctionDecl(f) => Some(f.name.name.clone()),
            _ => None,
        })
        .collect();
    assert_eq!(names, vec!["hello".to_string()]);
}

#[test]
fn expand_macro_whose_pattern_leaves_arguments_fails() {
    let input = "macro generate\n  $name:ident, $type:ty =>\n    struct Generated\n      $name: $type\n\n%generate hello, String\n";
    let program = parse_string::<Program>(input).unwrap();
    assert!(expand_macros(program).is_err());
}

#[test]
fn expand_without_invocation_keeps_program() {
    let input = "main = -> 1\ntest = -> 2";
    let program = parse_string::<Program>(input).unwrap();
    let before = program.module.top_levels.len();
    assert!(!program.has_macro_invoc());
    let expanded = expand_macros(program).unwrap();
    assert_eq!(expanded.module.top_levels.len(), before);
}

#[test]
fn expand_undeclared_macro_fails() {
    let input = "%nothing a\n";
    let program = parse_string::<Program>(input).unwrap();
    assert!(program.has_macro_invoc());
    assert!(expand_macros(program).is_err());
}

#[test]
fn correspondance_get_and_keys() {
    let mut c = Correspondance::new();
    c.insert_direct("b".to_string(), ident_token("x"));
    c.insert_direct("a".to_string(), ident_token("y"));
    c.insert_direct("b".to_string(), ident_token("z"));
    assert_eq!(c.keys(), vec!["a".to_string(), "b".to_string()]);
    let b = c.get("b", 0).unwrap();
    assert_eq!(b.len(), 2);
    assert_eq!(b[0].token_type, TokenType::Ident("x".to_string()));
    assert_eq!(b[1].token_type, TokenType::Ident("z".to_string()));
    assert!(c.get("c", 0).is_none());
}

#[test]
fn text_order_is_lexicographic() {
    assert!(text_less("a", "b"));
    assert!(text_less("ab", "abc"));
    assert!(!text_less("abc", "ab"));
    assert!(!text_less("a", "a"));
}

fn mark_token(token_type: TokenType) -> Token {
    Token {
        token_type,
        span: Span::empty(),
    }
}

#[test]
fn repetition_body_is_emitted_once_per_binding() {
    let mut bound = Correspondance::new();
    bound.insert_direct("x".to_string(), ident_token("a"));
    bound.insert_direct("x".to_string(), ident_token("b"));
    let mut c = Correspondance::new();
    c.insert_nested(bound);
    let x = Ident {
        name: "x".to_string(),
        span: Span::empty(),
    };
    let body = vec![MacroFragment::Repetition(vec![
        MacroFragment::Ident(x),
        MacroFragment::Token(mark_token(TokenType::Coma)),
    ])];
    let tokens = replace_body_variables(&body, &c, 0).unwrap();
    let types: Vec<TokenType> = tokens.into_iter().map(|t| t.token_type).collect();
    assert_eq!(
        types,
        vec![
            TokenType::Ident("a".to_string()),
            TokenType::Coma,
            TokenType::Ident("b".to_string()),
            TokenType::Coma,
        ]
    );
}

#[test]
fn lookup_goes_down_repetitions_only_when_allowed() {
    let mut bound = Correspondance::new();
    bound.insert_direct("x".to_string(), ident_token("a"));
    let mut c = Correspondance::new();
    c.insert_nested(bound);
    assert!(c.get("x", 0).is_none());
    let found = c.get("x", 1).unwrap();
    assert_eq!(found.len(), 1);
    assert_eq!(found[0].token_type, TokenType::Ident("a".to_string()));
}

#[test]
fn inserting_a_repetition_with_the_same_names_merges_it() {
    let mut first = Correspondance::new();
    first.insert_direct("x".to_string(), ident_token("a"));
    let mut second = Correspondance::new();
    second.insert_direct("x".to_string(), ident_token("b"));
    let mut other = Correspondance::new();
    other.insert_direct("y".to_string(), ident_token("c"));
    let mut c = Correspondance::new();
    c.insert_nested(first);
    c.insert_nested(second);
    assert_eq!(c.nested_corresp.len(), 1);
    let found = c.get("x", 1).unwrap();
    assert_eq!(found.len(), 2);
    assert_eq!(found[1].token_type, TokenType::Ident("b".to_string()));
    c.insert_nested(other);
    assert_eq!(c.nested_corresp.len(), 2);
}

#[test]
fn macro_head_keeps_fragments_in_order() {
    let tokens = vec![
        mark_token(TokenType::MacroVar("a".to_string())),
        mark_token(TokenType::Colon),
        ident_token("ident"),
        mark_token(TokenType::Coma),
        mark_token(TokenType::MacroVar("b".to_string())),
        mark_token(TokenType::Colon),
        ident_token("ident"),
        mark_token(TokenType::FatArrow),
    ];
    let (defs, rest) = parse_macro_head_recursive(&tokens, &mut ParseCtx::new(&Config::default())).unwrap();
    assert_eq!(defs.len(), 3);
    assert!(matches!(&defs[0], MacroFragment::Ident(i) if i.name == "a"));
    assert!(matches!(&defs[1], MacroFragment::Token(t) if t.token_type == TokenType::Coma));
    assert!(matches!(&defs[2], MacroFragment::Ident(i) if i.name == "b"));
    assert_eq!(rest.len(), 1);
}
