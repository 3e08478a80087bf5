use rock::ast::{Expression, Ident, Instance, LiteralKind, MacroFragment, Operand, UnaryExpr};
use rock::parser::util::lex_test;
use rock::config::split_text;
use rock::lexer::{Span, Token, TokenType};
use rock::macro_expansion::correspondance::{text_less, Correspondance};
use rock::macro_expansion::expand::repetition_names;
use rock::parser::ParseCtx;
use rock::Config;

fn token(token_type: TokenType) -> Token {
    Token { token_type, span: Span::empty() }
}

#[test]
fn dedent_gives_back_the_level_of_indent() {
    let config = Config::default();
    let mut ctx = ParseCtx::new(&config);
    ctx.indent();
    assert_eq!(ctx.indent_level(), 2);
    ctx.indent();
    assert_eq!(ctx.indent_level(), 4);
    ctx.dedent();
    assert_eq!(ctx.indent_level(), 2);
    ctx.dedent();
    assert_eq!(ctx.indent_level(), 0);
}

#[test]
fn try_indent_refuses_past_the_widest_level() {
    let config = Config::default();
    let mut ctx = ParseCtx::new(&config);
    ctx.indent_level = 254;
    assert!(ctx.try_indent().is_err());
    assert_eq!(ctx.indent_level(), 254);
    ctx.indent_level = 253;
    assert!(ctx.try_indent().is_ok());
    assert_eq!(ctx.indent_level(), 255);
}

#[test]
fn text_order_is_strict_and_total() {
    let words = ["", "a", "ab", "b", "ba", "z"];
    for x in words.iter() {
        assert!(!text_less(x, x));
        for y in words.iter() {
            if x != y {
                assert!(text_less(x, y) != text_less(y, x));
            }
        }
    }
}

#[test]
fn token_type_comparison_is_an_equivalence() {
    let a = TokenType::Ident("x".to_string());
    let b = TokenType::Ident("x".to_string());
    let c = TokenType::Ident("y".to_string());
    assert!(a.same_as(&a));
    assert!(a.same_as(&b) && b.same_as(&a));
    assert!(!a.same_as(&c) && !c.same_as(&a));
    assert!(TokenType::Eol.same_as(&TokenType::Eol));
    assert!(!TokenType::Eol.same_as(&TokenType::Eof));
}

#[test]
fn split_gives_one_piece_more_than_separators() {
    for text in ["", "a", "a,b", ",,", "tokens,ast,ir"] {
        let pieces = split_text(text, ',');
        let separators = text.chars().filter(|c| *c == ',').count();
        assert_eq!(pieces.len(), separators + 1);
        assert_eq!(pieces.join(","), text);
    }
}

#[test]
fn read_after_insert_and_merge() {
    let mut c = Correspondance::new();
    c.insert_direct("x".to_string(), token(TokenType::Ident("a".to_string())));
    c.insert_direct("x".to_string(), token(TokenType::Ident("a".to_string())));
    assert_eq!(c.get("x", 0).unwrap().len(), 1);

    let mut other = Correspondance::new();
    other.insert_direct("x".to_string(), token(TokenType::Ident("b".to_string())));
    other.insert_direct("w".to_string(), token(TokenType::Ident("c".to_string())));
    c.merge(&other);

    let x = c.get("x", 0).unwrap();
    assert_eq!(x.len(), 2);
    assert_eq!(x[0].token_type, TokenType::Ident("a".to_string()));
    assert_eq!(x[1].token_type, TokenType::Ident("b".to_string()));
    assert_eq!(c.get("w", 0).unwrap().len(), 1);
    assert_eq!(c.keys(), vec!["w".to_string(), "x".to_string()]);
}

#[test]
fn repetition_names_are_its_variables_in_order() {
    let ident = |name: &str| Ident { name: name.to_string(), span: Span::empty() };
    let fragments = vec![
        MacroFragment::Ident(ident("b")),
        MacroFragment::Token(token(TokenType::Coma)),
        MacroFragment::Ident(ident("a")),
        MacroFragment::Repetition(vec![MacroFragment::Ident(ident("c"))]),
    ];
    assert_eq!(repetition_names(&fragments), vec!["b".to_string(), "a".to_string()]);
}

#[test]
fn instance_fields_come_by_name_with_the_last_value() {
    let tokens = lex_test("Test c: 1, a: 2, c: 3").unwrap();
    let (instance, rest) = Instance::parse(&tokens, &mut ParseCtx::new(&Config::default())).unwrap();
    assert!(rest.is_empty());
    let names: Vec<String> = instance.fields.iter().map(|(n, _)| n.name.clone()).collect();
    assert_eq!(names, vec!["a".to_string(), "c".to_string()]);
    let value = match &instance.fields[1].1 {
        Expression::UnaryExpr(UnaryExpr::PrimaryExpr(p)) => match &p.operand {
            Operand::Literal(l) => match l.kind {
                LiteralKind::Number(n) => n,
                _ => 0,
            },
            _ => 0,
        },
        _ => 0,
    };
    assert_eq!(value, 3);
}

