use rock::ast::{
    Array, Expression, Ident, IdentOrType, IdentifierPath, Literal, LiteralKind, Operand,
    Operator, PrimaryExpr, UnaryExpr,
};
use rock::lexer::Span;
use rock::parser::util::lex_test;
use rock::parser::ParseCtx;
use rock::Config;

fn parse_literal(input: &str) -> Literal {
    let tokens = lex_test(input).unwrap();
    let (literal, remaining_tokens) =
        Literal::parse(&tokens, &mut ParseCtx::new(&Config::default())).unwrap();

    assert_eq!(remaining_tokens.len(), 0);

    literal
}

#[test]
fn literal_test_parse_number() {
    let input = "123";
    let literal = parse_literal(input);

    assert_eq!(literal.kind, LiteralKind::Number(123));
}

#[test]
fn literal_test_parse_string() {
    let input = "\"hello\"";
    let literal = parse_literal(input);

    assert_eq!(literal.kind, LiteralKind::String("hello".to_string()));
}

#[test]
fn literal_test_parse_char() {
    let input = "'a'";
    let literal = parse_literal(input);

    assert_eq!(literal.kind, LiteralKind::Char('a'));
}

#[test]
fn test_parse_float() {
    let input = "123.456";
    let literal = parse_literal(input);

    match literal.kind {
        LiteralKind::Float(text) => assert_eq!(text.parse::<f64>().unwrap(), 123.456),
        _ => panic!(),
    }
}

#[test]
fn test_parse_bool() {
    let input = "true";
    let literal = parse_literal(input);

    assert_eq!(literal.kind, LiteralKind::Bool(true));
}

#[test]
fn test_parse_array() {
    let input = "[1, 2, 3]";
    let literal = parse_literal(input);

    assert_eq!(
        literal.kind,
        LiteralKind::Array(Array {
            elements: vec![
                Expression::UnaryExpr(UnaryExpr::PrimaryExpr(PrimaryExpr {
                    operand: Operand::Literal(Literal {
                        kind: LiteralKind::Number(1),
                        span: Span::default(),
                    }),
                    secondaries: None,
                    type_annotation: None,
                })),
                Expression::UnaryExpr(UnaryExpr::PrimaryExpr(PrimaryExpr {
                    operand: Operand::Literal(Literal {
                        kind: LiteralKind::Number(2),
                        span: Span::default(),
                    }),
                    type_annotation: None,
                    secondaries: None,
                })),
                Expression::UnaryExpr(UnaryExpr::PrimaryExpr(PrimaryExpr {
                    operand: Operand::Literal(Literal {
                        kind: LiteralKind::Number(3),
                        span: Span::default(),
                    }),
                    secondaries: None,
                    type_annotation: None,
                })),
            ],
        })
    );
}

#[test]
fn test_parse_array_empty() {
    let input = "[]";
    let literal = parse_literal(input);

    assert_eq!(literal.kind, LiteralKind::Array(Array { elements: vec![] }));
}

#[test]
fn test_parse_array_nested_expr() {
    let input = "[1, [hello, 3], 8, 5 + 4]";
    let literal = parse_literal(input);

    let expected = LiteralKind::Array(Array {
        elements: vec![
            Expression::UnaryExpr(UnaryExpr::PrimaryExpr(PrimaryExpr {
                operand: Operand::Literal(Literal {
                    kind: LiteralKind::Number(1),
                    span: Span::default(),
                }),
                secondaries: None,
                type_annotation: None,
            })),
            Expression::UnaryExpr(UnaryExpr::PrimaryExpr(PrimaryExpr {
                operand: Operand::Literal(Literal {
                    span: Span::default(),
                    kind: LiteralKind::Array(Array {
                        elements: vec![
                            Expression::UnaryExpr(UnaryExpr::PrimaryExpr(PrimaryExpr {
                                operand: Operand::Ident(IdentifierPath {
                                    path: vec![IdentOrType::Ident(Ident {
                                        name: "hello".to_string(),
                                        span: Span::default(),
                                    })],
                                }),
                                secondaries: None,
                                type_annotation: None,
                            })),
                            Expression::UnaryExpr(UnaryExpr::PrimaryExpr(PrimaryExpr {
                                operand: Operand::Literal(Literal {
                                    kind: LiteralKind::Number(3),
                                    span: Span::default(),
                                }),
                                secondaries: None,
                                type_annotation: None,
                            })),
                        ],
                    }),
                }),
                secondaries: None,
                type_annotation: None,
            })),
            Expression::UnaryExpr(UnaryExpr::PrimaryExpr(PrimaryExpr {
                operand: Operand::Literal(Literal {
                    kind: LiteralKind::Number(8),
                    span: Span::default(),
                }),
                secondaries: None,
                type_annotation: None,
            })),
            Expression::BinopExpr(
                UnaryExpr::PrimaryExpr(PrimaryExpr {
                    operand: Operand::Literal(Literal {
                        kind: LiteralKind::Number(5),
                        span: Span::default(),
                    }),
                    secondaries: None,
                    type_annotation: None,
                }),
                Operator {
                    value: "+".to_string(),
                    span: Span::default(),
                },
                Box::new(Expression::UnaryExpr(UnaryExpr::PrimaryExpr(PrimaryExpr {
                    operand: Operand::Literal(Literal {
                        kind: LiteralKind::Number(4),
                        span: Span::default(),
                    }),
                    secondaries: None,
                    type_annotation: None,
                }))),
            ),
        ],
    });

    assert_eq!(literal.kind, expected,);
}


#[test]
fn array_literal_keeps_each_element() {
    let literal = parse_literal("[1, 2, 3]");
    match literal.kind {
        LiteralKind::Array(Array { elements }) => assert_eq!(elements.len(), 3),
        _ => panic!("not an array"),
    }
    let empty = parse_literal("[]");
    match empty.kind {
        LiteralKind::Array(Array { elements }) => assert_eq!(elements.len(), 0),
        _ => panic!("not an array"),
    }
}
