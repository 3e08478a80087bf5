use rock::ast::{
    Argument, Array, ArrayPattern, Assignment, AssignmentLHS, Block, Else, Expression,
    FieldPattern, FieldsPatternOrArgumentsPattern, FunctionDecl, Ident, IdentOrNumber,
    IdentOrType, IdentifierPath, If, InstancePattern, LambdaDecl, Literal, LiteralKind, Loop,
    Match, MatchArm, Operand, Operator, ParseType, ParseTypeInner, Pattern, PatternKind,
    PrimaryExpr, SecondaryExpr, Statement, Tuple, UnaryExpr,
};
use rock::lexer::Span;
use rock::parser::util::lex_test;
use rock::parser::ParseCtx;
use rock::Config;
#[test]
    fn expression_test_parse_expression() {
        let input = "1 + 2";
        let tokens = lex_test(input).unwrap();
        let (expression, rest) =
            Expression::parse(&tokens, &mut ParseCtx::new(&Config::default())).unwrap();

        assert_eq!(
            expression,
            Expression::BinopExpr(
                UnaryExpr::PrimaryExpr(PrimaryExpr {
                    operand: Operand::Literal(Literal {
                        kind: LiteralKind::Number(1),
                        span: Span::default(),
                    }),
                    secondaries: None,
                    type_annotation: None,
                }),
                Operator {
                    value: "+".to_string(),
                    span: Span::default(),
                },
                Box::new(Expression::UnaryExpr(UnaryExpr::PrimaryExpr(PrimaryExpr {
                    operand: Operand::Literal(Literal {
                        kind: LiteralKind::Number(2),
                        span: Span::default(),
                    }),
                    secondaries: None,
                    type_annotation: None,
                })))
            )
        );

        assert_eq!(rest.len(), 0);
    }

#[test]
    fn expression_test_parse_nested_expression() {
        let input = "a.a + b + 2";
        let tokens = lex_test(input).unwrap();
        let (expression, rest) =
            Expression::parse(&tokens, &mut ParseCtx::new(&Config::default())).unwrap();

        assert_eq!(
            expression,
            Expression::BinopExpr(
                UnaryExpr::PrimaryExpr(PrimaryExpr {
                    operand: Operand::Ident(IdentifierPath {
                        path: vec![IdentOrType::Ident(Ident {
                            name: "a".to_string(),
                            span: Span::default(),
                        })],
                    }),
                    secondaries: Some(vec![SecondaryExpr::Dot(IdentOrNumber::Ident(Ident {
                        name: "a".to_string(),
                        span: Span::default(),
                    }))]),
                    type_annotation: None,
                }),
                Operator {
                    value: "+".to_string(),
                    span: Span::default(),
                },
                Box::new(Expression::BinopExpr(
                    UnaryExpr::PrimaryExpr(PrimaryExpr {
                        operand: Operand::Ident(IdentifierPath {
                            path: vec![IdentOrType::Ident(Ident {
                                name: "b".to_string(),
                                span: Span::default(),
                            })],
                        }),
                        secondaries: None,
                        type_annotation: None,
                    }),
                    Operator {
                        value: "+".to_string(),
                        span: Span::default(),
                    },
                    Box::new(Expression::UnaryExpr(UnaryExpr::PrimaryExpr(PrimaryExpr {
                        operand: Operand::Literal(Literal {
                            kind: LiteralKind::Number(2),
                            span: Span::default(),
                        }),
                        secondaries: None,
                        type_annotation: None,
                    })))
                ))
            )
        );
        assert_eq!(rest.len(), 0);
    }

#[test]
    fn expression_nested_parenthesis_expression() {
        let input = "(1 + (2 + 3))";
        let tokens = lex_test(input).unwrap();
        let (expression, rest) =
            Expression::parse(&tokens, &mut ParseCtx::new(&Config::default())).unwrap();

        assert_eq!(
            expression,
            Expression::UnaryExpr(UnaryExpr::PrimaryExpr(PrimaryExpr {
                operand: Operand::Expression(Box::new(Expression::BinopExpr(
                    UnaryExpr::PrimaryExpr(PrimaryExpr {
                        operand: Operand::Literal(Literal {
                            kind: LiteralKind::Number(1),
                            span: Span::default(),
                        }),
                        secondaries: None,
                        type_annotation: None,
                    }),
                    Operator {
                        value: "+".to_string(),
                        span: Span::default(),
                    },
                    Box::new(Expression::UnaryExpr(UnaryExpr::PrimaryExpr(PrimaryExpr {
                        operand: Operand::Expression(Box::new(Expression::BinopExpr(
                            UnaryExpr::PrimaryExpr(PrimaryExpr {
                                operand: Operand::Literal(Literal {
                                    kind: LiteralKind::Number(2),
                                    span: Span::default(),
                                }),
                                secondaries: None,
                                type_annotation: None,
                            }),
                            Operator {
                                value: "+".to_string(),
                                span: Span::default(),
                            },
                            Box::new(Expression::UnaryExpr(UnaryExpr::PrimaryExpr(PrimaryExpr {
                                operand: Operand::Literal(Literal {
                                    kind: LiteralKind::Number(3),
                                    span: Span::default(),
                                }),
                                secondaries: None,
                                type_annotation: None,
                            })))
                        ))),
                        secondaries: None,
                        type_annotation: None,
                    })))
                ))),
                secondaries: None,
                type_annotation: None,
            })),
        );

        assert_eq!(rest.len(), 0);
    }

#[test]
    fn expression_call_expression() {
        let input = "hello 1, 2, 3";
        let tokens = lex_test(input).unwrap();
        let (expression, rest) =
            Expression::parse(&tokens, &mut ParseCtx::new(&Config::default())).unwrap();

        assert_eq!(
            expression,
            Expression::UnaryExpr(UnaryExpr::PrimaryExpr(PrimaryExpr {
                operand: Operand::Ident(IdentifierPath {
                    path: vec![IdentOrType::Ident(Ident {
                        name: "hello".to_string(),
                        span: Span::default(),
                    })],
                }),
                secondaries: Some(vec![SecondaryExpr::Arguments(vec![
                    Argument {
                        arg: Expression::UnaryExpr(UnaryExpr::PrimaryExpr(PrimaryExpr {
                            operand: Operand::Literal(Literal {
                                kind: LiteralKind::Number(1),
                                span: Span::default(),
                            }),
                            secondaries: None,
                            type_annotation: None,
                        })),
                    },
                    Argument {
                        arg: Expression::UnaryExpr(UnaryExpr::PrimaryExpr(PrimaryExpr {
                            operand: Operand::Literal(Literal {
                                kind: LiteralKind::Number(2),
                                span: Span::default(),
                            }),
                            secondaries: None,
                            type_annotation: None,
                        })),
                    },
                    Argument {
                        arg: Expression::UnaryExpr(UnaryExpr::PrimaryExpr(PrimaryExpr {
                            operand: Operand::Literal(Literal {
                                kind: LiteralKind::Number(3),
                                span: Span::default(),
                            }),
                            secondaries: None,
                            type_annotation: None,
                        })),
                    },
                ])]),
                type_annotation: None,
            })),
        );

        assert_eq!(rest.len(), 0);
    }

#[test]
    fn expression_indice_expression() {
        let input = "hello[1]";
        let tokens = lex_test(input).unwrap();
        let (expression, rest) =
            Expression::parse(&tokens, &mut ParseCtx::new(&Config::default())).unwrap();

        assert_eq!(
            expression,
            Expression::UnaryExpr(UnaryExpr::PrimaryExpr(PrimaryExpr {
                operand: Operand::Ident(IdentifierPath {
                    path: vec![IdentOrType::Ident(Ident {
                        name: "hello".to_string(),
                        span: Span::default(),
                    })],
                }),
                secondaries: Some(vec![SecondaryExpr::Indice(Box::new(
                    Expression::UnaryExpr(UnaryExpr::PrimaryExpr(PrimaryExpr {
                        operand: Operand::Literal(Literal {
                            kind: LiteralKind::Number(1),
                            span: Span::default(),
                        }),
                        secondaries: None,
                        type_annotation: None,
                    }))
                ))]),
                type_annotation: None,
            })),
        );

        assert_eq!(rest.len(), 0);
    }

#[test]
    fn expression_dot_expression() {
        let input = "hello.world";
        let tokens = lex_test(input).unwrap();
        let (expression, rest) =
            Expression::parse(&tokens, &mut ParseCtx::new(&Config::default())).unwrap();

        assert_eq!(
            expression,
            Expression::UnaryExpr(UnaryExpr::PrimaryExpr(PrimaryExpr {
                operand: Operand::Ident(IdentifierPath {
                    path: vec![IdentOrType::Ident(Ident {
                        name: "hello".to_string(),
                        span: Span::default(),
                    })],
                }),
                secondaries: Some(vec![SecondaryExpr::Dot(IdentOrNumber::Ident(Ident {
                    name: "world".to_string(),
                    span: Span::default(),
                }))]),
                type_annotation: None,
            })),
        );

        assert_eq!(rest.len(), 0);
    }

#[test]
    fn expression_dot_expression_with_literal() {
        let input = "4.test";
        let tokens = lex_test(input).unwrap();
        let (expression, rest) =
            Expression::parse(&tokens, &mut ParseCtx::new(&Config::default())).unwrap();

        assert_eq!(
            expression,
            Expression::UnaryExpr(UnaryExpr::PrimaryExpr(PrimaryExpr {
                operand: Operand::Literal(Literal {
                    kind: LiteralKind::Number(4),
                    span: Span::default(),
                }),
                secondaries: Some(vec![SecondaryExpr::Dot(IdentOrNumber::Ident(Ident {
                    name: "test".to_string(),
                    span: Span::default(),
                }))]),
                type_annotation: None,
            })),
        );

        assert_eq!(rest.len(), 0);
    }

#[test]
    fn dot_expression_with_number() {
        let input = "some_tuple.1";
        let tokens = lex_test(input).unwrap();
        let (expression, rest) =
            Expression::parse(&tokens, &mut ParseCtx::new(&Config::default())).unwrap();

        assert_eq!(
            expression,
            Expression::UnaryExpr(UnaryExpr::PrimaryExpr(PrimaryExpr {
                operand: Operand::Ident(IdentifierPath {
                    path: vec![IdentOrType::Ident(Ident {
                        name: "some_tuple".to_string(),
                        span: Span::default(),
                    })],
                }),
                secondaries: Some(vec![SecondaryExpr::Dot(IdentOrNumber::Number(1))]),
                type_annotation: None,
            })),
        );
        assert_eq!(rest.len(), 0);
    }

#[test]
    fn expression_complex_secondaries() {
        let input = "hello[1].world 1, 2, 3";
        let tokens = lex_test(input).unwrap();
        let (expression, rest) =
            Expression::parse(&tokens, &mut ParseCtx::new(&Config::default())).unwrap();

        assert_eq!(
            expression,
            Expression::UnaryExpr(UnaryExpr::PrimaryExpr(PrimaryExpr {
                operand: Operand::Ident(IdentifierPath {
                    path: vec![IdentOrType::Ident(Ident {
                        name: "hello".to_string(),
                        span: Span::default(),
                    })],
                }),
                secondaries: Some(vec![
                    SecondaryExpr::Indice(Box::new(Expression::UnaryExpr(UnaryExpr::PrimaryExpr(
                        PrimaryExpr {
                            operand: Operand::Literal(Literal {
                                kind: LiteralKind::Number(1),
                                span: Span::default(),
                            }),
                            secondaries: None,
                            type_annotation: None,
                        }
                    )))),
                    SecondaryExpr::Dot(IdentOrNumber::Ident(Ident {
                        name: "world".to_string(),
                        span: Span::default(),
                    })),
                    SecondaryExpr::Arguments(vec![
                        Argument {
                            arg: Expression::UnaryExpr(UnaryExpr::PrimaryExpr(PrimaryExpr {
                                operand: Operand::Literal(Literal {
                                    kind: LiteralKind::Number(1),
                                    span: Span::default(),
                                }),
                                secondaries: None,
                                type_annotation: None,
                            })),
                        },
                        Argument {
                            arg: Expression::UnaryExpr(UnaryExpr::PrimaryExpr(PrimaryExpr {
                                operand: Operand::Literal(Literal {
                                    kind: LiteralKind::Number(2),
                                    span: Span::default(),
                                }),
                                secondaries: None,
                                type_annotation: None,
                            })),
                        },
                        Argument {
                            arg: Expression::UnaryExpr(UnaryExpr::PrimaryExpr(PrimaryExpr {
                                operand: Operand::Literal(Literal {
                                    kind: LiteralKind::Number(3),
                                    span: Span::default(),
                                }),
                                secondaries: None,
                                type_annotation: None,
                            })),
                        },
                    ]),
                ]),
                type_annotation: None,
            })),
        );

        assert_eq!(rest.len(), 0);
    }

#[test]
    fn multiline_dot() {
        let input = r#"foo
  .bar
  .baz"#;
        let tokens = lex_test(input).unwrap();
        let (expression, rest) =
            Expression::parse(&tokens, &mut ParseCtx::new(&Config::default())).unwrap();

        assert_eq!(
            expression,
            Expression::UnaryExpr(UnaryExpr::PrimaryExpr(PrimaryExpr {
                operand: Operand::Ident(IdentifierPath {
                    path: vec![IdentOrType::Ident(Ident {
                        name: "foo".to_string(),
                        span: Span::default(),
                    })],
                }),
                secondaries: Some(vec![
                    SecondaryExpr::Dot(IdentOrNumber::Ident(Ident {
                        name: "bar".to_string(),
                        span: Span::default(),
                    })),
                    SecondaryExpr::Dot(IdentOrNumber::Ident(Ident {
                        name: "baz".to_string(),
                        span: Span::default(),
                    })),
                ]),
                type_annotation: None,
            })),
        );
        assert_eq!(rest.len(), 0);
    }

#[test]
    fn spaced_dot_closes_fn_call() {
        let input = "foo a, b .bar";
        let tokens = lex_test(input).unwrap();
        let (expression, rest) =
            Expression::parse(&tokens, &mut ParseCtx::new(&Config::default())).unwrap();

        assert_eq!(
            expression,
            Expression::UnaryExpr(UnaryExpr::PrimaryExpr(PrimaryExpr {
                operand: Operand::Ident(IdentifierPath {
                    path: vec![IdentOrType::Ident(Ident {
                        name: "foo".to_string(),
                        span: Span::default(),
                    })],
                }),
                secondaries: Some(vec![
                    SecondaryExpr::Arguments(vec![
                        Argument {
                            arg: Expression::UnaryExpr(UnaryExpr::PrimaryExpr(PrimaryExpr {
                                operand: Operand::Ident(IdentifierPath {
                                    path: vec![IdentOrType::Ident(Ident {
                                        name: "a".to_string(),
                                        span: Span::default(),
                                    })],
                                }),
                                secondaries: None,
                                type_annotation: None,
                            })),
                        },
                        Argument {
                            arg: Expression::UnaryExpr(UnaryExpr::PrimaryExpr(PrimaryExpr {
                                operand: Operand::Ident(IdentifierPath {
                                    path: vec![IdentOrType::Ident(Ident {
                                        name: "b".to_string(),
                                        span: Span::default(),
                                    })],
                                }),
                                secondaries: None,
                                type_annotation: None,
                            })),
                        },
                    ]),
                    SecondaryExpr::Dot(IdentOrNumber::Ident(Ident {
                        name: "bar".to_string(),
                        span: Span::default(),
                    }))
                ]),
                type_annotation: None,
            })),
        );
        assert_eq!(rest.len(), 0);
    }

#[test]
    fn spaced_dot_closes_fn_call_nested() {
        let input = "foo a, b a .bar .baz";
        let tokens = lex_test(input).unwrap();
        let (expression, rest) =
            Expression::parse(&tokens, &mut ParseCtx::new(&Config::default())).unwrap();

        assert_eq!(
            expression,
            Expression::UnaryExpr(UnaryExpr::PrimaryExpr(PrimaryExpr {
                operand: Operand::Ident(IdentifierPath {
                    path: vec![IdentOrType::Ident(Ident {
                        name: "foo".to_string(),
                        span: Span::default(),
                    })],
                }),
                secondaries: Some(vec![
                    SecondaryExpr::Arguments(vec![
                        Argument {
                            arg: Expression::UnaryExpr(UnaryExpr::PrimaryExpr(PrimaryExpr {
                                operand: Operand::Ident(IdentifierPath {
                                    path: vec![IdentOrType::Ident(Ident {
                                        name: "a".to_string(),
                                        span: Span::default(),
                                    })],
                                }),
                                secondaries: None,
                                type_annotation: None,
                            })),
                        },
                        Argument {
                            arg: Expression::UnaryExpr(UnaryExpr::PrimaryExpr(PrimaryExpr {
                                operand: Operand::Ident(IdentifierPath {
                                    path: vec![IdentOrType::Ident(Ident {
                                        name: "b".to_string(),
                                        span: Span::default(),
                                    })],
                                }),
                                secondaries: Some(vec![SecondaryExpr::Arguments(vec![Argument {
                                    arg: Expression::UnaryExpr(UnaryExpr::PrimaryExpr(
                                        PrimaryExpr {
                                            operand: Operand::Ident(IdentifierPath {
                                                path: vec![IdentOrType::Ident(Ident {
                                                    name: "a".to_string(),
                                                    span: Span::default(),
                                                })],
                                            }),
                                            secondaries: None,
                                            type_annotation: None,
                                        },
                                    )),
                                },]),]),
                                type_annotation: None,
                            })),
                        },
                    ]),
                    SecondaryExpr::Dot(IdentOrNumber::Ident(Ident {
                        name: "bar".to_string(),
                        span: Span::default(),
                    })),
                    SecondaryExpr::Dot(IdentOrNumber::Ident(Ident {
                        name: "baz".to_string(),
                        span: Span::default(),
                    })),
                ]),
                type_annotation: None,
            })),
        );
        assert_eq!(rest.len(), 0);
    }

#[test]
    fn tuple() {
        let input = "(1, 2, 3)";
        let tokens = lex_test(input).unwrap();
        let (expression, rest) =
            Expression::parse(&tokens, &mut ParseCtx::new(&Config::default())).unwrap();

        assert_eq!(
            expression,
            Expression::UnaryExpr(UnaryExpr::PrimaryExpr(PrimaryExpr {
                operand: Operand::Tuple(Tuple {
                    elements: vec![
                        Expression::UnaryExpr(UnaryExpr::PrimaryExpr(PrimaryExpr {
                            operand: Operand::Literal(Literal {
                                kind: LiteralKind::Number(1),
                                span: Span::default(),
                            }),
                            secondaries: None,
                            type_annotation: None,
                        })),
                        Expression::UnaryExpr(UnaryExpr::PrimaryExpr(PrimaryExpr {
                            operand: Operand::Literal(Literal {
                                kind: LiteralKind::Number(2),
                                span: Span::default(),
                            }),
                            secondaries: None,
                            type_annotation: None,
                        })),
                        Expression::UnaryExpr(UnaryExpr::PrimaryExpr(PrimaryExpr {
                            operand: Operand::Literal(Literal {
                                kind: LiteralKind::Number(3),
                                span: Span::default(),
                            }),
                            secondaries: None,
                            type_annotation: None,
                        })),
                    ],
                }),
                secondaries: None,
                type_annotation: None,
            })),
        );
        assert_eq!(rest.len(), 0);
    }

#[test]
    fn nested_spaced_dot_should_close_fn_call() {
        let input = "foo a, (b .lol) .toto";
        let tokens = lex_test(input).unwrap();
        let (expression, rest) =
            Expression::parse(&tokens, &mut ParseCtx::new(&Config::default())).unwrap();

        assert_eq!(
            expression,
            Expression::UnaryExpr(UnaryExpr::PrimaryExpr(PrimaryExpr {
                operand: Operand::Ident(IdentifierPath {
                    path: vec![IdentOrType::Ident(Ident {
                        name: "foo".to_string(),
                        span: Span::default(),
                    })],
                }),
                secondaries: Some(vec![
                    SecondaryExpr::Arguments(vec![
                        Argument {
                            arg: Expression::UnaryExpr(UnaryExpr::PrimaryExpr(PrimaryExpr {
                                operand: Operand::Ident(IdentifierPath {
                                    path: vec![IdentOrType::Ident(Ident {
                                        name: "a".to_string(),
                                        span: Span::default(),
                                    })],
                                }),
                                secondaries: None,
                                type_annotation: None,
                            })),
                        },
                        Argument {
                            arg: Expression::UnaryExpr(UnaryExpr::PrimaryExpr(PrimaryExpr {
                                operand: Operand::Expression(Box::new(Expression::UnaryExpr(
                                    UnaryExpr::PrimaryExpr(PrimaryExpr {
                                        operand: Operand::Ident(IdentifierPath {
                                            path: vec![IdentOrType::Ident(Ident {
                                                name: "b".to_string(),
                                                span: Span::default(),
                                            })],
                                        }),
                                        secondaries: Some(vec![SecondaryExpr::Dot(
                                            IdentOrNumber::Ident(Ident {
                                                name: "lol".to_string(),
                                                span: Span::default(),
                                            })
                                        )]),
                                        type_annotation: None,
                                    })
                                ))),
                                secondaries: None,
                                type_annotation: None,
                            })),
                        },
                    ]),
                    SecondaryExpr::Dot(IdentOrNumber::Ident(Ident {
                        name: "toto".to_string(),
                        span: Span::default(),
                    })),
                ]),
                type_annotation: None,
            })),
        );
        assert_eq!(rest.len(), 0);
    }

#[test]
    fn multiline_fn_call() {
        let input = r#"foo
  bar
  baz
  2 + 2"#;
        let tokens = lex_test(input).unwrap();
        let (expression, rest) =
            Expression::parse(&tokens, &mut ParseCtx::new(&Config::default())).unwrap();

        assert_eq!(
            expression,
            Expression::UnaryExpr(UnaryExpr::PrimaryExpr(PrimaryExpr {
                operand: Operand::Ident(IdentifierPath {
                    path: vec![IdentOrType::Ident(Ident {
                        name: "foo".to_string(),
                        span: Span::default(),
                    })],
                }),
                secondaries: Some(vec![SecondaryExpr::Arguments(vec![
                    Argument {
                        arg: Expression::UnaryExpr(UnaryExpr::PrimaryExpr(PrimaryExpr {
                            operand: Operand::Ident(IdentifierPath {
                                path: vec![IdentOrType::Ident(Ident {
                                    name: "bar".to_string(),
                                    span: Span::default(),
                                })],
                            }),
                            secondaries: None,
                            type_annotation: None,
                        })),
                    },
                    Argument {
                        arg: Expression::UnaryExpr(UnaryExpr::PrimaryExpr(PrimaryExpr {
                            operand: Operand::Ident(IdentifierPath {
                                path: vec![IdentOrType::Ident(Ident {
                                    name: "baz".to_string(),
                                    span: Span::default(),
                                })],
                            }),
                            secondaries: None,
                            type_annotation: None,
                        })),
                    },
                    Argument {
                        arg: Expression::BinopExpr(
                            UnaryExpr::PrimaryExpr(PrimaryExpr {
                                operand: Operand::Literal(Literal {
                                    kind: LiteralKind::Number(2),
                                    span: Span::default(),
                                }),
                                secondaries: None,
                                type_annotation: None,
                            }),
                            Operator {
                                value: "+".to_string(),
                                span: Span::default(),
                            },
                            Box::new(Expression::UnaryExpr(UnaryExpr::PrimaryExpr(PrimaryExpr {
                                operand: Operand::Literal(Literal {
                                    kind: LiteralKind::Number(2),
                                    span: Span::default(),
                                }),
                                secondaries: None,
                                type_annotation: None,
                            })))
                        ),
                    },
                ])]),
                type_annotation: None,
            })),
        );
        assert_eq!(rest.len(), 0);
    }

#[test]
    fn self_ident() {
        let input = "@foo";
        let tokens = lex_test(input).unwrap();
        let (expression, rest) =
            Expression::parse(&tokens, &mut ParseCtx::new(&Config::default())).unwrap();

        assert_eq!(
            expression,
            Expression::UnaryExpr(UnaryExpr::PrimaryExpr(PrimaryExpr {
                operand: Operand::SelfIdent(Ident {
                    name: "foo".to_string(),
                    span: Span::default(),
                }),
                secondaries: None,
                type_annotation: None,
            })),
        );
        assert_eq!(rest.len(), 0);
    }

#[test]
    fn empty_self_ident() {
        let input = "@";
        let tokens = lex_test(input).unwrap();
        let (expression, rest) =
            Expression::parse(&tokens, &mut ParseCtx::new(&Config::default())).unwrap();

        assert_eq!(
            expression,
            Expression::UnaryExpr(UnaryExpr::PrimaryExpr(PrimaryExpr {
                operand: Operand::SelfIdent(Ident {
                    name: "".to_string(),
                    span: Span::default(),
                }),
                secondaries: None,
                type_annotation: None,
            })),
        );
        assert_eq!(rest.len(), 0);
    }

#[test]
    fn double_dot() {
        let input = "foo bar ..baz";
        let tokens = lex_test(input).unwrap();
        let (expression, rest) =
            Expression::parse(&tokens, &mut ParseCtx::new(&Config::default())).unwrap();

        assert_eq!(
            expression,
            Expression::UnaryExpr(UnaryExpr::PrimaryExpr(PrimaryExpr {
                operand: Operand::Ident(IdentifierPath {
                    path: vec![IdentOrType::Ident(Ident {
                        name: "foo".to_string(),
                        span: Span::default(),
                    })],
                }),
                secondaries: Some(vec![
                    SecondaryExpr::Arguments(vec![Argument {
                        arg: Expression::UnaryExpr(UnaryExpr::PrimaryExpr(PrimaryExpr {
                            operand: Operand::Ident(IdentifierPath {
                                path: vec![IdentOrType::Ident(Ident {
                                    name: "bar".to_string(),
                                    span: Span::default(),
                                })],
                            }),
                            secondaries: None,
                            type_annotation: None,
                        }))
                    }]),
                    SecondaryExpr::DoubleDot(Ident {
                        name: "baz".to_string(),
                        span: Span::default(),
                    }),
                ]),
                type_annotation: None,
            })),
        );
        assert_eq!(rest.len(), 0);
    }

#[test]
    fn double_dot_multiline() {
        let input = r#"foo bar
  ..baz
  ..foofoo"#;
        let tokens = lex_test(input).unwrap();
        let (expression, rest) =
            Expression::parse(&tokens, &mut ParseCtx::new(&Config::default())).unwrap();

        assert_eq!(
            expression,
            Expression::UnaryExpr(UnaryExpr::PrimaryExpr(PrimaryExpr {
                operand: Operand::Ident(IdentifierPath {
                    path: vec![IdentOrType::Ident(Ident {
                        name: "foo".to_string(),
                        span: Span::default(),
                    })],
                }),
                secondaries: Some(vec![
                    SecondaryExpr::Arguments(vec![Argument {
                        arg: Expression::UnaryExpr(UnaryExpr::PrimaryExpr(PrimaryExpr {
                            operand: Operand::Ident(IdentifierPath {
                                path: vec![IdentOrType::Ident(Ident {
                                    name: "bar".to_string(),
                                    span: Span::default(),
                                })],
                            }),
                            secondaries: None,
                            type_annotation: None,
                        }))
                    }]),
                    SecondaryExpr::DoubleDot(Ident {
                        name: "baz".to_string(),
                        span: Span::default(),
                    }),
                    SecondaryExpr::DoubleDot(Ident {
                        name: "foofoo".to_string(),
                        span: Span::default(),
                    }),
                ]),
                type_annotation: None,
            })),
        );
        assert_eq!(rest.len(), 0);
    }

#[test]
    fn interogation() {
        let input = "foo? bar, baz?";
        let tokens = lex_test(input).unwrap();
        let (expression, rest) =
            Expression::parse(&tokens, &mut ParseCtx::new(&Config::default())).unwrap();

        assert_eq!(
            expression,
            Expression::UnaryExpr(UnaryExpr::PrimaryExpr(PrimaryExpr {
                operand: Operand::Ident(IdentifierPath {
                    path: vec![IdentOrType::Ident(Ident {
                        name: "foo".to_string(),
                        span: Span::default(),
                    })],
                }),
                secondaries: Some(vec![
                    SecondaryExpr::Interogation,
                    SecondaryExpr::Arguments(vec![
                        Argument {
                            arg: Expression::UnaryExpr(UnaryExpr::PrimaryExpr(PrimaryExpr {
                                operand: Operand::Ident(IdentifierPath {
                                    path: vec![IdentOrType::Ident(Ident {
                                        name: "bar".to_string(),
                                        span: Span::default(),
                                    })],
                                }),
                                secondaries: None,
                                type_annotation: None,
                            }))
                        },
                        Argument {
                            arg: Expression::UnaryExpr(UnaryExpr::PrimaryExpr(PrimaryExpr {
                                operand: Operand::Ident(IdentifierPath {
                                    path: vec![IdentOrType::Ident(Ident {
                                        name: "baz".to_string(),
                                        span: Span::default(),
                                    })],
                                }),
                                secondaries: Some(vec![SecondaryExpr::Interogation]),
                                type_annotation: None,
                            }))
                        }
                    ]),
                ]),

                type_annotation: None,
            })),
        );
        assert_eq!(rest.len(), 0);
    }


#[test]
fn call_arguments_are_all_kept_in_order() {
    let tokens = lex_test("1, 2, 3").unwrap();
    let (secondary, _rest) =
        SecondaryExpr::parse(&tokens, &mut ParseCtx::new(&Config::default())).unwrap();
    match secondary {
        SecondaryExpr::Arguments(args) => {
            assert_eq!(args.len(), 3);
            let values: Vec<LiteralKind> = args
                .into_iter()
                .map(|a| match a.arg {
                    Expression::UnaryExpr(UnaryExpr::PrimaryExpr(PrimaryExpr {
                        operand: Operand::Literal(l),
                        ..
                    })) => l.kind,
                    _ => panic!("not a literal"),
                })
                .collect();
            assert_eq!(
                values,
                vec![LiteralKind::Number(1), LiteralKind::Number(2), LiteralKind::Number(3)]
            );
        }
        _ => panic!("not arguments"),
    }
}
