use rock::ast::{
    Argument, Array, ArrayPattern, Assignment, AssignmentLHS, Block, Else, Expression,
    FieldPattern, FieldsPatternOrArgumentsPattern, FunctionDecl, Ident, IdentOrNumber,
    IdentOrType, IdentifierPath, If, InstancePattern, LambdaDecl, Literal, LiteralKind, Loop,
    Match, MatchArm, Operand, Operator, ParseType, ParseTypeInner, Pattern, PatternKind,
    PrimaryExpr, SecondaryExpr, Statement, Tuple, UnaryExpr,
};
use rock::lexer::Span;
use rock::parser::util::lex_test;
use rock::parser::ParseCtx;
use rock::Config;
#[test]
    fn block_test_parse_block() {
        let input = "statement";
        let tokens = lex_test(input).unwrap();
        let (block, rest) = Block::parse(&tokens, &mut ParseCtx::new(&Config::default())).unwrap();

        assert_eq!(block.statements.len(), 1);
        assert_eq!(rest.len(), 0);
    }

#[test]
    fn block_test_parse_block_with_indent() {
        let input = "\n  statement\n  statement";
        let tokens = lex_test(input).unwrap();
        let (block, rest) = Block::parse(&tokens, &mut ParseCtx::new(&Config::default())).unwrap();

        assert_eq!(block.statements.len(), 2);
        assert_eq!(rest.len(), 0);
    }

#[test]
    fn statement_test_parse_statement() {
        let input = "1";
        let tokens = lex_test(input).unwrap();
        let (statement, rest) =
            Statement::parse(&tokens, &mut ParseCtx::new(&Config::default())).unwrap();

        assert_eq!(
            statement,
            Statement::Expression(Expression::UnaryExpr(UnaryExpr::PrimaryExpr(PrimaryExpr {
                operand: Operand::Literal(Literal {
                    kind: LiteralKind::Number(1),
                    span: Span::default(),
                }),
                secondaries: None,
                type_annotation: None,
            })))
        );

        assert_eq!(rest.len(), 0);
    }

#[test]
    fn statement_test_parse_assignment() {
        let input = "a = 1";
        let tokens = lex_test(input).unwrap();
        let (statement, rest) =
            Statement::parse(&tokens, &mut ParseCtx::new(&Config::default())).unwrap();

        assert_eq!(
            statement,
            Statement::Assignment(Assignment {
                lhs: AssignmentLHS::Pattern(Pattern {
                    binding: None,
                    kind: PatternKind::Ident(Ident {
                        name: "a".to_string(),
                        span: Span::default(),
                    })
                }),
                rhs: Expression::UnaryExpr(UnaryExpr::PrimaryExpr(PrimaryExpr {
                    operand: Operand::Literal(Literal {
                        kind: LiteralKind::Number(1),
                        span: Span::default(),
                    }),
                    secondaries: None,
                    type_annotation: None,
                })),
            })
        );

        assert_eq!(rest.len(), 0);
    }

#[test]
    fn statement_test_parse_assignment_complex() {
        let input = "a.b[2].c = 1";
        let tokens = lex_test(input).unwrap();
        let (statement, rest) =
            Statement::parse(&tokens, &mut ParseCtx::new(&Config::default())).unwrap();

        assert_eq!(
            statement,
            Statement::Assignment(Assignment {
                lhs: AssignmentLHS::Expression(UnaryExpr::PrimaryExpr(PrimaryExpr {
                    operand: Operand::Ident(IdentifierPath {
                        path: vec![IdentOrType::Ident(Ident {
                            name: "a".to_string(),
                            span: Span::default(),
                        })],
                    }),
                    secondaries: Some(vec![
                        SecondaryExpr::Dot(IdentOrNumber::Ident(Ident {
                            name: "b".to_string(),
                            span: Span::default(),
                        })),
                        SecondaryExpr::Indice(Box::new(Expression::UnaryExpr(
                            UnaryExpr::PrimaryExpr(PrimaryExpr {
                                operand: Operand::Literal(Literal {
                                    kind: LiteralKind::Number(2),
                                    span: Span::default(),
                                }),
                                secondaries: None,
                                type_annotation: None,
                            })
                        )),),
                        SecondaryExpr::Dot(IdentOrNumber::Ident(Ident {
                            name: "c".to_string(),
                            span: Span::default(),
                        })),
                    ]),
                    type_annotation: None,
                })),
                rhs: Expression::UnaryExpr(UnaryExpr::PrimaryExpr(PrimaryExpr {
                    operand: Operand::Literal(Literal {
                        kind: LiteralKind::Number(1),
                        span: Span::default(),
                    }),
                    secondaries: None,
                    type_annotation: None,
                })),
            })
        );

        assert_eq!(rest.len(), 0);
    }

#[test]
    fn statement_test_parse_return() {
        let input = "return 1";
        let tokens = lex_test(input).unwrap();
        let (statement, rest) =
            Statement::parse(&tokens, &mut ParseCtx::new(&Config::default())).unwrap();

        assert_eq!(
            statement,
            Statement::Return(Some(Expression::UnaryExpr(UnaryExpr::PrimaryExpr(
                PrimaryExpr {
                    operand: Operand::Literal(Literal {
                        kind: LiteralKind::Number(1),
                        span: Span::default(),
                    }),
                    secondaries: None,
                    type_annotation: None,
                }
            ))))
        );

        assert_eq!(rest.len(), 0);
    }

#[test]
    fn statement_test_parse_continue() {
        let input = "continue 1";
        let tokens = lex_test(input).unwrap();
        let (statement, rest) =
            Statement::parse(&tokens, &mut ParseCtx::new(&Config::default())).unwrap();

        assert_eq!(
            statement,
            Statement::Continue(Some(Expression::UnaryExpr(UnaryExpr::PrimaryExpr(
                PrimaryExpr {
                    operand: Operand::Literal(Literal {
                        kind: LiteralKind::Number(1),
                        span: Span::default(),
                    }),
                    secondaries: None,
                    type_annotation: None,
                }
            ))))
        );

        assert_eq!(rest.len(), 0);
    }

#[test]
    fn statement_test_parse_break() {
        let input = "break 1";
        let tokens = lex_test(input).unwrap();
        let (statement, rest) =
            Statement::parse(&tokens, &mut ParseCtx::new(&Config::default())).unwrap();

        assert_eq!(
            statement,
            Statement::Break(Some(Expression::UnaryExpr(UnaryExpr::PrimaryExpr(
                PrimaryExpr {
                    operand: Operand::Literal(Literal {
                        kind: LiteralKind::Number(1),
                        span: Span::default(),
                    }),
                    secondaries: None,
                    type_annotation: None,
                }
            ))))
        );

        assert_eq!(rest.len(), 0);
    }

#[test]
    fn fn_decl_test_parse_function_decl_monoline() {
        let input = "myfn = -> statement\n";
        let tokens = lex_test(input).unwrap();
        let (function_decl, rest) =
            FunctionDecl::parse(&tokens, &mut ParseCtx::new(&Config::default())).unwrap();

        assert_eq!(function_decl.name.name, "myfn");
        assert_eq!(function_decl.lambda.parameters.len(), 0);
        assert_eq!(function_decl.lambda.body.statements.len(), 1);
        assert_eq!(rest.len(), 0);
    }

#[test]
    fn fn_decl_test_parse_function_decl() {
        let input = "myfn = a, b, c ->\n  statement\n";
        let tokens = lex_test(input).unwrap();
        let (function_decl, rest) =
            FunctionDecl::parse(&tokens, &mut ParseCtx::new(&Config::default())).unwrap();

        assert_eq!(function_decl.name.name, "myfn");
        assert_eq!(function_decl.lambda.parameters.len(), 3);
        assert_eq!(function_decl.lambda.body.statements.len(), 1);
        assert_eq!(rest.len(), 0);
    }

#[test]
    fn fn_decl_test_parse_function_decl_multiline() {
        let input = r#"myfn = a, b, c ->
  statement
  3 + 3
"#;
        let tokens = lex_test(input).unwrap();
        let (function_decl, rest) =
            FunctionDecl::parse(&tokens, &mut ParseCtx::new(&Config::default())).unwrap();

        assert_eq!(function_decl.name.name, "myfn");
        assert_eq!(function_decl.lambda.parameters.len(), 3);
        assert_eq!(function_decl.lambda.body.statements.len(), 2);
        assert_eq!(rest.len(), 0);
    }

#[test]
    fn test_parse_function_shorthand() {
        let input = "myfn = (+2)\n";
        let tokens = lex_test(input).unwrap();
        let (function_decl, rest) =
            FunctionDecl::parse(&tokens, &mut ParseCtx::new(&Config::default())).unwrap();

        assert_eq!(function_decl.name.name, "myfn");
        assert_eq!(function_decl.lambda.parameters.len(), 1);
        assert_eq!(function_decl.lambda.body.statements.len(), 1);
        assert_eq!(rest.len(), 0);
    }

#[test]
    fn test_parse_function_shorthand_2() {
        let input = "myfn = (a/)\n";
        let tokens = lex_test(input).unwrap();
        let (function_decl, rest) =
            FunctionDecl::parse(&tokens, &mut ParseCtx::new(&Config::default())).unwrap();

        assert_eq!(function_decl.name.name, "myfn");
        assert_eq!(function_decl.lambda.parameters.len(), 1);
        assert_eq!(function_decl.lambda.body.statements.len(), 1);
        assert_eq!(rest.len(), 0);
    }

#[test]
    fn test_parse_operator_function() {
        let input = "|> = a -> a\n";
        let tokens = lex_test(input).unwrap();
        let (function_decl, rest) =
            FunctionDecl::parse(&tokens, &mut ParseCtx::new(&Config::default())).unwrap();

        assert_eq!(function_decl.name.name, "|>");
        assert_eq!(function_decl.lambda.parameters.len(), 1);
        assert_eq!(function_decl.lambda.body.statements.len(), 1);
        assert_eq!(rest.len(), 0);
    }

#[test]
    fn parse_for() {
        let input = "for x in y\n  2";
        let tokens = lex_test(input).unwrap();
        let (loop_, remaining) =
            Loop::parse(&tokens, &mut ParseCtx::new(&Config::default())).unwrap();

        assert_eq!(
            loop_,
            Loop::For(
                Ident {
                    name: "x".to_string(),
                    span: tokens[1].span.clone()
                },
                Expression::UnaryExpr(UnaryExpr::PrimaryExpr(PrimaryExpr {
                    operand: Operand::Ident(IdentifierPath {
                        path: vec![IdentOrType::Ident(Ident {
                            name: "y".to_string(),
                            span: tokens[3].span.clone()
                        })]
                    }),
                    secondaries: None,
                    type_annotation: None,
                })),
                Block {
                    statements: vec![Statement::Expression(Expression::UnaryExpr(
                        UnaryExpr::PrimaryExpr(PrimaryExpr {
                            operand: Operand::Literal(Literal {
                                kind: LiteralKind::Number(2),
                                span: tokens[5].span.clone()
                            }),
                            secondaries: None,
                            type_annotation: None,
                        })
                    ))],
                }
            )
        );
        assert_eq!(remaining.len(), 0);
    }

#[test]
    fn parse_while() {
        let input = "while x\n  2";
        let tokens = lex_test(input).unwrap();
        let (loop_, remaining) =
            Loop::parse(&tokens, &mut ParseCtx::new(&Config::default())).unwrap();

        assert_eq!(
            loop_,
            Loop::While(
                Expression::UnaryExpr(UnaryExpr::PrimaryExpr(PrimaryExpr {
                    operand: Operand::Ident(IdentifierPath {
                        path: vec![IdentOrType::Ident(Ident {
                            name: "x".to_string(),
                            span: tokens[1].span.clone()
                        })]
                    }),
                    secondaries: None,
                    type_annotation: None,
                })),
                Block {
                    statements: vec![Statement::Expression(Expression::UnaryExpr(
                        UnaryExpr::PrimaryExpr(PrimaryExpr {
                            operand: Operand::Literal(Literal {
                                kind: LiteralKind::Number(2),
                                span: tokens[3].span.clone()
                            }),
                            secondaries: None,
                            type_annotation: None,
                        })
                    ))],
                }
            )
        );
        assert_eq!(remaining.len(), 0);
    }

#[test]
    fn parse_loop() {
        let input = "loop\n  2";
        let tokens = lex_test(input).unwrap();
        let (loop_, remaining) =
            Loop::parse(&tokens, &mut ParseCtx::new(&Config::default())).unwrap();

        assert_eq!(
            loop_,
            Loop::Loop(Block {
                statements: vec![Statement::Expression(Expression::UnaryExpr(
                    UnaryExpr::PrimaryExpr(PrimaryExpr {
                        operand: Operand::Literal(Literal {
                            kind: LiteralKind::Number(2),
                            span: tokens[2].span.clone()
                        }),
                        secondaries: None,
                        type_annotation: None,
                    })
                ))],
            })
        );
        assert_eq!(remaining.len(), 0);
    }

#[test]
    fn test_parse_match() {
        let input = r#"match a
    a => 2
    (a, b) => a + b"#;
        let tokens = lex_test(input).unwrap();
        let (expression, rest) =
            Match::parse(&tokens, &mut ParseCtx::new(&Config::default())).unwrap();

        assert_eq!(
            expression,
            Match {
                expr: Expression::UnaryExpr(UnaryExpr::PrimaryExpr(PrimaryExpr {
                    operand: Operand::Ident(IdentifierPath {
                        path: vec![IdentOrType::Ident(Ident {
                            name: "a".to_string(),
                            span: Span::default(),
                        })]
                    }),
                    secondaries: None,
                    type_annotation: None,
                })),
                arms: vec![
                    MatchArm {
                        pattern: Pattern {
                            binding: None,
                            kind: PatternKind::Ident(Ident {
                                name: "a".to_string(),
                                span: Span::default(),
                            })
                        },
                        condition: None,
                        body: Block {
                            statements: vec![Statement::Expression(Expression::UnaryExpr(
                                UnaryExpr::PrimaryExpr(PrimaryExpr {
                                    operand: Operand::Literal(Literal {
                                        kind: LiteralKind::Number(2),
                                        span: Span::default()
                                    }),
                                    secondaries: None,
                                    type_annotation: None,
                                })
                            ))]
                        }
                    },
                    MatchArm {
                        pattern: Pattern {
                            binding: None,
                            kind: PatternKind::Tuple(vec![
                                Pattern {
                                    binding: None,
                                    kind: PatternKind::Ident(Ident {
                                        name: "a".to_string(),
                                        span: Span::default(),
                                    })
                                },
                                Pattern {
                                    binding: None,
                                    kind: PatternKind::Ident(Ident {
                                        name: "b".to_string(),
                                        span: Span::default(),
                                    })
                                }
                            ])
                        },
                        condition: None,
                        body: Block {
                            statements: vec![Statement::Expression(Expression::BinopExpr(
                                UnaryExpr::PrimaryExpr(PrimaryExpr {
                                    operand: Operand::Ident(IdentifierPath {
                                        path: vec![IdentOrType::Ident(Ident {
                                            name: "a".to_string(),
                                            span: Span::default(),
                                        })]
                                    }),
                                    secondaries: None,
                                    type_annotation: None,
                                }),
                                Operator {
                                    value: "+".to_string(),
                                    span: Span::default(),
                                },
                                Box::new(Expression::UnaryExpr(UnaryExpr::PrimaryExpr(
                                    PrimaryExpr {
                                        operand: Operand::Ident(IdentifierPath {
                                            path: vec![IdentOrType::Ident(Ident {
                                                name: "b".to_string(),
                                                span: Span::default(),
                                            })]
                                        }),
                                        secondaries: None,
                                        type_annotation: None,
                                    }
                                )))
                            ))]
                        }
                    }
                ]
            }
        );

        assert_eq!(rest.len(), 0);
    }

#[test]
    fn test_parse_patter_with_binding() {
        let input = "a @ 1";
        let tokens = lex_test(input).unwrap();
        let (pattern, rest) =
            Pattern::parse(&tokens, &mut ParseCtx::new(&Config::default())).unwrap();

        assert_eq!(
            pattern,
            Pattern {
                binding: Some(Ident {
                    name: "a".to_string(),
                    span: Span::default()
                }),
                kind: PatternKind::Literal(Literal {
                    kind: LiteralKind::Number(1),
                    span: Span::default()
                })
            }
        );

        assert_eq!(rest.len(), 0);
    }

#[test]
    fn test_parse_match_with_condition() {
        let input = r#"match a
    (a, b) if a => a"#;
        let tokens = lex_test(input).unwrap();
        let (expression, rest) =
            Match::parse(&tokens, &mut ParseCtx::new(&Config::default())).unwrap();

        assert_eq!(
            expression,
            Match {
                expr: Expression::UnaryExpr(UnaryExpr::PrimaryExpr(PrimaryExpr {
                    operand: Operand::Ident(IdentifierPath {
                        path: vec![IdentOrType::Ident(Ident {
                            name: "a".to_string(),
                            span: Span::default(),
                        })]
                    }),
                    secondaries: None,
                    type_annotation: None,
                })),
                arms: vec![MatchArm {
                    pattern: Pattern {
                        binding: None,
                        kind: PatternKind::Tuple(vec![
                            Pattern {
                                binding: None,
                                kind: PatternKind::Ident(Ident {
                                    name: "a".to_string(),
                                    span: Span::default(),
                                })
                            },
                            Pattern {
                                binding: None,
                                kind: PatternKind::Ident(Ident {
                                    name: "b".to_string(),
                                    span: Span::default(),
                                })
                            }
                        ])
                    },
                    condition: Some(Expression::UnaryExpr(UnaryExpr::PrimaryExpr(PrimaryExpr {
                        operand: Operand::Ident(IdentifierPath {
                            path: vec![IdentOrType::Ident(Ident {
                                name: "a".to_string(),
                                span: Span::default(),
                            })]
                        }),
                        secondaries: None,
                        type_annotation: None,
                    }))),
                    body: Block {
                        statements: vec![Statement::Expression(Expression::UnaryExpr(
                            UnaryExpr::PrimaryExpr(PrimaryExpr {
                                operand: Operand::Ident(IdentifierPath {
                                    path: vec![IdentOrType::Ident(Ident {
                                        name: "a".to_string(),
                                        span: Span::default(),
                                    })]
                                }),
                                secondaries: None,
                                type_annotation: None,
                            })
                        ))]
                    }
                }]
            }
        );

        assert_eq!(rest.len(), 0);
    }

#[test]
    fn instance_pattern_fields_nested() {
        let input = "Player foo: (Ok 1), bar: toto";
        let tokens = lex_test(input).unwrap();
        let (pattern, rest) =
            Pattern::parse(&tokens, &mut ParseCtx::new(&Config::default())).unwrap();

        assert_eq!(
            pattern,
            Pattern {
                binding: None,
                kind: PatternKind::Instance(InstancePattern {
                    name: IdentifierPath {
                        path: vec![IdentOrType::Type(ParseType::Type(ParseTypeInner {
                            name: "Player".to_string(),
                            generics: vec![],
                            span: Span::default(),
                        }))]
                    },
                    args: FieldsPatternOrArgumentsPattern::Fields(vec![
                        FieldPattern {
                            name: Ident {
                                name: "foo".to_string(),
                                span: Span::default(),
                            },
                            pattern: Pattern {
                                binding: None,
                                kind: PatternKind::Nested(Box::new(Pattern {
                                    binding: None,
                                    kind: PatternKind::Instance(InstancePattern {
                                        name: IdentifierPath {
                                            path: vec![IdentOrType::Type(ParseType::Type(
                                                ParseTypeInner {
                                                    name: "Ok".to_string(),
                                                    generics: vec![],
                                                    span: Span::default(),
                                                }
                                            ))]
                                        },
                                        args: FieldsPatternOrArgumentsPattern::Arguments(vec![
                                            Pattern {
                                                binding: None,
                                                kind: PatternKind::Literal(Literal {
                                                    kind: LiteralKind::Number(1),
                                                    span: Span::default(),
                                                })
                                            }
                                        ])
                                    })
                                }))
                            }
                        },
                        FieldPattern {
                            name: Ident {
                                name: "bar".to_string(),
                                span: Span::default(),
                            },
                            pattern: Pattern {
                                binding: None,
                                kind: PatternKind::Ident(Ident {
                                    name: "toto".to_string(),
                                    span: Span::default(),
                                })
                            }
                        }
                    ])
                })
            }
        );

        assert_eq!(rest.len(), 0);
    }

#[test]
    fn instance_pattern_arguments_nested() {
        let input = "Player (Ok 1), toto";
        let tokens = lex_test(input).unwrap();
        let (pattern, rest) =
            Pattern::parse(&tokens, &mut ParseCtx::new(&Config::default())).unwrap();

        assert_eq!(
            pattern,
            Pattern {
                binding: None,
                kind: PatternKind::Instance(InstancePattern {
                    name: IdentifierPath {
                        path: vec![IdentOrType::Type(ParseType::Type(ParseTypeInner {
                            name: "Player".to_string(),
                            generics: vec![],
                            span: Span::default(),
                        }))]
                    },
                    args: FieldsPatternOrArgumentsPattern::Arguments(vec![
                        Pattern {
                            binding: None,
                            kind: PatternKind::Nested(Box::new(Pattern {
                                binding: None,
                                kind: PatternKind::Instance(InstancePattern {
                                    name: IdentifierPath {
                                        path: vec![IdentOrType::Type(ParseType::Type(
                                            ParseTypeInner {
                                                name: "Ok".to_string(),
                                                generics: vec![],
                                                span: Span::default(),
                                            }
                                        ))]
                                    },
                                    args: FieldsPatternOrArgumentsPattern::Arguments(vec![
                                        Pattern {
                                            binding: None,
                                            kind: PatternKind::Literal(Literal {
                                                kind: LiteralKind::Number(1),
                                                span: Span::default(),
                                            })
                                        }
                                    ])
                                })
                            }))
                        },
                        Pattern {
                            binding: None,
                            kind: PatternKind::Ident(Ident {
                                name: "toto".to_string(),
                                span: Span::default(),
                            })
                        }
                    ])
                })
            }
        );

        assert_eq!(rest.len(), 0);
    }

