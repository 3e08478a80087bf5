use rock::ast::{
    Expression, FunctionDecl, Ident, LiteralKind, MacroFragment, Operand, Program, SecondaryExpr,
    Statement,
    TopLevelKind, UnaryExpr,
};
use rock::lexer::{Lexer, LexerError, Span, Token, TokenType};
use rock::macro_expansion::expand::expand_macros;
use rock::macro_expansion::correspondance::Correspondance;
use rock::macro_expansion::matcher::MacroArgMatcher;
use rock::parser::items::fn_decl::expand_shorthand_suffix_argument;
use rock::parser::parsable::Parsable;
use rock::parser::util::{lex_test, parse_vec_of};
use rock::parser::{parse_string, ParseCtx};
use rock::Config;

fn token(token_type: TokenType) -> Token {
    Token { token_type, span: Span::default() }
}

fn ident(name: &str) -> Token {
    token(TokenType::Ident(name.to_string()))
}

fn expression_of(input: &str) -> Expression {
    let tokens = lex_test(input).unwrap();
    let (expression, rest) =
        Expression::parse(&tokens, &mut ParseCtx::new(&Config::default())).unwrap();
    assert!(rest.is_empty());
    expression
}

fn function_names(program: &Program) -> Vec<String> {
    program
        .module
        .top_levels
        .iter()
        .filter_map(|t| match &t.kind {
            TopLevelKind::FunctionDecl(f) => Some(f.name.name.clone()),
            _ => None,
        })
        .collect()
}

#[test]
fn unknown_character_fails_and_fails_again() {
    let mut lexer = Lexer::new(String::new(), "a `").unwrap();
    assert_eq!(lexer.next().unwrap().token_type, TokenType::Indent(0));
    assert_eq!(lexer.next().unwrap().token_type, TokenType::Ident("a".to_string()));
    for _ in 0..2 {
        match lexer.next() {
            Err(LexerError::UnknownToken(c, span)) => {
                assert_eq!(c, '`');
                assert_eq!(span.start, 2);
                assert_eq!(span.end, 3);
            }
            other => panic!("expected an unknown token, got {:?}", other),
        }
    }
}

#[test]
fn list_keeps_trailing_delimiter_and_gives_no_error() {
    let tokens = vec![ident("a"), token(TokenType::Coma), ident("b"), token(TokenType::Coma)];
    let mut ctx = ParseCtx::new(&Config::default());
    let (items, rest, diags) = parse_vec_of::<Ident>(&tokens, Some(TokenType::Coma), &mut ctx).unwrap();
    let names: Vec<String> = items.iter().map(|i| i.name.clone()).collect();
    assert_eq!(names, vec!["a".to_string(), "b".to_string()]);
    assert_eq!(rest.len(), 1);
    assert_eq!(rest[0].token_type, TokenType::Coma);
    assert!(diags.errors.is_empty());
}

#[test]
fn list_ends_with_the_error_of_the_item_that_failed() {
    let tokens = vec![ident("a"), token(TokenType::Coma), token(TokenType::Number("1".to_string()))];
    let mut ctx = ParseCtx::new(&Config::default());
    let (items, rest, diags) = parse_vec_of::<Ident>(&tokens, Some(TokenType::Coma), &mut ctx).unwrap();
    assert_eq!(items.len(), 1);
    assert_eq!(items[0].name, "a");
    assert_eq!(rest.len(), 2);
    assert_eq!(rest[0].token_type, TokenType::Coma);
    let expected = Ident::parse(&tokens[2..], &mut ParseCtx::new(&Config::default())).unwrap_err();
    assert_eq!(format!("{:?}", diags), format!("{:?}", expected));
    assert!(!diags.errors.is_empty());
}

#[test]
fn list_failing_at_once_gives_the_first_error() {
    let tokens = vec![token(TokenType::Number("1".to_string())), token(TokenType::Coma)];
    let mut ctx = ParseCtx::new(&Config::default());
    let (items, rest, diags) = parse_vec_of::<Ident>(&tokens, Some(TokenType::Coma), &mut ctx).unwrap();
    assert!(items.is_empty());
    assert_eq!(rest.len(), 2);
    let expected = Ident::parse(&tokens, &mut ParseCtx::new(&Config::default())).unwrap_err();
    assert_eq!(format!("{:?}", diags), format!("{:?}", expected));
}

#[test]
fn call_arguments_stay_in_order() {
    let call = expression_of("f 3, 1, 2");
    let secondaries = match call {
        Expression::UnaryExpr(UnaryExpr::PrimaryExpr(p)) => p.secondaries.unwrap(),
        other => panic!("expected a call, got {:?}", other),
    };
    assert_eq!(secondaries.len(), 1);
    let args = match &secondaries[0] {
        SecondaryExpr::Arguments(args) => args,
        other => panic!("expected arguments, got {:?}", other),
    };
    let values: Vec<u64> = args
        .iter()
        .map(|a| match &a.arg {
            Expression::UnaryExpr(UnaryExpr::PrimaryExpr(p)) => match &p.operand {
                Operand::Literal(l) => match l.kind {
                    LiteralKind::Number(n) => n,
                    _ => panic!("expected a number"),
                },
                _ => panic!("expected a literal"),
            },
            _ => panic!("expected a lone operand"),
        })
        .collect();
    assert_eq!(values, vec![3, 1, 2]);
}

#[test]
fn suffix_shorthand_puts_the_parameter_on_the_right() {
    let tokens = vec![ident("a"), token(TokenType::Operator("/".to_string())), token(TokenType::CloseParen)];
    let mut ctx = ParseCtx::new(&Config::default());
    let (lambda, rest) = expand_shorthand_suffix_argument(&tokens, &mut ctx).unwrap();
    assert!(rest.is_empty());
    assert_eq!(lambda.parameters.len(), 1);
    assert_eq!(lambda.body.statements.len(), 1);
    assert_eq!(lambda.body.statements[0], Statement::Expression(expression_of("a / x")));
    assert_ne!(lambda.body.statements[0], Statement::Expression(expression_of("x / a")));
}

#[test]
fn shorthands_in_declarations_expand_both_ways() {
    let tokens = lex_test("myfn = (+2)\n").unwrap();
    let (prefix, _) = FunctionDecl::parse(&tokens, &mut ParseCtx::new(&Config::default())).unwrap();
    assert_eq!(prefix.lambda.body.statements[0], Statement::Expression(expression_of("x + 2")));
    let tokens = lex_test("myfn = (a/)\n").unwrap();
    let (suffix, _) = FunctionDecl::parse(&tokens, &mut ParseCtx::new(&Config::default())).unwrap();
    assert_eq!(suffix.lambda.body.statements[0], Statement::Expression(expression_of("a / x")));
}

#[test]
fn expansion_keeps_other_top_levels_in_order() {
    let input = "main = -> 1\nmacro gen\n  $name:ident =>\n    $name = -> 1\n\n%gen hello\ntest = -> 2\n";
    let program = parse_string::<Program>(input).unwrap();
    let expanded = expand_macros(program).unwrap();
    assert!(!expanded.has_macro_invoc());
    assert_eq!(
        function_names(&expanded),
        vec!["main".to_string(), "hello".to_string(), "test".to_string()]
    );
}

#[test]
fn invocation_matching_no_pattern_is_an_error() {
    let input = "macro gen\n  $name:ident =>\n    $name = -> 1\n\n%gen 1\n";
    let program = parse_string::<Program>(input).unwrap();
    assert!(program.has_macro_invoc());
    assert!(expand_macros(program).is_err());
}

#[test]
fn repetition_gathers_each_repeated_binding_in_order() {
    let ta = ident("a");
    let tb = ident("b");
    let args = vec![ta.clone(), tb.clone()];
    let x = Ident { name: "x".to_string(), span: Span::default() };
    let pattern = vec![MacroFragment::Repetition(vec![MacroFragment::Ident(x)])];
    let mut matcher = MacroArgMatcher::new(&args, &pattern);
    let c = matcher.run().unwrap();
    assert!(c.entries.is_empty());
    assert_eq!(c.nested_corresp.len(), 1);
    assert_eq!(c.nested_corresp[0].entries.len(), 1);
    assert_eq!(c.nested_corresp[0].entries[0].0, "x");
    assert_eq!(c.nested_corresp[0].entries[0].1, vec![ta, tb]);
    assert_eq!(c.keys(), vec!["x".to_string()]);
}

#[test]
fn merging_combines_repetitions_that_bind_the_same_names() {
    let mut n1 = Correspondance::new();
    n1.insert_direct("x".to_string(), ident("a"));
    let mut c1 = Correspondance::new();
    c1.insert_nested(n1);

    let mut n2 = Correspondance::new();
    n2.insert_direct("x".to_string(), ident("b"));
    let mut n3 = Correspondance::new();
    n3.insert_direct("y".to_string(), ident("c"));
    let mut c2 = Correspondance::new();
    c2.insert_nested(n2);
    c2.insert_nested(n3);

    c1.merge(&c2);
    assert!(c1.entries.is_empty());
    assert_eq!(c1.nested_corresp.len(), 2);
    assert_eq!(c1.nested_corresp_keys, vec![vec!["x".to_string()], vec!["y".to_string()]]);
    assert_eq!(c1.nested_corresp[0].entries[0].1, vec![ident("a"), ident("b")]);
    assert_eq!(c1.nested_corresp[1].entries[0].1, vec![ident("c")]);
}

#[test]
fn inserting_a_repetition_twice_gathers_its_tokens() {
    let mut c = Correspondance::new();
    let mut first = Correspondance::new();
    first.insert_direct("x".to_string(), ident("a"));
    c.insert_nested(first);
    let mut second = Correspondance::new();
    second.insert_direct("x".to_string(), ident("b"));
    c.insert_nested(second);
    assert_eq!(c.nested_corresp.len(), 1);
    assert_eq!(c.nested_corresp[0].entries[0].1, vec![ident("a"), ident("b")]);
}

#[test]
fn a_file_is_recorded_once() {
    let mut ctx = ParseCtx::new(&Config::default());
    ctx.add_file_relative("./src/main.rk".to_string());
    ctx.add_file_relative("x".to_string());
    assert_eq!(ctx.current_file, Some("./src/x.rk".to_string()));
    assert_eq!(ctx.files_map.len(), 2);
    ctx.add_file_relative("x".to_string());
    assert_eq!(ctx.current_file, Some("./src/x.rk".to_string()));
    assert_eq!(ctx.files_map, vec!["./src/main.rk".to_string(), "./src/x.rk".to_string()]);
}

#[test]
fn one_line_conditional_keeps_its_parts() {
    let tokens = lex_test("if a then b + 1").unwrap();
    let (operand, rest) = Operand::parse(&tokens, &mut ParseCtx::new(&Config::default())).unwrap();
    assert!(rest.is_empty());
    match operand {
        Operand::If(i) => {
            assert_eq!(i.condition, expression_of("a"));
            assert_eq!(i.then.statements.len(), 1);
            assert_eq!(i.then.statements[0], Statement::Expression(expression_of("b + 1")));
            assert!(i.else_.is_none());
        }
        other => panic!("expected a conditional, got {:?}", other),
    }
}

#[test]
fn pair_of_literals_is_a_tuple_in_order() {
    let tokens = lex_test("(2, 1)").unwrap();
    let (operand, rest) = Operand::parse(&tokens, &mut ParseCtx::new(&Config::default())).unwrap();
    assert!(rest.is_empty());
    match operand {
        Operand::Tuple(t) => {
            assert_eq!(t.elements, vec![expression_of("2"), expression_of("1")]);
        }
        other => panic!("expected a tuple, got {:?}", other),
    }
}

#[test]
fn index_and_single_argument_are_the_operands_written() {
    let call = expression_of("f a");
    let expected_arg = expression_of("a");
    match call {
        Expression::UnaryExpr(UnaryExpr::PrimaryExpr(p)) => match &p.secondaries.as_ref().unwrap()[0] {
            SecondaryExpr::Arguments(args) => {
                assert_eq!(args.len(), 1);
                assert_eq!(args[0].arg, expected_arg);
            }
            other => panic!("expected arguments, got {:?}", other),
        },
        other => panic!("expected a call, got {:?}", other),
    }
    let indexed = expression_of("f[b]");
    let expected_index = expression_of("b");
    match indexed {
        Expression::UnaryExpr(UnaryExpr::PrimaryExpr(p)) => match &p.secondaries.as_ref().unwrap()[0] {
            SecondaryExpr::Indice(e) => assert_eq!(**e, expected_index),
            other => panic!("expected an index, got {:?}", other),
        },
        other => panic!("expected an indexing, got {:?}", other),
    }
}

#[test]
fn repetition_binds_only_its_variable() {
    let args = vec![ident("a"), ident("b"), ident("c")];
    let x = Ident { name: "x".to_string(), span: Span::default() };
    let pattern = vec![MacroFragment::Repetition(vec![MacroFragment::Ident(x)])];
    let mut matcher = MacroArgMatcher::new(&args, &pattern);
    let c = matcher.run().unwrap();
    assert_eq!(c.keys(), vec!["x".to_string()]);
    assert!(c.nested_corresp[0].nested_corresp.is_empty());
    assert_eq!(c.nested_corresp[0].entries.len(), 1);
    assert_eq!(c.nested_corresp[0].entries[0].1, args);
}

#[test]
fn empty_last_line_only_changes_the_end() {
    let plain: Vec<TokenType> = Lexer::new(String::new(), "a")
        .unwrap()
        .with_newline_at_end(false)
        .collect()
        .unwrap()
        .into_iter()
        .map(|t| t.token_type)
        .collect();
    let added: Vec<TokenType> = Lexer::new(String::new(), "a")
        .unwrap()
        .with_newline_at_end(true)
        .collect()
        .unwrap()
        .into_iter()
        .map(|t| t.token_type)
        .collect();
    assert_eq!(plain, vec![TokenType::Indent(0), TokenType::Ident("a".to_string()), TokenType::Eof]);
    assert_eq!(
        added,
        vec![
            TokenType::Indent(0),
            TokenType::Ident("a".to_string()),
            TokenType::Eol,
            TokenType::Indent(0),
            TokenType::Eol,
            TokenType::Eof
        ]
    );
}

#[test]
fn unexpected_token_message_names_the_token_and_the_expected_ones() {
    let err = rock::parser::ParseError::UnexpectedToken(
        ident("a\"b"),
        vec![TokenType::Coma, TokenType::Indent(12)],
    );
    let d = rock::diagnostic::Diagnostic::from_parse_error(err);
    assert_eq!(d.message, "Unexpected token: Ident(\"a\\\"b\")");
    assert_eq!(d.labels[0].0, "Expected one of [Coma, Indent(12)]");
}

#[test]
fn merging_combines_repetitions_by_names_and_appends_new_ones_in_order() {
    let mut x_rep = Correspondance::new();
    x_rep.insert_direct("x".to_string(), ident("a"));
    let mut c = Correspondance::new();
    c.insert_nested(x_rep);

    let mut other_x = Correspondance::new();
    other_x.insert_direct("x".to_string(), ident("b"));
    let mut other_y = Correspondance::new();
    other_y.insert_direct("y".to_string(), ident("c"));
    let mut other_z = Correspondance::new();
    other_z.insert_direct("z".to_string(), ident("d"));
    let mut other = Correspondance::new();
    other.insert_nested(other_y);
    other.insert_nested(other_x);
    other.insert_nested(other_z);

    c.merge(&other);
    assert_eq!(c.nested_corresp.len(), 3);
    assert_eq!(c.nested_corresp_keys, vec![
        vec!["x".to_string()],
        vec!["y".to_string()],
        vec!["z".to_string()],
    ]);
    let entry = |k: usize| {
        let e = &c.nested_corresp[k].entries;
        assert_eq!(e.len(), 1);
        let types: Vec<TokenType> = e[0].1.iter().map(|t| t.token_type.clone()).collect();
        (e[0].0.clone(), types)
    };
    let id = |s: &str| TokenType::Ident(s.to_string());
    assert_eq!(entry(0), ("x".to_string(), vec![id("a"), id("b")]));
    assert_eq!(entry(1), ("y".to_string(), vec![id("c")]));
    assert_eq!(entry(2), ("z".to_string(), vec![id("d")]));
}
