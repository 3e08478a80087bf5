use rock::ast::{
    EnumDecl, Ident, IdentifierPath, If, Impl, Instance, MacroDecl, MacroEntry, MacroInvoc,
    ParseType, StructDecl, TopLevel, TopLevelKind, TraitDecl,
};
use rock::lexer::{Lexer, Token, TokenType};
use rock::parser::util::lex_test;
use rock::parser::ParseCtx;
use rock::Config;

fn lex_with_eof(input: &str) -> Vec<Token> {
    Lexer::new(String::new(), input)
        .unwrap()
        .with_newline_at_end(false)
        .collect()
        .unwrap()
}

#[test]
fn ident_test_parse_ident() {
    let input = "ident";
    let tokens = lex_test(input).unwrap();
    let (ident, rest) = Ident::parse(&tokens, &mut ParseCtx::new(&Config::default())).unwrap();

    assert_eq!(ident.name, "ident");
    assert_eq!(rest.len(), 0);
}

#[test]
fn test_parse_ident() {
    let input = "ident";
    let tokens = lex_with_eof(input);
    let tokens = &tokens[1..]; // skip the Indent
    let (ident, rest) = Ident::parse(tokens, &mut ParseCtx::new(&Config::default())).unwrap();

    assert_eq!(ident.name, "ident");
    assert_eq!(rest.len(), 1);
    assert_eq!(rest[0].token_type, TokenType::Eof);
}

#[test]
fn ident_test_parse_ident_error() {
    let input = "123";
    let tokens = lex_test(input).unwrap();
    let result = Ident::parse(&tokens, &mut ParseCtx::new(&Config::default()));

    assert!(result.is_err());
}

#[test]
fn test_parse_ident_error() {
    let input = "123";
    let tokens = lex_with_eof(input);
    let tokens = &tokens[1..]; // skip the Indent
    let result = Ident::parse(tokens, &mut ParseCtx::new(&Config::default()));

    assert!(result.is_err());
}

#[test]
fn test_ident_path() {
    let input = "ident::ident";
    let tokens = lex_test(input).unwrap();
    let (ident_path, rest) =
        IdentifierPath::parse(&tokens, &mut ParseCtx::new(&Config::default())).unwrap();

    assert_eq!(ident_path.path.len(), 2);
    assert_eq!(rest.len(), 0);
}

#[test]
fn parse_type_test_parse_type() {
    let input = "Type";
    let tokens = lex_test(input).unwrap();
    let (parse_type, rest) =
        ParseType::parse(&tokens, &mut ParseCtx::new(&Config::default())).unwrap();

    assert_eq!(parse_type.to_string(), "Type");
    assert_eq!(rest.len(), 0);
}

#[test]
fn parse_type_test_parse_type_with_generics() {
    let input = "Type Generics";
    let tokens = lex_test(input).unwrap();
    let (parse_type, rest) =
        ParseType::parse(&tokens, &mut ParseCtx::new(&Config::default())).unwrap();

    assert_eq!(parse_type.to_string(), "Type Generics");
    assert_eq!(rest.len(), 0);
}

#[test]
fn test_parse_type_with_generics() {
    let input = "Type Generics";
    let tokens = lex_test(input).unwrap();
    let (parse_type, rest) =
        ParseType::parse(&tokens, &mut ParseCtx::new(&Config::default())).unwrap();

    assert_eq!(rest.len(), 0);
    match parse_type {
        ParseType::Type(inner) => {
            assert_eq!(inner.name, "Type");
            assert_eq!(inner.generics.len(), 1);
            assert_eq!(inner.generics[0].to_string(), "Generics");
        }
        _ => panic!(),
    }
}

#[test]
fn parse_type_test_parse_type_with_multiple_generics() {
    let input = "Type Generics, Generics2";
    let tokens = lex_test(input).unwrap();
    let (parse_type, rest) =
        ParseType::parse(&tokens, &mut ParseCtx::new(&Config::default())).unwrap();

    assert_eq!(parse_type.to_string(), "Type Generics, Generics2");
    assert_eq!(rest.len(), 0);
}

#[test]
fn test_parse_type_with_multiple_generics() {
    let input = "Type Generics, Generics2";
    let tokens = lex_test(input).unwrap();
    let (parse_type, rest) =
        ParseType::parse(&tokens, &mut ParseCtx::new(&Config::default())).unwrap();

    assert_eq!(rest.len(), 0);
    match parse_type {
        ParseType::Type(inner) => {
            assert_eq!(inner.name, "Type");
            assert_eq!(inner.generics.len(), 2);
            assert_eq!(inner.generics[0].to_string(), "Generics");
            assert_eq!(inner.generics[1].to_string(), "Generics2");
        }
        _ => panic!(),
    }
}

#[test]
fn test_parse_type() {
    let input = "Type";
    let tokens = lex_test(input).unwrap();
    let (parse_type, rest) =
        ParseType::parse(&tokens, &mut ParseCtx::new(&Config::default())).unwrap();

    match parse_type {
        ParseType::Type(inner) => assert_eq!(inner.name, "Type"),
        _ => panic!(),
    }
    assert_eq!(rest.len(), 0);
}

#[test]
fn test_parse_fn_type() {
    let input = "A -> B";
    let tokens = lex_test(input).unwrap();
    let (parse_type, rest) =
        ParseType::parse(&tokens, &mut ParseCtx::new(&Config::default())).unwrap();

    assert_eq!(parse_type.to_string(), "A -> B");
    assert_eq!(rest.len(), 0);
}

#[test]
fn test_parse_nested_fn_type() {
    let input = "(A -> B) -> C";
    let tokens = lex_test(input).unwrap();
    let (parse_type, rest) =
        ParseType::parse(&tokens, &mut ParseCtx::new(&Config::default())).unwrap();

    assert_eq!(parse_type.to_string(), "(A -> B) -> C");
    assert_eq!(rest.len(), 0);
}

#[test]
fn test_parse_tuple_type() {
    let input = "(A, B)";
    let tokens = lex_test(input).unwrap();
    let (parse_type, rest) =
        ParseType::parse(&tokens, &mut ParseCtx::new(&Config::default())).unwrap();

    assert_eq!(parse_type.to_string(), "(A, B)");
    assert_eq!(rest.len(), 0);
}

#[test]
fn test_parse_unit_type() {
    let input = "()";
    let tokens = lex_test(input).unwrap();
    let (parse_type, rest) =
        ParseType::parse(&tokens, &mut ParseCtx::new(&Config::default())).unwrap();

    assert_eq!(parse_type.to_string(), "()");
    assert_eq!(rest.len(), 0);
}

#[test]
fn test_parse_array_type() {
    let input = "[A]";
    let tokens = lex_test(input).unwrap();
    let (parse_type, rest) =
        ParseType::parse(&tokens, &mut ParseCtx::new(&Config::default())).unwrap();

    assert_eq!(parse_type.to_string(), "[A]");
    assert_eq!(rest.len(), 0);
}

#[test]
fn struct_test_parse_struct() {
    let input = "struct Test\n";
    let tokens = lex_test(input).unwrap();
    let (struct_decl, rest) =
        StructDecl::parse(&tokens, &mut ParseCtx::new(&Config::default())).unwrap();

    assert_eq!(struct_decl.name.name, "Test");
    assert_eq!(rest.len(), 0);
}

#[test]
fn test_parse_struct() {
    let input = "struct Test\n";
    let tokens = lex_test(input).unwrap();
    let (struct_decl, rest) =
        StructDecl::parse(&tokens, &mut ParseCtx::new(&Config::default())).unwrap();

    assert_eq!(struct_decl.name.name, "Test");
    assert_eq!(rest.len(), 0);
}

#[test]
fn struct_test_parse_struct_with_generics() {
    let input = "struct Test T, U\n";
    let tokens = lex_test(input).unwrap();
    let (struct_decl, rest) =
        StructDecl::parse(&tokens, &mut ParseCtx::new(&Config::default())).unwrap();

    let ty = struct_decl.name;

    assert_eq!(ty.name, "Test");
    assert_eq!(ty.generics.len(), 2);
    assert_eq!(ty.generics[0].to_string(), "T");
    assert_eq!(ty.generics[1].to_string(), "U");
    assert_eq!(rest.len(), 0);
}

#[test]
fn test_parse_struct_with_generics() {
    let input = "struct Test T, U\n";
    let tokens = lex_test(input).unwrap();
    let (struct_decl, rest) =
        StructDecl::parse(&tokens, &mut ParseCtx::new(&Config::default())).unwrap();

    let ty = struct_decl.name;

    assert_eq!(ty.name, "Test");
    assert_eq!(ty.generics.len(), 2);
    assert_eq!(ty.generics[0].to_string(), "T");
    assert_eq!(ty.generics[1].to_string(), "U");
    assert_eq!(rest.len(), 0);
}

#[test]
fn struct_test_parse_struct_with_fields() {
    let input = "struct Test\n  field: Type\n  field2: Type2\n";
    let tokens = lex_test(input).unwrap();
    let (struct_decl, rest) =
        StructDecl::parse(&tokens, &mut ParseCtx::new(&Config::default())).unwrap();

    let ty = &struct_decl.name;

    assert_eq!(ty.name, "Test");
    assert_eq!(struct_decl.fields.len(), 2);
    assert_eq!(
        struct_decl
            .fields
            .iter()
            .find(|field| field.name.name == "field")
            .unwrap()
            .ty
            .to_string(),
        "Type"
    );
    assert_eq!(
        struct_decl
            .fields
            .iter()
            .find(|field| field.name.name == "field2")
            .unwrap()
            .ty
            .to_string(),
        "Type2"
    );
    assert_eq!(rest.len(), 0);
}

#[test]
fn test_parse_struct_with_fields() {
    let input = "struct Test\n  field: Type\n  field2: Type2\n";
    let tokens = lex_test(input).unwrap();
    let (struct_decl, rest) =
        StructDecl::parse(&tokens, &mut ParseCtx::new(&Config::default())).unwrap();

    let ty = &struct_decl.name;

    assert_eq!(ty.name, "Test");
    assert_eq!(struct_decl.fields.len(), 2);
    assert_eq!(
        struct_decl
            .fields
            .iter()
            .find(|field| field.name.name == "field")
            .unwrap()
            .ty
            .to_string(),
        "Type"
    );
    assert_eq!(
        struct_decl
            .fields
            .iter()
            .find(|field| field.name.name == "field2")
            .unwrap()
            .ty
            .to_string(),
        "Type2"
    );
    assert_eq!(rest.len(), 0);
}

#[test]
fn test_parse_enum() {
    let input = "enum Type\n  Variant1\n  Variant2 T, U\n  StructLike\n    field: Type\n";
    let tokens = lex_test(input).unwrap();
    let (enum_decl, rest) =
        EnumDecl::parse(&tokens, &mut ParseCtx::new(&Config::default())).unwrap();

    assert_eq!(enum_decl.name.to_string(), "Type");
    assert_eq!(enum_decl.variants.len(), 3);
    assert_eq!(rest.len(), 0);
}

#[test]
fn test_parse_impl() {
    let input = "impl Test\n";
    let tokens = lex_test(input).unwrap();
    let (impl_, rest) = Impl::parse(&tokens, &mut ParseCtx::new(&Config::default())).unwrap();

    assert_eq!(impl_.name.name, "Test");
    assert_eq!(rest.len(), 0);
}

#[test]
fn test_parse_impl_with_methods() {
    let input = "impl Test\n  new = -> lol\n  @add = -> a\n";
    let tokens = lex_test(input).unwrap();
    let (impl_, rest) = Impl::parse(&tokens, &mut ParseCtx::new(&Config::default())).unwrap();

    assert_eq!(impl_.name.name, "Test");
    assert_eq!(impl_.methods.len(), 2);
    assert_eq!(
        impl_
            .methods
            .iter()
            .find(|(k, _v)| k.name == "new")
            .unwrap()
            .1
            .name
            .name,
        "new"
    );
    assert_eq!(rest.len(), 0);
}

#[test]
fn test_parse_trait() {
    let tokens = lex_test(
        r#"trait Foo
  bar = a -> a
  baz : Int
"#,
    )
    .unwrap();

    let (trait_decl, rest) =
        TraitDecl::parse(&tokens, &mut ParseCtx::new(&Config::default())).unwrap();

    assert_eq!(trait_decl.name.name, "Foo");
    assert_eq!(trait_decl.methods.len(), 1);
    assert_eq!(trait_decl.signatures.len(), 1);
    assert_eq!(rest.len(), 0);
}

#[test]
fn parse_infix_operator() {
    let input = "infix 5 |>\n";
    let tokens = lex_test(input).unwrap();
    let (top_level, rest) =
        TopLevel::parse(&tokens, &mut ParseCtx::new(&Config::default())).unwrap();

    let (precedence, name) = match top_level.kind {
        TopLevelKind::InfixOperator(precedence, name) => (precedence, name),
        _ => panic!(),
    };

    assert_eq!(precedence, 5);
    assert_eq!(name, "|>".to_string());
    assert_eq!(rest.len(), 0);
}

#[test]
fn test_parse_enum_instance() {
    let input = "Type::Variant1";
    let tokens = lex_test(input).unwrap();
    let (enum_instance, rest) =
        Instance::parse(&tokens, &mut ParseCtx::new(&Config::default())).unwrap();

    assert_eq!(enum_instance.name.to_string(), "Type::Variant1");
    assert_eq!(rest.len(), 0);
}

#[test]
fn instance_test_parse_struct_instance_inline() {
    let input = "Test a: 1, b: 2, c: a + 4";
    let tokens = lex_test(input).unwrap();
    let (struct_instance, rest) =
        Instance::parse(&tokens, &mut ParseCtx::new(&Config::default())).unwrap();

    assert_eq!(struct_instance.name.to_string(), "Test");
    assert_eq!(struct_instance.fields.len(), 3);
    assert_eq!(rest.len(), 0);
}

#[test]
fn instance_test_parse_struct_instance_multiline() {
    let input = "Test\n    a: 1\n    b: 2\n    c: a + 4";
    let tokens = lex_test(input).unwrap();
    let (struct_instance, rest) =
        Instance::parse(&tokens, &mut ParseCtx::new(&Config::default())).unwrap();

    assert_eq!(struct_instance.name.to_string(), "Test");
    assert_eq!(struct_instance.fields.len(), 3);
    assert_eq!(rest.len(), 0);
}

#[test]
fn test_parse_struct_instance_empty_args() {
    let input = "Test";
    let tokens = lex_test(input).unwrap();
    let (struct_instance, rest) =
        Instance::parse(&tokens, &mut ParseCtx::new(&Config::default())).unwrap();

    assert_eq!(struct_instance.name.to_string(), "Test");
    assert_eq!(struct_instance.fields.len(), 0);
    assert_eq!(rest.len(), 0);
}

#[test]
fn struct_test_parse_struct_instance_inline() {
    let input = "Test a: 1, b: 2, c: a + 4";
    let tokens = lex_test(input).unwrap();
    let (struct_instance, rest) =
        Instance::parse(&tokens, &mut ParseCtx::new(&Config::default())).unwrap();

    assert_eq!(struct_instance.name.to_string(), "Test");
    assert_eq!(struct_instance.fields.len(), 3);
    assert_eq!(rest.len(), 0);
}

#[test]
fn struct_test_parse_struct_instance_multiline() {
    let input = "Test\n  a: 1\n  b: 2\n  c: a + 4";
    let tokens = lex_test(input).unwrap();
    let (struct_instance, rest) =
        Instance::parse(&tokens, &mut ParseCtx::new(&Config::default())).unwrap();

    assert_eq!(struct_instance.name.to_string(), "Test");
    assert_eq!(struct_instance.fields.len(), 3);
    assert_eq!(rest.len(), 0);
}

#[test]
fn test_parse_if_monoline() {
    let input = "if a then 1";
    let tokens = lex_test(input).unwrap();
    let (_if_, rest) = If::parse(&tokens, &mut ParseCtx::new(&Config::default())).unwrap();

    assert_eq!(rest.len(), 0);
}

#[test]
fn test_parse_if_else_monoline() {
    let input = "if true then 1 else z";
    let tokens = lex_test(input).unwrap();
    let (_if_, rest) = If::parse(&tokens, &mut ParseCtx::new(&Config::default())).unwrap();

    assert_eq!(rest.len(), 0);
}

#[test]
fn test_parse_if_else_if_else_monoline() {
    let input = "if true then 1 else if false then 2 else 3";
    let tokens = lex_test(input).unwrap();
    let (_if_, rest) = If::parse(&tokens, &mut ParseCtx::new(&Config::default())).unwrap();

    assert_eq!(rest.len(), 0);
}

#[test]
fn test_parse_if_else_multiline_1() {
    let input = "if true\nthen 1\nelse 2";
    let tokens = lex_test(input).unwrap();
    let (_if_, rest) = If::parse(&tokens, &mut ParseCtx::new(&Config::default())).unwrap();

    assert_eq!(rest.len(), 0);
}

#[test]
fn test_parse_if_else_multiline_2() {
    let input = "if true then\n  1\nelse if false then\n  2\nelse 3";
    let tokens = lex_test(input).unwrap();
    let (_if_, rest) = If::parse(&tokens, &mut ParseCtx::new(&Config::default())).unwrap();

    assert_eq!(rest.len(), 0);
}

#[test]
fn test_parse_if_else_multiline_3() {
    let input = "if true\n  1\nelse\n  2";
    let tokens = lex_test(input).unwrap();
    let (_if_, rest) = If::parse(&tokens, &mut ParseCtx::new(&Config::default())).unwrap();

    assert_eq!(rest.len(), 0);
}

#[test]
fn test_parse_macro_decl() {
    let input = "macro mymacro\n  $a:ident =>\n    statement";
    let tokens = lex_with_eof(input);
    let tokens = &tokens[1..]; // skip the Indent(0)
    let (macro_decl, rest) =
        MacroDecl::parse(tokens, &mut ParseCtx::new(&Config::default())).unwrap();

    assert_eq!(macro_decl.name.name, "mymacro");
    assert_eq!(macro_decl.entries.len(), 1);
    assert_eq!(rest.len(), 0);
}

#[test]
fn test_parse_macro_entry() {
    let input = "$a:ident =>\n    statement";
    let tokens = lex_with_eof(input);
    let tokens = &tokens[1..]; // skip the Indent(0)
    let (macro_entry, rest) =
        MacroEntry::parse(tokens, &mut ParseCtx::new(&Config::default())).unwrap();

    assert_eq!(macro_entry.defs.len(), 1);
    assert_eq!(rest.len(), 0);
}

#[test]
fn test_parse_macro_invoc() {
    let input = "%mymacro\n  a\n  b";
    let tokens = lex_with_eof(input);
    let tokens = &tokens[1..]; // skip the Indent(0)
    let (macro_invoc, rest) =
        MacroInvoc::parse(tokens, &mut ParseCtx::new(&Config::default())).unwrap();

    assert_eq!(macro_invoc.name.name, "mymacro");
    assert_eq!(macro_invoc.args.len(), 3); // the end of file is kept among the arguments
    assert_eq!(rest.len(), 0);
}

#[test]
fn struct_fields_come_in_their_order() {
    let input = "struct Point\n  y: Int64\n  x: Int64\n";
    let tokens = lex_test(input).unwrap();
    let (struct_decl, rest) =
        StructDecl::parse(&tokens, &mut ParseCtx::new(&Config::default())).unwrap();
    assert_eq!(struct_decl.fields.len(), 2);
    assert_eq!(struct_decl.fields[0].name.name, "y");
    assert_eq!(struct_decl.fields[1].name.name, "x");
    assert_eq!(rest.len(), 0);
}

#[test]
fn impl_method_defined_twice_keeps_the_last() {
    let input = "impl Point\n  f = -> 1\n  g = -> 2\n  f = -> 3\n";
    let tokens = lex_test(input).unwrap();
    let (impl_decl, _rest) = Impl::parse(&tokens, &mut ParseCtx::new(&Config::default())).unwrap();
    let names: Vec<String> = impl_decl.methods.iter().map(|(n, _)| n.name.clone()).collect();
    assert_eq!(names, vec!["f".to_string(), "g".to_string()]);
}
