use rock::ast::Program;
use rock::parser::parse_string;

#[test]
fn program_program_with_newlines() {
    let input = r#"

main = -> 1


test = -> 2


"#;

    assert!(parse_string::<Program>(input).is_ok());
}

#[test]
fn program_program_with_no_newlines() {
    let input = r#"main = -> 1
test = -> 2"#;

    assert!(parse_string::<Program>(input).is_ok());
}

#[test]
fn program_program_with_good_2_indent() {
    let input = r#"main = ->
  a
  2"#;

    assert!(parse_string::<Program>(input).is_ok());
}

#[test]
fn program_program_with_good_4_indent() {
    let input = r#"main = ->
    a
    2"#;

    assert!(parse_string::<Program>(input).is_ok());
}

#[test]
fn program_program_with_bad_indent() {
    let input = r#"main = ->
    a
  2"#;

    assert!(parse_string::<Program>(input).is_err());
}


#[test]
fn program_with_newlines() {
    let input = r#"

main = -> 1


test = -> 2


"#;

    assert!(parse_string::<Program>(input).is_ok());
}

#[test]
fn program_with_no_newlines() {
    let input = r#"main = -> 1
test = -> 2"#;

    assert!(parse_string::<Program>(input).is_ok());
}

#[test]
fn program_with_good_2_indent() {
    let input = r#"main = ->
  a
  2"#;

    assert!(parse_string::<Program>(input).is_ok());
}

#[test]
fn program_with_good_4_indent() {
    let input = r#"main = ->
    a
    2"#;

    assert!(parse_string::<Program>(input).is_ok());
}

#[test]
fn program_with_bad_indent() {
    let input = r#"main = ->
    a
  2"#;

    assert!(parse_string::<Program>(input).is_err());
}
