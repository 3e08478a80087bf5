use vstd::prelude::*;

use crate::ast::Ident;
use crate::lexer::{LexerError, Span, Token, TokenType};
use crate::parser::ParseError;

verus! {

/// What `format!("{:?}", s)` writes for the text `s`: the text in double
/// quotes, its special characters escaped.
pub uninterp spec fn str_debug(s: Seq<char>) -> Seq<char>;

/// What `format!("{:?}", c)` writes for the character `c`: the character in
/// single quotes, escaped when it is special.
pub uninterp spec fn char_debug(c: char) -> Seq<char>;

/// The quoted and escaped text of `s`, as the `Debug` impl of `str` writes
/// it. Its result is named by `str_debug`, a function of the text alone.
#[verifier::external_body]
fn str_debug_text(s: &str) -> (res: String)
    ensures
        res@ == str_debug(s@),
{
    format!("{:?}", s)
}

/// The quoted and escaped character `c`, as the `Debug` impl of `char`
/// writes it. Its result is named by `char_debug`, a function of `c` alone.
#[verifier::external_body]
pub(crate) fn char_debug_text(c: char) -> (res: String)
    ensures
        res@ == char_debug(c),
{
    format!("{:?}", c)
}

/// The decimal digit `d`.
pub open spec fn digit(d: nat) -> char {
    if d == 0 {
        '0'
    } else if d == 1 {
        '1'
    } else if d == 2 {
        '2'
    } else if d == 3 {
        '3'
    } else if d == 4 {
        '4'
    } else if d == 5 {
        '5'
    } else if d == 6 {
        '6'
    } else if d == 7 {
        '7'
    } else if d == 8 {
        '8'
    } else {
        '9'
    }
}

/// The decimal writing of `n`, without leading zeros.
pub open spec fn decimal(n: nat) -> Seq<char>
    decreases n,
{
    if n < 10 {
        seq![digit(n)]
    } else {
        decimal(n / 10) + seq![digit(n % 10)]
    }
}

/// The text of the digit `d`.
fn digit_text(d: usize) -> (res: &'static str)
    requires
        d < 10,
    ensures
        res@ == seq![digit(d as nat)],
{
    proof {
        reveal_strlit("0");
        reveal_strlit("1");
        reveal_strlit("2");
        reveal_strlit("3");
        reveal_strlit("4");
        reveal_strlit("5");
        reveal_strlit("6");
        reveal_strlit("7");
        reveal_strlit("8");
        reveal_strlit("9");
    }
    if d == 0 {
        "0"
    } else if d == 1 {
        "1"
    } else if d == 2 {
        "2"
    } else if d == 3 {
        "3"
    } else if d == 4 {
        "4"
    } else if d == 5 {
        "5"
    } else if d == 6 {
        "6"
    } else if d == 7 {
        "7"
    } else if d == 8 {
        "8"
    } else {
        "9"
    }
}

/// The decimal writing of `n`.
pub fn decimal_text(n: usize) -> (res: String)
    ensures
        res@ == decimal(n as nat),
    decreases n,
{
    if n < 10 {
        String::from_str(digit_text(n))
    } else {
        let mut res = decimal_text(n / 10);
        res.append(digit_text(n % 10));
        res
    }
}

/// `s` in parentheses after `name`, as a tuple variant is written.
pub open spec fn variant_of(name: Seq<char>, s: Seq<char>) -> Seq<char> {
    name + "("@ + s + ")"@
}

/// The `Debug` text of a token type: the variant's name, and what it carries
/// in parentheses.
pub open spec fn token_type_debug(t: TokenType) -> Seq<char> {
    match t {
        TokenType::Ident(s) => variant_of("Ident"@, str_debug(s@)),
        TokenType::Type(s) => variant_of("Type"@, str_debug(s@)),
        TokenType::Number(s) => variant_of("Number"@, str_debug(s@)),
        TokenType::Float(s) => variant_of("Float"@, str_debug(s@)),
        TokenType::Operator(s) => variant_of("Operator"@, str_debug(s@)),
        TokenType::StuckOperator(s) => variant_of("StuckOperator"@, str_debug(s@)),
        TokenType::Keyword(s) => variant_of("Keyword"@, str_debug(s@)),
        TokenType::MacroVar(s) => variant_of("MacroVar"@, str_debug(s@)),
        TokenType::MacroInvoc(s) => variant_of("MacroInvoc"@, str_debug(s@)),
        TokenType::String(s) => variant_of("String"@, str_debug(s@)),
        TokenType::Char(c) => variant_of("Char"@, char_debug(c)),
        TokenType::Comment(s) => variant_of("Comment"@, str_debug(s@)),
        TokenType::MacroRepeatOpen => "MacroRepeatOpen"@,
        TokenType::MacroRepeatClose => "MacroRepeatClose"@,
        TokenType::Equal => "Equal"@,
        TokenType::OpenParen => "OpenParen"@,
        TokenType::CloseParen => "CloseParen"@,
        TokenType::OpenBracket => "OpenBracket"@,
        TokenType::CloseBracket => "CloseBracket"@,
        TokenType::SimpleQuote => "SimpleQuote"@,
        TokenType::DoubleQuote => "DoubleQuote"@,
        TokenType::Arrow => "Arrow"@,
        TokenType::FatArrow => "FatArrow"@,
        TokenType::Coma => "Coma"@,
        TokenType::Colon => "Colon"@,
        TokenType::DoubleColon => "DoubleColon"@,
        TokenType::Dot => "Dot"@,
        TokenType::SpacedDot => "SpacedDot"@,
        TokenType::DoubleDot => "DoubleDot"@,
        TokenType::Arobase => "Arobase"@,
        TokenType::Interogation => "Interogation"@,
        TokenType::Underscore => "Underscore"@,
        TokenType::Indent(n) => variant_of("Indent"@, decimal(n as nat)),
        TokenType::Eol => "Eol"@,
        TokenType::Eof => "Eof"@,
    }
}

/// `name`, then `inner` in parentheses.
fn variant_text(name: &str, inner: String) -> (res: String)
    ensures
        res@ == variant_of(name@, inner@),
{
    let mut res = String::from_str(name);
    res.append("(");
    res.append(inner.as_str());
    res.append(")");
    res
}

/// The `Debug` text of a token type.
pub fn token_type_text(t: &TokenType) -> (res: String)
    ensures
        res@ == token_type_debug(*t),
{
    match t {
        TokenType::Ident(s) => variant_text("Ident", str_debug_text(s.as_str())),
        TokenType::Type(s) => variant_text("Type", str_debug_text(s.as_str())),
        TokenType::Number(s) => variant_text("Number", str_debug_text(s.as_str())),
        TokenType::Float(s) => variant_text("Float", str_debug_text(s.as_str())),
        TokenType::Operator(s) => variant_text("Operator", str_debug_text(s.as_str())),
        TokenType::StuckOperator(s) => variant_text("StuckOperator", str_debug_text(s.as_str())),
        TokenType::Keyword(s) => variant_text("Keyword", str_debug_text(s.as_str())),
        TokenType::MacroVar(s) => variant_text("MacroVar", str_debug_text(s.as_str())),
        TokenType::MacroInvoc(s) => variant_text("MacroInvoc", str_debug_text(s.as_str())),
        TokenType::String(s) => variant_text("String", str_debug_text(s.as_str())),
        TokenType::Char(c) => variant_text("Char", char_debug_text(*c)),
        TokenType::Comment(s) => variant_text("Comment", str_debug_text(s.as_str())),
        TokenType::MacroRepeatOpen => String::from_str("MacroRepeatOpen"),
        TokenType::MacroRepeatClose => String::from_str("MacroRepeatClose"),
        TokenType::Equal => String::from_str("Equal"),
        TokenType::OpenParen => String::from_str("OpenParen"),
        TokenType::CloseParen => String::from_str("CloseParen"),
        TokenType::OpenBracket => String::from_str("OpenBracket"),
        TokenType::CloseBracket => String::from_str("CloseBracket"),
        TokenType::SimpleQuote => String::from_str("SimpleQuote"),
        TokenType::DoubleQuote => String::from_str("DoubleQuote"),
        TokenType::Arrow => String::from_str("Arrow"),
        TokenType::FatArrow => String::from_str("FatArrow"),
        TokenType::Coma => String::from_str("Coma"),
        TokenType::Colon => String::from_str("Colon"),
        TokenType::DoubleColon => String::from_str("DoubleColon"),
        TokenType::Dot => String::from_str("Dot"),
        TokenType::SpacedDot => String::from_str("SpacedDot"),
        TokenType::DoubleDot => String::from_str("DoubleDot"),
        TokenType::Arobase => String::from_str("Arobase"),
        TokenType::Interogation => String::from_str("Interogation"),
        TokenType::Underscore => String::from_str("Underscore"),
        TokenType::Indent(n) => variant_text("Indent", decimal_text(*n as usize)),
        TokenType::Eol => String::from_str("Eol"),
        TokenType::Eof => String::from_str("Eof"),
    }
}

/// The texts `items` between brackets, separated by `, `.
pub open spec fn list_of(items: Seq<Seq<char>>) -> Seq<char> {
    "["@ + joined(items) + "]"@
}

/// The texts `items` separated by `, `.
pub open spec fn joined(items: Seq<Seq<char>>) -> Seq<char>
    decreases items.len(),
{
    if items.len() == 0 {
        Seq::empty()
    } else if items.len() == 1 {
        items[0]
    } else {
        joined(items.drop_last()) + ", "@ + items.last()
    }
}

/// `texts` as a list: between brackets, separated by `, `.
fn list_text(texts: Vec<String>) -> (res: String)
    ensures
        res@ == list_of(texts@.map_values(|t: String| t@)),
{
    let ghost views = texts@.map_values(|t: String| t@);
    let mut inner = String::new();
    let mut i: usize = 0;
    while i < texts.len()
        invariant
            i <= texts@.len(),
            views == texts@.map_values(|t: String| t@),
            inner@ == joined(views.take(i as int)),
        decreases texts@.len() - i,
    {
        assert(views.take(i + 1).drop_last() =~= views.take(i as int));
        if i > 0 {
            inner.append(", ");
        }
        inner.append(texts[i].as_str());
        i = i + 1;
        proof {
            if i == 1 {
                assert(views.take(1)[0] == views[0]);
            }
        }
    }
    assert(views.take(i as int) =~= views);
    let mut res = String::from_str("[");
    res.append(inner.as_str());
    res.append("]");
    res
}

/// The `Debug` text of a list of token types.
pub fn token_types_text(types: &Vec<TokenType>) -> (res: String)
    ensures
        res@ == list_of(types@.map_values(|t: TokenType| token_type_debug(t))),
{
    let mut texts: Vec<String> = Vec::new();
    let mut i: usize = 0;
    while i < types.len()
        invariant
            i <= types@.len(),
            texts@.len() == i,
            forall|k: int| 0 <= k < i ==> #[trigger] texts@[k]@ == token_type_debug(types@[k]),
        decreases types@.len() - i,
    {
        texts.push(token_type_text(&types[i]));
        i = i + 1;
    }
    let ghost tv = texts@;
    let res = list_text(texts);
    assert(tv.map_values(|t: String| t@) =~= types@.map_values(|t: TokenType| token_type_debug(t)));
    res
}

/// The `Debug` text of a list of texts.
pub fn texts_text(texts: &Vec<String>) -> (res: String)
    ensures
        res@ == list_of(texts@.map_values(|t: String| str_debug(t@))),
{
    let mut quoted: Vec<String> = Vec::new();
    let mut i: usize = 0;
    while i < texts.len()
        invariant
            i <= texts@.len(),
            quoted@.len() == i,
            forall|k: int| 0 <= k < i ==> #[trigger] quoted@[k]@ == str_debug(texts@[k]@),
        decreases texts@.len() - i,
    {
        quoted.push(str_debug_text(texts[i].as_str()));
        i = i + 1;
    }
    let ghost qv = quoted@;
    let res = list_text(quoted);
    assert(qv.map_values(|t: String| t@) =~= texts@.map_values(|t: String| str_debug(t@)));
    res
}

/// The `Debug` text of a place of a source.
pub open spec fn span_debug(s: Span) -> Seq<char> {
    "Span { file_path: "@ + str_debug(s.file_path@) + ", start: "@ + decimal(s.start as nat)
        + ", end: "@ + decimal(s.end as nat) + " }"@
}

/// The `Debug` text of a place of a source.
pub fn span_text(s: &Span) -> (res: String)
    ensures
        res@ == span_debug(*s),
{
    let mut res = String::from_str("Span { file_path: ");
    res.append(str_debug_text(s.file_path.as_str()).as_str());
    res.append(", start: ");
    res.append(decimal_text(s.start).as_str());
    res.append(", end: ");
    res.append(decimal_text(s.end).as_str());
    res.append(" }");
    res
}

/// The `Debug` text of a token.
pub open spec fn token_debug(t: Token) -> Seq<char> {
    "Token { token_type: "@ + token_type_debug(t.token_type) + ", span: "@ + span_debug(t.span)
        + " }"@
}

/// The `Debug` text of a token.
pub fn token_text(t: &Token) -> (res: String)
    ensures
        res@ == token_debug(*t),
{
    let mut res = String::from_str("Token { token_type: ");
    res.append(token_type_text(&t.token_type).as_str());
    res.append(", span: ");
    res.append(span_text(&t.span).as_str());
    res.append(" }");
    res
}

/// The `Debug` text of an identifier.
pub open spec fn ident_debug(i: Ident) -> Seq<char> {
    "Ident { name: "@ + str_debug(i.name@) + ", span: "@ + span_debug(i.span) + " }"@
}

/// The `Debug` text of an identifier.
pub fn ident_text(i: &Ident) -> (res: String)
    ensures
        res@ == ident_debug(*i),
{
    let mut res = String::from_str("Ident { name: ");
    res.append(str_debug_text(i.name.as_str()).as_str());
    res.append(", span: ");
    res.append(span_text(&i.span).as_str());
    res.append(" }");
    res
}

/// `a` and `b` separated by `, `, in parentheses after `name`.
pub open spec fn pair_of(name: Seq<char>, a: Seq<char>, b: Seq<char>) -> Seq<char> {
    variant_of(name, a + ", "@ + b)
}

/// `a`, `b` and `c` separated by `, `, in parentheses after `name`.
pub open spec fn triple_of(name: Seq<char>, a: Seq<char>, b: Seq<char>, c: Seq<char>) -> Seq<char> {
    variant_of(name, a + ", "@ + b + ", "@ + c)
}

/// `a` and `b` separated by `, `.
fn comma_text(a: String, b: String) -> (res: String)
    ensures
        res@ == a@ + ", "@ + b@,
{
    let mut res = a;
    res.append(", ");
    res.append(b.as_str());
    res
}

/// The `Debug` text of a parse error: the variant's name, and what it
/// carries in parentheses.
pub open spec fn parse_error_debug(e: ParseError) -> Seq<char> {
    match e {
        ParseError::UnexpectedKeyword(t, ks) => pair_of(
            "UnexpectedKeyword"@,
            token_debug(t),
            list_of(ks@.map_values(|k: String| str_debug(k@))),
        ),
        ParseError::UnexpectedToken(t, ts) => pair_of(
            "UnexpectedToken"@,
            token_debug(t),
            list_of(ts@.map_values(|x: TokenType| token_type_debug(x))),
        ),
        ParseError::UnexpectedEof(t) => variant_of("UnexpectedEof"@, token_type_debug(t)),
        ParseError::LeftoverTokens(ts) => variant_of(
            "LeftoverTokens"@,
            list_of(ts@.map_values(|x: Token| token_debug(x))),
        ),
        ParseError::UnknownFile(s) => variant_of("UnknownFile"@, str_debug(s@)),
        ParseError::Lexer(LexerError::UnknownToken(c, s)) => variant_of(
            "Lexer"@,
            pair_of("UnknownToken"@, char_debug(c), span_debug(s)),
        ),
        ParseError::MacroNoCorrespondance(i) => variant_of("MacroNoCorrespondance"@, ident_debug(i)),
        ParseError::MacroUnknownVar(s) => variant_of("MacroUnknownVar"@, str_debug(s@)),
        ParseError::IndentMismatch(a, b, s) => triple_of(
            "IndentMismatch"@,
            decimal(a as nat),
            decimal(b as nat),
            span_debug(s),
        ),
        ParseError::IndentOverflow(a, b) => pair_of(
            "IndentOverflow"@,
            decimal(a as nat),
            decimal(b as nat),
        ),
        ParseError::OddIndentStep(a) => variant_of("OddIndentStep"@, decimal(a as nat)),
        ParseError::InvalidPrecedence(a, t) => pair_of(
            "InvalidPrecedence"@,
            decimal(a as nat),
            token_debug(t),
        ),
        ParseError::InvalidNumber(t) => variant_of("InvalidNumber"@, token_debug(t)),
        ParseError::InvalidVariant(a, b) => pair_of("InvalidVariant"@, span_debug(a), span_debug(b)),
        ParseError::ExpectedType(s) => variant_of("ExpectedType"@, span_debug(s)),
        ParseError::InvalidLHS(s) => variant_of("InvalidLHS"@, span_debug(s)),
        ParseError::ShortCircuit => "ShortCircuit"@,
        ParseError::InternalError(s) => variant_of("InternalError"@, str_debug(s@)),
    }
}

/// The `Debug` text of a list of tokens.
fn tokens_text(tokens: &Vec<Token>) -> (res: String)
    ensures
        res@ == list_of(tokens@.map_values(|x: Token| token_debug(x))),
{
    let mut texts: Vec<String> = Vec::new();
    let mut i: usize = 0;
    while i < tokens.len()
        invariant
            i <= tokens@.len(),
            texts@.len() == i,
            forall|k: int| 0 <= k < i ==> #[trigger] texts@[k]@ == token_debug(tokens@[k]),
        decreases tokens@.len() - i,
    {
        texts.push(token_text(&tokens[i]));
        i = i + 1;
    }
    let ghost tv = texts@;
    let res = list_text(texts);
    assert(tv.map_values(|t: String| t@) =~= tokens@.map_values(|x: Token| token_debug(x)));
    res
}

/// The `Debug` text of a parse error.
pub fn parse_error_text(e: &ParseError) -> (res: String)
    ensures
        res@ == parse_error_debug(*e),
{
    match e {
        ParseError::UnexpectedKeyword(t, ks) => variant_text(
            "UnexpectedKeyword",
            comma_text(token_text(t), texts_text(ks)),
        ),
        ParseError::UnexpectedToken(t, ts) => variant_text(
            "UnexpectedToken",
            comma_text(token_text(t), token_types_text(ts)),
        ),
        ParseError::UnexpectedEof(t) => variant_text("UnexpectedEof", token_type_text(t)),
        ParseError::LeftoverTokens(ts) => variant_text("LeftoverTokens", tokens_text(ts)),
        ParseError::UnknownFile(s) => variant_text("UnknownFile", str_debug_text(s.as_str())),
        ParseError::Lexer(LexerError::UnknownToken(c, s)) => variant_text(
            "Lexer",
            variant_text("UnknownToken", comma_text(char_debug_text(*c), span_text(s))),
        ),
        ParseError::MacroNoCorrespondance(i) => variant_text("MacroNoCorrespondance", ident_text(i)),
        ParseError::MacroUnknownVar(s) => variant_text("MacroUnknownVar", str_debug_text(s.as_str())),
        ParseError::IndentMismatch(a, b, s) => variant_text(
            "IndentMismatch",
            comma_text(comma_text(decimal_text(*a as usize), decimal_text(*b as usize)), span_text(s)),
        ),
        ParseError::IndentOverflow(a, b) => variant_text(
            "IndentOverflow",
            comma_text(decimal_text(*a as usize), decimal_text(*b as usize)),
        ),
        ParseError::OddIndentStep(a) => variant_text("OddIndentStep", decimal_text(*a as usize)),
        ParseError::InvalidPrecedence(a, t) => variant_text(
            "InvalidPrecedence",
            comma_text(decimal_text(*a as usize), token_text(t)),
        ),
        ParseError::InvalidNumber(t) => variant_text("InvalidNumber", token_text(t)),
        ParseError::InvalidVariant(a, b) => variant_text(
            "InvalidVariant",
            comma_text(span_text(a), span_text(b)),
        ),
        ParseError::ExpectedType(s) => variant_text("ExpectedType", span_text(s)),
        ParseError::InvalidLHS(s) => variant_text("InvalidLHS", span_text(s)),
        ParseError::ShortCircuit => String::from_str("ShortCircuit"),
        ParseError::InternalError(s) => variant_text("InternalError", str_debug_text(s.as_str())),
    }
}

} // verus!
