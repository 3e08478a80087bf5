use vstd::prelude::*;

use crate::lexer::Span;

verus! {

/// A lexed token: its type and where it stands in the source.
#[derive(Debug)]
pub struct Token {
    pub token_type: TokenType,
    pub span: Span,
}

/// The kinds of tokens of the language, with the text they carry.
#[derive(Debug)]
pub enum TokenType {
    Ident(String),
    /// An identifier that starts with an uppercase letter.
    Type(String),
    Number(String),
    Float(String),
    /// An operator surrounded by whitespace, or stuck to what precedes it.
    Operator(String),
    /// An operator that stands before its operand, as in `-x`.
    StuckOperator(String),
    Keyword(String),
    MacroVar(String),
    MacroInvoc(String),
    String(String),
    Char(char),
    Comment(String),
    MacroRepeatOpen,
    MacroRepeatClose,
    Equal,
    OpenParen,
    CloseParen,
    OpenBracket,
    CloseBracket,
    SimpleQuote,
    DoubleQuote,
    Arrow,
    FatArrow,
    Coma,
    Colon,
    DoubleColon,
    Dot,
    /// A dot preceded by whitespace, as in `foo a .bar`.
    SpacedDot,
    DoubleDot,
    Arobase,
    Interogation,
    Underscore,
    Indent(u8),
    Eol,
    Eof,
}

/// Two token types are the same when they are the same variant carrying the
/// same text (or character, or indentation).
pub open spec fn same_token_type(a: TokenType, b: TokenType) -> bool {
    match (a, b) {
        (TokenType::Ident(x), TokenType::Ident(y)) => x@ == y@,
        (TokenType::Type(x), TokenType::Type(y)) => x@ == y@,
        (TokenType::Number(x), TokenType::Number(y)) => x@ == y@,
        (TokenType::Float(x), TokenType::Float(y)) => x@ == y@,
        (TokenType::Operator(x), TokenType::Operator(y)) => x@ == y@,
        (TokenType::StuckOperator(x), TokenType::StuckOperator(y)) => x@ == y@,
        (TokenType::Keyword(x), TokenType::Keyword(y)) => x@ == y@,
        (TokenType::MacroVar(x), TokenType::MacroVar(y)) => x@ == y@,
        (TokenType::MacroInvoc(x), TokenType::MacroInvoc(y)) => x@ == y@,
        (TokenType::String(x), TokenType::String(y)) => x@ == y@,
        (TokenType::Comment(x), TokenType::Comment(y)) => x@ == y@,
        _ => a == b,
    }
}

/// Whether a token type carries no data.
pub open spec fn is_unit_token_type(a: TokenType) -> bool {
    !(a is Ident || a is Type || a is Number || a is Float || a is Operator
        || a is StuckOperator || a is Keyword || a is MacroVar || a is MacroInvoc
        || a is String || a is Char || a is Comment || a is Indent)
}

proof fn lemma_same_tag(a: TokenType, b: TokenType)
    requires
        a.tag_spec() == b.tag_spec(),
        is_unit_token_type(a),
    ensures
        a == b,
{
}

/// Comparing token types is an equivalence: each is the same as itself.
pub proof fn law_same_token_type_reflexive(a: TokenType)
    ensures
        same_token_type(a, a),
{
}

/// Comparing token types does not depend on the order of the two.
pub proof fn law_same_token_type_symmetric(a: TokenType, b: TokenType)
    ensures
        same_token_type(a, b) == same_token_type(b, a),
{
}

/// Two token types that are the same as a third are the same.
pub proof fn law_same_token_type_transitive(a: TokenType, b: TokenType, c: TokenType)
    requires
        same_token_type(a, b),
        same_token_type(b, c),
    ensures
        same_token_type(a, c),
{
}

impl TokenType {
    /// A number that tells the variants apart.
    pub fn tag(&self) -> (res: u8)
        ensures
            res == self.tag_spec(),
    {
        match self {
            TokenType::Ident(_) => 0,
            TokenType::Type(_) => 1,
            TokenType::Number(_) => 2,
            TokenType::Float(_) => 3,
            TokenType::Operator(_) => 4,
            TokenType::StuckOperator(_) => 5,
            TokenType::Keyword(_) => 6,
            TokenType::MacroVar(_) => 7,
            TokenType::MacroInvoc(_) => 8,
            TokenType::String(_) => 9,
            TokenType::Char(_) => 10,
            TokenType::Comment(_) => 11,
            TokenType::MacroRepeatOpen => 12,
            TokenType::MacroRepeatClose => 13,
            TokenType::Equal => 14,
            TokenType::OpenParen => 15,
            TokenType::CloseParen => 16,
            TokenType::OpenBracket => 17,
            TokenType::CloseBracket => 18,
            TokenType::SimpleQuote => 19,
            TokenType::DoubleQuote => 20,
            TokenType::Arrow => 21,
            TokenType::FatArrow => 22,
            TokenType::Coma => 23,
            TokenType::Colon => 24,
            TokenType::DoubleColon => 25,
            TokenType::Dot => 26,
            TokenType::SpacedDot => 27,
            TokenType::DoubleDot => 28,
            TokenType::Arobase => 29,
            TokenType::Interogation => 30,
            TokenType::Underscore => 31,
            TokenType::Indent(_) => 32,
            TokenType::Eol => 33,
            TokenType::Eof => 34,
        }
    }

    pub open spec fn tag_spec(&self) -> u8 {
        match self {
            TokenType::Ident(_) => 0,
            TokenType::Type(_) => 1,
            TokenType::Number(_) => 2,
            TokenType::Float(_) => 3,
            TokenType::Operator(_) => 4,
            TokenType::StuckOperator(_) => 5,
            TokenType::Keyword(_) => 6,
            TokenType::MacroVar(_) => 7,
            TokenType::MacroInvoc(_) => 8,
            TokenType::String(_) => 9,
            TokenType::Char(_) => 10,
            TokenType::Comment(_) => 11,
            TokenType::MacroRepeatOpen => 12,
            TokenType::MacroRepeatClose => 13,
            TokenType::Equal => 14,
            TokenType::OpenParen => 15,
            TokenType::CloseParen => 16,
            TokenType::OpenBracket => 17,
            TokenType::CloseBracket => 18,
            TokenType::SimpleQuote => 19,
            TokenType::DoubleQuote => 20,
            TokenType::Arrow => 21,
            TokenType::FatArrow => 22,
            TokenType::Coma => 23,
            TokenType::Colon => 24,
            TokenType::DoubleColon => 25,
            TokenType::Dot => 26,
            TokenType::SpacedDot => 27,
            TokenType::DoubleDot => 28,
            TokenType::Arobase => 29,
            TokenType::Interogation => 30,
            TokenType::Underscore => 31,
            TokenType::Indent(_) => 32,
            TokenType::Eol => 33,
            TokenType::Eof => 34,
        }
    }

    /// Exact comparison of two token types, text included.
    pub fn same_as(&self, other: &TokenType) -> (res: bool)
        ensures
            res == same_token_type(*self, *other),
    {
        if self.tag() != other.tag() {
            return false;
        }
        match (self, other) {
            (TokenType::Ident(x), TokenType::Ident(y)) => *x == *y,
            (TokenType::Type(x), TokenType::Type(y)) => *x == *y,
            (TokenType::Number(x), TokenType::Number(y)) => *x == *y,
            (TokenType::Float(x), TokenType::Float(y)) => *x == *y,
            (TokenType::Operator(x), TokenType::Operator(y)) => *x == *y,
            (TokenType::StuckOperator(x), TokenType::StuckOperator(y)) => *x == *y,
            (TokenType::Keyword(x), TokenType::Keyword(y)) => *x == *y,
            (TokenType::MacroVar(x), TokenType::MacroVar(y)) => *x == *y,
            (TokenType::MacroInvoc(x), TokenType::MacroInvoc(y)) => *x == *y,
            (TokenType::String(x), TokenType::String(y)) => *x == *y,
            (TokenType::Comment(x), TokenType::Comment(y)) => *x == *y,
            (TokenType::Char(x), TokenType::Char(y)) => *x == *y,
            (TokenType::Indent(x), TokenType::Indent(y)) => *x == *y,
            _ => {
                proof {
                    lemma_same_tag(*self, *other);
                }
                true
            },
        }
    }

    /// Whether this is an indentation token, of any level.
    pub fn is_indent(&self) -> (res: bool)
        ensures
            res == (*self is Indent),
    {
        match self {
            TokenType::Indent(_) => true,
            _ => false,
        }
    }
}

/// The text a token type stands for: the text it carries, or the characters
/// of a mark (`$(` for the opening of a repetition and `)` for its closing),
/// a space per column for an indentation, and `EOF` for the end of file.
pub open spec fn token_text(t: TokenType) -> Seq<char> {
    match t {
        TokenType::Ident(s) => s@,
        TokenType::Type(s) => s@,
        TokenType::Number(s) => s@,
        TokenType::Float(s) => s@,
        TokenType::Operator(s) => s@,
        TokenType::StuckOperator(s) => s@,
        TokenType::Keyword(s) => s@,
        TokenType::MacroVar(s) => s@,
        TokenType::MacroInvoc(s) => s@,
        TokenType::String(s) => seq!['"'] + s@ + seq!['"'],
        TokenType::Char(c) => seq!['\'', c, '\''],
        TokenType::Comment(s) => seq!['#'] + s@,
        TokenType::MacroRepeatOpen => seq!['$', '('],
        TokenType::MacroRepeatClose => seq![')'],
        TokenType::Equal => seq!['='],
        TokenType::OpenParen => seq!['('],
        TokenType::CloseParen => seq![')'],
        TokenType::OpenBracket => seq!['['],
        TokenType::CloseBracket => seq![']'],
        TokenType::SimpleQuote => seq!['\''],
        TokenType::DoubleQuote => seq!['"'],
        TokenType::Arrow => seq!['-', '>'],
        TokenType::FatArrow => seq!['=', '>'],
        TokenType::Coma => seq![','],
        TokenType::Colon => seq![':'],
        TokenType::DoubleColon => seq![':', ':'],
        TokenType::Dot => seq!['.'],
        TokenType::SpacedDot => seq!['.'],
        TokenType::DoubleDot => seq!['.', '.'],
        TokenType::Arobase => seq!['@'],
        TokenType::Interogation => seq!['?'],
        TokenType::Underscore => seq!['_'],
        TokenType::Indent(n) => Seq::new(n as nat, |i: int| ' '),
        TokenType::Eol => seq!['\n'],
        TokenType::Eof => seq!['E', 'O', 'F'],
    }
}

/// The text of one character, as `char::to_string` writes it (the character
/// alone).
#[verifier::external_body]
fn char_text(c: char) -> (res: String)
    ensures
        res@ == seq![c],
{
    c.to_string()
}

/// The text of a literal.
fn literal_text(lit: &str) -> (res: String)
    ensures
        res@ == lit@,
{
    String::from_str(lit)
}

impl TokenType {
    /// The text the token type stands for.
    pub fn to_string(&self) -> (res: String)
        ensures
            res@ == token_text(*self),
    {
        proof {
            reveal_strlit("\"");
            reveal_strlit("'");
            reveal_strlit("#");
            reveal_strlit("$(");
            reveal_strlit(")");
            reveal_strlit("=");
            reveal_strlit("(");
            reveal_strlit("[");
            reveal_strlit("]");
            reveal_strlit("->");
            reveal_strlit("=>");
            reveal_strlit(",");
            reveal_strlit(":");
            reveal_strlit("::");
            reveal_strlit(".");
            reveal_strlit("..");
            reveal_strlit("@");
            reveal_strlit("?");
            reveal_strlit("_");
            reveal_strlit("\n");
            reveal_strlit("EOF");
            reveal_strlit(" ");
        }
        match self {
            TokenType::Ident(s) => s.clone(),
            TokenType::Type(s) => s.clone(),
            TokenType::Number(s) => s.clone(),
            TokenType::Float(s) => s.clone(),
            TokenType::Operator(s) => s.clone(),
            TokenType::StuckOperator(s) => s.clone(),
            TokenType::Keyword(s) => s.clone(),
            TokenType::MacroVar(s) => s.clone(),
            TokenType::MacroInvoc(s) => s.clone(),
            TokenType::String(s) => {
                let mut res = literal_text("\"");
                res.append(s.as_str());
                res.append("\"");
                assert(res@ =~= seq!['"'] + s@ + seq!['"']);
                res
            },
            TokenType::Char(c) => {
                let mut res = literal_text("'");
                res.append(char_text(*c).as_str());
                res.append("'");
                assert(res@ =~= seq!['\'', *c, '\'']);
                res
            },
            TokenType::Comment(s) => {
                let mut res = literal_text("#");
                res.append(s.as_str());
                assert(res@ =~= seq!['#'] + s@);
                res
            },
            TokenType::MacroRepeatOpen => literal_text("$("),
            TokenType::MacroRepeatClose => literal_text(")"),
            TokenType::Equal => literal_text("="),
            TokenType::OpenParen => literal_text("("),
            TokenType::CloseParen => literal_text(")"),
            TokenType::OpenBracket => literal_text("["),
            TokenType::CloseBracket => literal_text("]"),
            TokenType::SimpleQuote => literal_text("'"),
            TokenType::DoubleQuote => literal_text("\""),
            TokenType::Arrow => literal_text("->"),
            TokenType::FatArrow => literal_text("=>"),
            TokenType::Coma => literal_text(","),
            TokenType::Colon => literal_text(":"),
            TokenType::DoubleColon => literal_text("::"),
            TokenType::Dot => literal_text("."),
            TokenType::SpacedDot => literal_text("."),
            TokenType::DoubleDot => literal_text(".."),
            TokenType::Arobase => literal_text("@"),
            TokenType::Interogation => literal_text("?"),
            TokenType::Underscore => literal_text("_"),
            TokenType::Indent(n) => {
                let mut res = String::new();
                let mut i: u8 = 0;
                while i < *n
                    invariant
                        i <= *n,
                        res@ == Seq::new(i as nat, |k: int| ' '),
                    decreases *n - i,
                {
                    res.append(" ");
                    proof {
                        reveal_strlit(" ");
                    }
                    i = i + 1;
                    assert(res@ =~= Seq::new(i as nat, |k: int| ' '));
                }
                res
            },
            TokenType::Eol => literal_text("\n"),
            TokenType::Eof => literal_text("EOF"),
        }
    }
}

impl PartialEq for TokenType {
    fn eq(&self, other: &Self) -> (res: bool) {
        self.same_as(other)
    }
}

impl vstd::std_specs::cmp::PartialEqSpecImpl for TokenType {
    open spec fn obeys_eq_spec() -> bool {
        true
    }

    open spec fn eq_spec(&self, other: &TokenType) -> bool {
        same_token_type(*self, *other)
    }
}

impl Clone for TokenType {
    fn clone(&self) -> (res: Self)
        ensures
            res == *self,
    {
        match self {
            TokenType::Ident(s) => TokenType::Ident(s.clone()),
            TokenType::Type(s) => TokenType::Type(s.clone()),
            TokenType::Number(s) => TokenType::Number(s.clone()),
            TokenType::Float(s) => TokenType::Float(s.clone()),
            TokenType::Operator(s) => TokenType::Operator(s.clone()),
            TokenType::StuckOperator(s) => TokenType::StuckOperator(s.clone()),
            TokenType::Keyword(s) => TokenType::Keyword(s.clone()),
            TokenType::MacroVar(s) => TokenType::MacroVar(s.clone()),
            TokenType::MacroInvoc(s) => TokenType::MacroInvoc(s.clone()),
            TokenType::String(s) => TokenType::String(s.clone()),
            TokenType::Comment(s) => TokenType::Comment(s.clone()),
            TokenType::Char(c) => TokenType::Char(*c),
            TokenType::Indent(l) => TokenType::Indent(*l),
            TokenType::MacroRepeatOpen => TokenType::MacroRepeatOpen,
            TokenType::MacroRepeatClose => TokenType::MacroRepeatClose,
            TokenType::Equal => TokenType::Equal,
            TokenType::OpenParen => TokenType::OpenParen,
            TokenType::CloseParen => TokenType::CloseParen,
            TokenType::OpenBracket => TokenType::OpenBracket,
            TokenType::CloseBracket => TokenType::CloseBracket,
            TokenType::SimpleQuote => TokenType::SimpleQuote,
            TokenType::DoubleQuote => TokenType::DoubleQuote,
            TokenType::Arrow => TokenType::Arrow,
            TokenType::FatArrow => TokenType::FatArrow,
            TokenType::Coma => TokenType::Coma,
            TokenType::Colon => TokenType::Colon,
            TokenType::DoubleColon => TokenType::DoubleColon,
            TokenType::Dot => TokenType::Dot,
            TokenType::SpacedDot => TokenType::SpacedDot,
            TokenType::DoubleDot => TokenType::DoubleDot,
            TokenType::Arobase => TokenType::Arobase,
            TokenType::Interogation => TokenType::Interogation,
            TokenType::Underscore => TokenType::Underscore,
            TokenType::Eol => TokenType::Eol,
            TokenType::Eof => TokenType::Eof,
        }
    }
}

impl Clone for Token {
    fn clone(&self) -> (res: Self)
        ensures
            res == *self,
    {
        Token { token_type: self.token_type.clone(), span: self.span.clone() }
    }
}

/// Tokens compare by their type alone: where they stand does not matter.
impl PartialEq for Token {
    fn eq(&self, other: &Self) -> (res: bool) {
        self.token_type.same_as(&other.token_type)
    }
}

impl vstd::std_specs::cmp::PartialEqSpecImpl for Token {
    open spec fn obeys_eq_spec() -> bool {
        true
    }

    open spec fn eq_spec(&self, other: &Token) -> bool {
        same_token_type(self.token_type, other.token_type)
    }
}

} // verus!
