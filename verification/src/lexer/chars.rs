use vstd::prelude::*;

verus! {

/// What `char::is_alphabetic` answers for `c` (the Unicode `Alphabetic` property).
pub uninterp spec fn unicode_alphabetic(c: char) -> bool;

/// What `char::is_alphanumeric` answers for `c` (`Alphabetic` or `Numeric`).
pub uninterp spec fn unicode_alphanumeric(c: char) -> bool;

/// What `char::is_whitespace` answers for `c` (the Unicode `White_Space` property).
pub uninterp spec fn unicode_whitespace(c: char) -> bool;

/// An ASCII letter.
pub open spec fn is_ascii_letter(c: char) -> bool {
    ('a' <= c && c <= 'z') || ('A' <= c && c <= 'Z')
}

/// Calls `char::is_alphabetic`; its answer is named `unicode_alphabetic`, since the
/// Unicode tables it consults are not restated here. Of ASCII characters,
/// the Unicode `Alphabetic` property holds of the letters alone.
#[verifier::external_body]
pub(crate) fn is_alphabetic(c: char) -> (res: bool)
    ensures
        res == unicode_alphabetic(c),
        c <= '\x7f' ==> (res <==> is_ascii_letter(c)),
{
    c.is_alphabetic()
}

/// Calls `char::is_alphanumeric`; its answer is named `unicode_alphanumeric`.
/// Of ASCII characters, the letters and the decimal digits are alphabetic or
/// numeric, and no other.
#[verifier::external_body]
pub(crate) fn is_alphanumeric(c: char) -> (res: bool)
    ensures
        res == unicode_alphanumeric(c),
        c <= '\x7f' ==> (res <==> (is_ascii_letter(c) || ('0' <= c && c <= '9'))),
{
    c.is_alphanumeric()
}

/// Calls `char::is_whitespace`; its answer is named `unicode_whitespace`.
/// Of ASCII characters, `White_Space` holds of the space and of the tab,
/// line feed, vertical tab, form feed and carriage return (U+0009 to U+000D).
#[verifier::external_body]
pub(crate) fn is_whitespace(c: char) -> (res: bool)
    ensures
        res == unicode_whitespace(c),
        c <= '\x7f' ==> (res <==> (c == ' ' || ('\t' <= c && c <= '\r'))),
{
    c.is_whitespace()
}

/// Decimal digits, as `char::is_digit(10)` defines them.
pub open spec fn is_decimal_digit(c: char) -> bool {
    '0' <= c && c <= '9'
}

pub fn is_digit(c: char) -> (res: bool)
    ensures
        res == is_decimal_digit(c),
{
    '0' <= c && c <= '9'
}

/// Uppercase ASCII letters start type names.
pub open spec fn is_type_start(c: char) -> bool {
    'A' <= c && c <= 'Z'
}

/// Characters that may continue an identifier.
pub open spec fn is_ident_char(c: char) -> bool {
    unicode_alphanumeric(c) || c == '_'
}

/// Characters of which operators are made.
pub open spec fn is_operator_char(c: char) -> bool {
    c == '+' || c == '-' || c == '*' || c == '/' || c == '=' || c == '!' || c == '<' || c == '>'
        || c == '$' || c == '|' || c == '&' || c == '%'
}

pub fn is_operator_char_exec(c: char) -> (res: bool)
    ensures
        res == is_operator_char(c),
{
    c == '+' || c == '-' || c == '*' || c == '/' || c == '=' || c == '!' || c == '<' || c == '>'
        || c == '$' || c == '|' || c == '&' || c == '%'
}

/// Compares the characters of `s` with those of the literal `lit`.
pub fn text_is(s: &str, lit: &str) -> (res: bool)
    ensures
        res == (s@ == lit@),
{
    let n = s.unicode_len();
    let m = lit.unicode_len();
    if n != m {
        return false;
    }
    let mut i: usize = 0;
    while i < n
        invariant
            n == s@.len(),
            m == lit@.len(),
            n == m,
            i <= n,
            forall|j: int| 0 <= j < i ==> s@[j] == lit@[j],
        decreases n - i,
    {
        if s.get_char(i) != lit.get_char(i) {
            return false;
        }
        i = i + 1;
    }
    assert(s@ =~= lit@);
    true
}

/// The words that the lexer turns into keywords.
pub open spec fn is_keyword(w: Seq<char>) -> bool {
    ||| w == "if"@
    ||| w == "then"@
    ||| w == "else"@
    ||| w == "for"@
    ||| w == "in"@
    ||| w == "while"@
    ||| w == "loop"@
    ||| w == "match"@
    ||| w == "unsafe"@
    ||| w == "return"@
    ||| w == "continue"@
    ||| w == "break"@
    ||| w == "macro"@
    ||| w == "struct"@
    ||| w == "enum"@
    ||| w == "trait"@
    ||| w == "impl"@
    ||| w == "infix"@
    ||| w == "mod"@
    ||| w == "extern"@
    ||| w == "type"@
    ||| w == "true"@
    ||| w == "false"@
}

pub fn keyword(w: &str) -> (res: bool)
    ensures
        res == is_keyword(w@),
{
    text_is(w, "if") || text_is(w, "then") || text_is(w, "else") || text_is(w, "for")
        || text_is(w, "in") || text_is(w, "while") || text_is(w, "loop") || text_is(w, "match")
        || text_is(w, "unsafe") || text_is(w, "return") || text_is(w, "continue")
        || text_is(w, "break") || text_is(w, "macro") || text_is(w, "struct")
        || text_is(w, "enum") || text_is(w, "trait") || text_is(w, "impl")
        || text_is(w, "infix") || text_is(w, "mod") || text_is(w, "extern")
        || text_is(w, "type") || text_is(w, "true") || text_is(w, "false")
}

} // verus!
