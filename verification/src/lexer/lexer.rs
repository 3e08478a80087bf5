use vstd::prelude::*;

use crate::lexer::chars::{
    is_alphabetic, is_alphanumeric, is_decimal_digit, is_digit, is_ident_char, is_keyword,
    is_operator_char, is_operator_char_exec, is_type_start, is_whitespace, keyword,
    unicode_alphabetic, unicode_alphanumeric, unicode_whitespace,
};
use crate::lexer::token::{same_token_type, token_text};
use crate::lexer::{Span, Token, TokenType};

verus! {

#[derive(Debug)]
pub enum LexerError {
    UnknownToken(char, Span),
}

/// The character at `i`, or `'\0'` past either end of the input.
pub open spec fn char_at(s: Seq<char>, i: int) -> char {
    if 0 <= i < s.len() {
        s[i]
    } else {
        '\0'
    }
}

/// Whitespace that does not end a line.
pub open spec fn is_blank(c: char) -> bool {
    unicode_whitespace(c) && c != '\n'
}

fn is_blank_exec(c: char) -> (res: bool)
    ensures
        res == is_blank(c),
{
    is_whitespace(c) && c != '\n'
}

/// Where the next token starts when reading from `pos`: past the spaces and
/// tabs, stopping at a line end.
pub open spec fn skip_blank(src: Seq<char>, pos: int) -> int
    decreases src.len() - pos,
{
    if 0 <= pos < src.len() && is_blank(src[pos]) {
        skip_blank(src, pos + 1)
    } else {
        pos
    }
}

/// A word (letters, digits and `_`) read at `p` up to `e`: a keyword, a type
/// name when its first letter is uppercase, else an identifier.
pub open spec fn word_read(src: Seq<char>, p: int, e: int, tt: TokenType) -> bool {
    let w = src.subrange(p, e);
    &&& p < e <= src.len()
    &&& forall|i: int| p < i < e ==> #[trigger] is_ident_char(src[i])
    &&& (e == src.len() || !is_ident_char(src[e]))
    &&& if is_keyword(w) {
        tt matches TokenType::Keyword(k) && k@ == w
    } else if is_type_start(w[0]) {
        tt matches TokenType::Type(k) && k@ == w
    } else {
        tt matches TokenType::Ident(k) && k@ == w
    }
}

/// An operator read at `p` up to `e`: the longest run of operator
/// characters; a lone `=` is `Equal`; it is stuck to what follows when
/// something follows it closely and it stands after a blank, an opening
/// bracket, a comma, or at the start of the input.
pub open spec fn operator_read(src: Seq<char>, p: int, e: int, tt: TokenType) -> bool {
    let text = src.subrange(p, e);
    let next = char_at(src, e);
    let prev = char_at(src, if p == 0 { 0 } else { p - 1 });
    let stuck = next != '\0' && !unicode_whitespace(next) && (p == 0 || unicode_whitespace(prev)
        || prev == '(' || prev == '[' || prev == ',');
    &&& p < e <= src.len()
    &&& forall|i: int| p <= i < e ==> #[trigger] is_operator_char(src[i])
    &&& !is_operator_char(next)
    &&& if e == p + 1 && src[p] == '=' {
        tt is Equal
    } else if stuck {
        tt matches TokenType::StuckOperator(o) && o@ == text
    } else {
        tt matches TokenType::Operator(o) && o@ == text
    }
}

/// The name after a `$` or a `%`, read from `s` up to `e`: the longest run of
/// letters and digits.
pub open spec fn sigil_name_read(src: Seq<char>, s: int, e: int, name: Seq<char>) -> bool {
    &&& s <= e <= src.len()
    &&& name == src.subrange(s, e)
    &&& forall|i: int| s <= i < e ==> #[trigger] unicode_alphanumeric(src[i])
    &&& (e == src.len() || !unicode_alphanumeric(char_at(src, e)))
}

/// A number read at `p` up to `e`: decimal digits, and a fractional part
/// (a dot then digits) when a dot and a digit follow them.
pub open spec fn number_read(src: Seq<char>, p: int, e: int, tt: TokenType) -> bool {
    &&& p < e <= src.len()
    &&& !is_decimal_digit(char_at(src, e))
    &&& match tt {
        TokenType::Number(x) => {
            &&& x@ == src.subrange(p, e)
            &&& forall|i: int| p <= i < e ==> #[trigger] is_decimal_digit(src[i])
            &&& !(char_at(src, e) == '.' && is_decimal_digit(char_at(src, e + 1)))
        },
        TokenType::Float(x) => {
            &&& x@ == src.subrange(p, e)
            &&& exists|d: int|
                p < d && d + 2 <= e && #[trigger] src[d] == '.' && (forall|i: int|
                    p <= i < d ==> #[trigger] is_decimal_digit(src[i])) && (forall|i: int|
                    d < i < e ==> #[trigger] is_decimal_digit(src[i]))
        },
        _ => false,
    }
}

/// The token `t` is the one that starts at `p` (where no blank stands), as
/// the character there and the next ones tell; a dot after a blank that is
/// not the indentation (`after_indent` says whether the indentation was the
/// last token) is spaced.
pub open spec fn token_read(src: Seq<char>, p: int, after_indent: bool, t: Token) -> bool {
    let c = char_at(src, p);
    let c1 = char_at(src, p + 1);
    let c2 = char_at(src, p + 2);
    let tt = t.token_type;
    let s = t.span.start as int;
    let e = t.span.end as int;
    if c == '\n' {
        fixed_read(t, TokenType::Eol, p, 1)
    } else if c == '-' && c1 == '>' {
        fixed_read(t, TokenType::Arrow, p, 2)
    } else if c == '=' && c1 == '>' {
        fixed_read(t, TokenType::FatArrow, p, 2)
    } else if c == '$' && unicode_alphabetic(c1) {
        tt matches TokenType::MacroVar(n) && s == p + 1 && sigil_name_read(src, s, e, n@)
    } else if c == '$' && c1 == '(' {
        fixed_read(t, TokenType::MacroRepeatOpen, p, 2)
    } else if c == ')' && c1 == '*' {
        fixed_read(t, TokenType::MacroRepeatClose, p, 2)
    } else if c == '%' && unicode_alphabetic(c1) {
        tt matches TokenType::MacroInvoc(n) && s == p + 1 && sigil_name_read(src, s, e, n@)
    } else if is_operator_char(c) {
        s == p && operator_read(src, p, e, tt)
    } else if c == '(' {
        fixed_read(t, TokenType::OpenParen, p, 1)
    } else if c == ')' {
        fixed_read(t, TokenType::CloseParen, p, 1)
    } else if c == '[' {
        fixed_read(t, TokenType::OpenBracket, p, 1)
    } else if c == ']' {
        fixed_read(t, TokenType::CloseBracket, p, 1)
    } else if c == ',' {
        fixed_read(t, TokenType::Coma, p, 1)
    } else if c == ':' && c1 == ':' {
        fixed_read(t, TokenType::DoubleColon, p, 2)
    } else if c == ':' {
        fixed_read(t, TokenType::Colon, p, 1)
    } else if c == '.' && c1 == '.' {
        fixed_read(t, TokenType::DoubleDot, p, 2)
    } else if c == '.' {
        if p > 0 && unicode_whitespace(char_at(src, p - 1)) && !after_indent {
            fixed_read(t, TokenType::SpacedDot, p, 1)
        } else {
            fixed_read(t, TokenType::Dot, p, 1)
        }
    } else if c == '@' {
        fixed_read(t, TokenType::Arobase, p, 1)
    } else if c == '?' {
        fixed_read(t, TokenType::Interogation, p, 1)
    } else if c == '#' {
        &&& s == p && p < e <= src.len()
        &&& tt matches TokenType::Comment(x) && x@ == src.subrange(p + 1, e)
        &&& forall|i: int| p < i < e ==> #[trigger] src[i] != '\n'
        &&& (e == src.len() || src[e] == '\n')
    } else if c == '"' {
        &&& s == p && p + 2 <= e <= src.len() && src[e - 1] == '"'
        &&& tt matches TokenType::String(x) && x@ == src.subrange(p + 1, e - 1)
        &&& forall|i: int| p < i < e - 1 ==> #[trigger] src[i] != '"'
    } else if c == '\'' && c2 == '\'' {
        fixed_read(t, TokenType::Char(c1), p, 3)
    } else if c == '_' && !(unicode_alphanumeric(c1) || c1 == '_') {
        fixed_read(t, TokenType::Underscore, p, 1)
    } else if c == '\0' {
        fixed_read(t, TokenType::Eof, p, 1)
    } else if p < src.len() && (unicode_alphabetic(c) || c == '_') {
        s == p && word_read(src, p, e, tt)
    } else if is_decimal_digit(c) {
        s == p && number_read(src, p, e, tt)
    } else {
        false
    }
}

/// The token is `k`, read at `p` from `n` characters.
pub open spec fn fixed_read(t: Token, k: TokenType, p: int, n: int) -> bool {
    t.token_type == k && t.span.start == p && t.span.end == p + n
}

/// The tokens start one after the other: none starts before one that comes
/// before it.
pub open spec fn starts_in_order(tokens: Seq<Token>) -> bool {
    forall|i: int, j: int|
        0 <= i <= j < tokens.len() ==> #[trigger] tokens[i].span.start <= #[trigger] tokens[j].span.start
}

/// No token can start at `p`: an unknown character, or a string that is not
/// closed.
pub open spec fn no_token_at(src: Seq<char>, p: int) -> bool {
    let c = char_at(src, p);
    let c1 = char_at(src, p + 1);
    let c2 = char_at(src, p + 2);
    let known = c == '\n' || is_operator_char(c) || c == '(' || c == ')' || c == '[' || c == ']'
        || c == ',' || c == ':' || c == '.' || c == '@' || c == '?' || c == '#' || c == '"' || (c
        == '\'' && c2 == '\'') || c == '_' || (p < src.len() && unicode_alphabetic(c))
        || is_decimal_digit(c) || c == '\0';
    ||| !known
    ||| (c == '"' && forall|i: int| p < i < src.len() ==> #[trigger] src[i] != '"')
}

/// A line starts at `pos` (the input starts, or a line end is just behind)
/// and its indentation was not read yet.
pub open spec fn at_line_start(src: Seq<char>, pos: int, after_indent: bool) -> bool {
    !(char_at(src, if pos == 0 { 0 } else { pos - 1 }) != '\n' && pos != 0 || pos == src.len())
        && !after_indent
}

/// Where the next token read from `pos` starts.
pub open spec fn token_start(src: Seq<char>, pos: int) -> int {
    if char_at(src, if pos == 0 { 0 } else { pos - 1 }) != '\n' && pos != 0 || pos == src.len() {
        skip_blank(src, pos)
    } else {
        pos
    }
}

/// The indentation read at `pos`: the spaces and tabs up to the first other
/// character, their number as the level.
pub open spec fn indent_read(src: Seq<char>, pos: int, t: Token) -> bool {
    let s = t.span.start as int;
    let e = t.span.end as int;
    &&& s == pos && pos <= e <= src.len()
    &&& t.token_type == TokenType::Indent((e - s) as u8)
    &&& forall|i: int| pos <= i < e ==> #[trigger] is_blank(src[i])
    &&& (e == src.len() || !is_blank(src[e]))
}

/// Where a run of blanks from `pos` ends is where reading skips to.
proof fn lemma_skip_blank(src: Seq<char>, pos: int, q: int)
    requires
        0 <= pos <= q,
        q <= src.len() || q == pos,
        forall|i: int| pos <= i < q ==> #[trigger] unicode_whitespace(src[i]) && src[i] != '\n',
        q < src.len() ==> !unicode_whitespace(src[q]) || src[q] == '\n',
    ensures
        skip_blank(src, pos) == q,
    decreases q - pos,
{
    if pos < q {
        assert(unicode_whitespace(src[pos]) && src[pos] != '\n');
        assert forall|i: int| pos + 1 <= i < q implies #[trigger] unicode_whitespace(src[i]) && src[i]
            != '\n' by {
            assert(pos <= i < q);
        }
        lemma_skip_blank(src, pos + 1, q);
    }
}

/// The token read next from `pos`: the indentation at the start of a line,
/// else the token at the next character that is not blank.
pub open spec fn next_read(src: Seq<char>, pos: int, after_indent: bool, t: Token) -> bool {
    if at_line_start(src, pos, after_indent) {
        indent_read(src, pos, t)
    } else {
        token_read(src, token_start(src, pos), after_indent, t)
    }
}

/// `tokens` are read one after the other from `pos`, and none is the end of
/// the input.
pub open spec fn reads(src: Seq<char>, pos: int, after_indent: bool, tokens: Seq<Token>) -> bool
    decreases tokens.len(),
{
    if tokens.len() == 0 {
        true
    } else {
        &&& next_read(src, pos, after_indent, tokens[0])
        &&& !(tokens[0].token_type is Eof)
        &&& reads(src, tokens[0].span.end as int, tokens[0].token_type is Indent, tokens.drop_first())
    }
}

/// Where reading `tokens` from `pos` leaves off, and whether the last token
/// read was an indentation.
pub open spec fn read_end(pos: int, after_indent: bool, tokens: Seq<Token>) -> (int, bool) {
    if tokens.len() == 0 {
        (pos, after_indent)
    } else {
        (tokens.last().span.end as int, tokens.last().token_type is Indent)
    }
}

/// Reading from `pos` meets the end of the input.
pub open spec fn ends_input(src: Seq<char>, pos: int, after_indent: bool) -> bool {
    !at_line_start(src, pos, after_indent) && char_at(src, token_start(src, pos)) == '\0'
}

/// The tokens of a whole input read from `pos`: the first `n` are read one
/// after the other up to the end of the input; then, when asked, a line end
/// (unless the last token read is one) and an empty last line; then the end
/// of file.
pub open spec fn lexed(
    src: Seq<char>,
    pos: int,
    after_indent: bool,
    adds_newline: bool,
    tokens: Seq<Token>,
    n: int,
) -> bool {
    let read = tokens.take(n);
    let end = read_end(pos, after_indent, read);
    &&& 0 <= n < tokens.len()
    &&& reads(src, pos, after_indent, read)
    &&& ends_input(src, end.0, end.1)
    &&& trailer_of(adds_newline, tokens, n)
}

/// What follows the first `n` tokens, which were read from the input: when
/// asked, a line end (unless the last token read is one) and an empty last
/// line; then the end of file.
pub open spec fn trailer_of(adds_newline: bool, tokens: Seq<Token>, n: int) -> bool {
    let rest = tokens.skip(n);
    if !adds_newline {
        rest.len() == 1 && rest[0].token_type is Eof
    } else if n > 0 && !(tokens[n - 1].token_type is Eol) {
        &&& rest.len() == 4
        &&& rest[0].token_type is Eol
        &&& rest[1].token_type == TokenType::Indent(0)
        &&& rest[2].token_type is Eol
        &&& rest[3].token_type is Eof
    } else {
        &&& rest.len() == 3
        &&& rest[0].token_type == TokenType::Indent(0)
        &&& rest[1].token_type is Eol
        &&& rest[2].token_type is Eof
    }
}

/// Reading tokens one after the other from a given place gives the same
/// tokens each time: the same types (texts compared by their characters) over
/// the same characters.
pub proof fn law_reads_unique(src: Seq<char>, pos: int, after_indent: bool, a: Seq<Token>, b: Seq<Token>)
    requires
        reads(src, pos, after_indent, a),
        reads(src, pos, after_indent, b),
        a.len() == b.len(),
    ensures
        forall|i: int|
            0 <= i < a.len() ==> same_token_type(#[trigger] a[i].token_type, b[i].token_type)
                && a[i].span.start == b[i].span.start && a[i].span.end == b[i].span.end,
    decreases a.len(),
{
    if a.len() > 0 {
        law_next_read_unique(src, pos, after_indent, a[0], b[0]);
        assert((a[0].token_type is Indent) == (b[0].token_type is Indent));
        law_reads_unique(
            src,
            a[0].span.end as int,
            a[0].token_type is Indent,
            a.drop_first(),
            b.drop_first(),
        );
        assert forall|i: int| 0 <= i < a.len() implies same_token_type(
            #[trigger] a[i].token_type,
            b[i].token_type,
        ) && a[i].span.start == b[i].span.start && a[i].span.end == b[i].span.end by {
            if i > 0 {
                assert(a[i] == a.drop_first()[i - 1]);
                assert(b[i] == b.drop_first()[i - 1]);
            }
        }
    }
}

/// The text of a token read from the source is the characters it was read
/// from; the closing of a repetition (written `)*`) and the end of file are
/// the exceptions.
pub proof fn law_token_text_is_source(src: Seq<char>, p: int, after_indent: bool, t: Token)
    requires
        token_read(src, p, after_indent, t),
        !(t.token_type is MacroRepeatClose),
        !(t.token_type is Eof),
    ensures
        token_text(t.token_type) == src.subrange(t.span.start as int, t.span.end as int),
{
    let s = t.span.start as int;
    let e = t.span.end as int;
    let c = char_at(src, p);
    assert(0 <= p);
    if 0 <= p < src.len() {
        assert(c == src[p]);
    }
    if c == '"' {
        assert(src.subrange(s, e) =~= seq!['"'] + src.subrange(p + 1, e - 1) + seq!['"']);
    } else if c == '#' {
        assert(src.subrange(s, e) =~= seq!['#'] + src.subrange(p + 1, e));
    } else {
        assert(token_text(t.token_type) =~= src.subrange(s, e));
    }
}

/// Reading from `pos` after `read` meets a place where no token can be read.
pub open spec fn fails_after(src: Seq<char>, pos: int, after_indent: bool, read: Seq<Token>) -> bool {
    let end = read_end(pos, after_indent, read);
    &&& reads(src, pos, after_indent, read)
    &&& !at_line_start(src, end.0, end.1)
    &&& no_token_at(src, token_start(src, end.0))
}

/// What is read first is read: a prefix of the tokens read one after the
/// other is read the same way, and the next token is read where it ends.
proof fn lemma_reads_prefix(src: Seq<char>, pos: int, after_indent: bool, a: Seq<Token>, k: int)
    requires
        reads(src, pos, after_indent, a),
        0 <= k <= a.len(),
    ensures
        reads(src, pos, after_indent, a.take(k)),
        k < a.len() ==> next_read(
            src,
            read_end(pos, after_indent, a.take(k)).0,
            read_end(pos, after_indent, a.take(k)).1,
            a[k],
        ) && !(a[k].token_type is Eof),
    decreases k,
{
    if k > 0 {
        let rest = a.drop_first();
        lemma_reads_prefix(src, a[0].span.end as int, a[0].token_type is Indent, rest, k - 1);
        assert(a.take(k).drop_first() =~= rest.take(k - 1));
        assert(a.take(k)[0] == a[0]);
        if k - 1 > 0 {
            assert(rest.take(k - 1).last() == a.take(k).last());
        } else {
            assert(a.take(k).last() == a[0]);
        }
        if k < a.len() {
            assert(rest[k - 1] == a[k]);
        }
    } else {
        assert(a.take(0) =~= Seq::<Token>::empty());
    }
}

/// Where no token can start, none is read.
proof fn lemma_no_token_read(src: Seq<char>, p: int, after_indent: bool, t: Token)
    requires
        no_token_at(src, p),
    ensures
        !token_read(src, p, after_indent, t),
{
    let c = char_at(src, p);
    if c == '"' {
        if token_read(src, p, after_indent, t) {
            let e = t.span.end as int;
            assert(src[e - 1] == '"');
        }
    }
}

/// Skipping blanks stops at a character that is not blank, just behind a
/// blank when it moved.
proof fn lemma_skip_blank_stops(src: Seq<char>, pos: int)
    requires
        0 <= pos,
    ensures
        pos <= skip_blank(src, pos),
        skip_blank(src, pos) == pos || (0 < skip_blank(src, pos) <= src.len() && is_blank(
            src[skip_blank(src, pos) - 1],
        )),
        !(0 <= skip_blank(src, pos) < src.len() && is_blank(src[skip_blank(src, pos)])),
    decreases src.len() - pos,
{
    if 0 <= pos < src.len() && is_blank(src[pos]) {
        lemma_skip_blank_stops(src, pos + 1);
    }
}

/// Reading fails where it failed before: where no token can be read, the
/// place where reading stopped is again not the start of a line, reading
/// from it starts at it, and no token is read there.
pub proof fn law_failed_read_fails_again(src: Seq<char>, pos: int, after_indent: bool, t: Token)
    requires
        0 <= pos,
        !at_line_start(src, pos, after_indent),
        no_token_at(src, token_start(src, pos)),
    ensures
        !at_line_start(src, token_start(src, pos), after_indent),
        token_start(src, token_start(src, pos)) == token_start(src, pos),
        !token_read(src, token_start(src, token_start(src, pos)), after_indent, t),
{
    let q = token_start(src, pos);
    if char_at(src, if pos == 0 { 0 } else { pos - 1 }) != '\n' && pos != 0 || pos == src.len() {
        lemma_skip_blank_stops(src, pos);
        if q != pos {
            assert(is_blank(src[q - 1]));
            assert(char_at(src, q - 1) == src[q - 1]);
        }
        assert(char_at(src, if q == 0 { 0 } else { q - 1 }) != '\n' && q != 0 || q == src.len());
        lemma_skip_blank_stops(src, q);
        if q < src.len() {
            assert(!is_blank(src[q]));
        }
        assert(skip_blank(src, q) == q);
    } else {
        assert(after_indent);
        assert(q == pos);
        if char_at(src, if q == 0 { 0 } else { q - 1 }) != '\n' && q != 0 || q == src.len() {
            lemma_skip_blank_stops(src, q);
            if q < src.len() {
                assert(!is_blank(src[q]));
            }
        }
    }
    lemma_no_token_read(src, token_start(src, pos), after_indent, t);
}

/// Two reads from the same place that agree token by token end at the same
/// place, in the same state.
proof fn lemma_same_reads_same_end(src: Seq<char>, pos: int, after_indent: bool, a: Seq<Token>, b: Seq<Token>)
    requires
        reads(src, pos, after_indent, a),
        reads(src, pos, after_indent, b),
        a.len() == b.len(),
    ensures
        read_end(pos, after_indent, a) == read_end(pos, after_indent, b),
{
    law_reads_unique(src, pos, after_indent, a, b);
    if a.len() > 0 {
        let i = a.len() - 1;
        assert(same_token_type(a[i].token_type, b[i].token_type));
        assert((a[i].token_type is Indent) == (b[i].token_type is Indent));
    }
}

/// Reading the input to its end and meeting a place where no token can be
/// read exclude each other: the lexing of an input either succeeds or fails.
pub proof fn law_lexing_succeeds_or_fails(
    src: Seq<char>,
    pos: int,
    after_indent: bool,
    adds_newline: bool,
    tokens: Seq<Token>,
    n: int,
    read: Seq<Token>,
)
    requires
        lexed(src, pos, after_indent, adds_newline, tokens, n),
    ensures
        !fails_after(src, pos, after_indent, read),
{
    if fails_after(src, pos, after_indent, read) {
        let whole = tokens.take(n);
        if read.len() <= whole.len() {
            let k = read.len() as int;
            lemma_reads_prefix(src, pos, after_indent, whole, k);
            lemma_same_reads_same_end(src, pos, after_indent, read, whole.take(k));
            let end = read_end(pos, after_indent, read);
            if k < whole.len() {
                lemma_no_token_read(src, token_start(src, end.0), end.1, whole[k]);
            } else {
                assert(whole.take(k) =~= whole);
            }
        } else {
            let k = whole.len() as int;
            lemma_reads_prefix(src, pos, after_indent, read, k);
            lemma_same_reads_same_end(src, pos, after_indent, read.take(k), whole);
        }
    }
}

/// Lexing the same input from the same place reads the same tokens before
/// the added end, whether or not an empty last line is added.
pub proof fn law_lexing_same_reads(
    src: Seq<char>,
    pos: int,
    after_indent: bool,
    a_newline: bool,
    a: Seq<Token>,
    na: int,
    b_newline: bool,
    b: Seq<Token>,
    nb: int,
)
    requires
        lexed(src, pos, after_indent, a_newline, a, na),
        lexed(src, pos, after_indent, b_newline, b, nb),
    ensures
        na == nb,
        forall|i: int|
            0 <= i < na ==> same_token_type(#[trigger] a[i].token_type, b[i].token_type)
                && a[i].span.start == b[i].span.start && a[i].span.end == b[i].span.end,
{
    let ra = a.take(na);
    let rb = b.take(nb);
    if na < nb {
        lemma_reads_prefix(src, pos, after_indent, rb, na);
        lemma_same_reads_same_end(src, pos, after_indent, ra, rb.take(na));
        assert(false);
    } else if nb < na {
        lemma_reads_prefix(src, pos, after_indent, ra, nb);
        lemma_same_reads_same_end(src, pos, after_indent, ra.take(nb), rb);
        assert(false);
    }
    law_reads_unique(src, pos, after_indent, ra, rb);
    assert forall|i: int| 0 <= i < na implies same_token_type(#[trigger] a[i].token_type, b[i].token_type)
        && a[i].span.start == b[i].span.start && a[i].span.end == b[i].span.end by {
        assert(ra[i] == a[i]);
        assert(rb[i] == b[i]);
    }
}

/// Adding an empty last line changes only the end: the tokens read from the
/// input are the same; without it the end of file follows them; with it a
/// line end follows them (unless the last of them is one), then an empty
/// line and the end of file.
pub proof fn law_newline_at_end(
    src: Seq<char>,
    pos: int,
    after_indent: bool,
    plain: Seq<Token>,
    np: int,
    added: Seq<Token>,
    na: int,
)
    requires
        lexed(src, pos, after_indent, false, plain, np),
        lexed(src, pos, after_indent, true, added, na),
    ensures
        np == na,
        forall|i: int|
            0 <= i < np ==> same_token_type(#[trigger] plain[i].token_type, added[i].token_type),
        plain.len() == np + 1,
        plain[np].token_type is Eof,
        if np > 0 && !(plain[np - 1].token_type is Eol) {
            &&& added.len() == np + 4
            &&& added[np].token_type is Eol
            &&& added[np + 1].token_type == TokenType::Indent(0)
            &&& added[np + 2].token_type is Eol
            &&& added[np + 3].token_type is Eof
        } else {
            &&& added.len() == np + 3
            &&& added[np].token_type == TokenType::Indent(0)
            &&& added[np + 1].token_type is Eol
            &&& added[np + 2].token_type is Eof
        },
{
    law_lexing_same_reads(src, pos, after_indent, false, plain, np, true, added, na);
    assert(plain.skip(np)[0] == plain[np]);
    if np > 0 {
        assert(same_token_type(plain[np - 1].token_type, added[np - 1].token_type));
        assert((plain[np - 1].token_type is Eol) == (added[np - 1].token_type is Eol));
    }
    let rest = added.skip(na);
    if np > 0 && !(plain[np - 1].token_type is Eol) {
        assert(rest[0] == added[np] && rest[1] == added[np + 1] && rest[2] == added[np + 2] && rest[3]
            == added[np + 3]);
    } else {
        assert(rest[0] == added[np] && rest[1] == added[np + 1] && rest[2] == added[np + 2]);
    }
}

/// Two lexings of the same input read the same tokens: as many, of the same
/// types (texts compared by their characters), over the same characters.
pub proof fn law_lexing_unique(
    src: Seq<char>,
    pos: int,
    after_indent: bool,
    adds_newline: bool,
    a: Seq<Token>,
    na: int,
    b: Seq<Token>,
    nb: int,
)
    requires
        lexed(src, pos, after_indent, adds_newline, a, na),
        lexed(src, pos, after_indent, adds_newline, b, nb),
    ensures
        na == nb,
        forall|i: int|
            0 <= i < na ==> same_token_type(#[trigger] a[i].token_type, b[i].token_type)
                && a[i].span.start == b[i].span.start && a[i].span.end == b[i].span.end,
{
    let ra = a.take(na);
    let rb = b.take(nb);
    if na < nb {
        lemma_reads_prefix(src, pos, after_indent, rb, na);
        lemma_same_reads_same_end(src, pos, after_indent, ra, rb.take(na));
        assert(false);
    } else if nb < na {
        lemma_reads_prefix(src, pos, after_indent, ra, nb);
        lemma_same_reads_same_end(src, pos, after_indent, ra.take(nb), rb);
        assert(false);
    }
    law_reads_unique(src, pos, after_indent, ra, rb);
    assert forall|i: int| 0 <= i < na implies same_token_type(#[trigger] a[i].token_type, b[i].token_type)
        && a[i].span.start == b[i].span.start && a[i].span.end == b[i].span.end by {
        assert(ra[i] == a[i]);
        assert(rb[i] == b[i]);
    }
}

/// Reading one more token after `tokens` extends what was read.
proof fn lemma_reads_push(src: Seq<char>, pos: int, after_indent: bool, tokens: Seq<Token>, t: Token)
    requires
        reads(src, pos, after_indent, tokens),
        next_read(src, read_end(pos, after_indent, tokens).0, read_end(pos, after_indent, tokens).1, t),
        !(t.token_type is Eof),
    ensures
        reads(src, pos, after_indent, tokens.push(t)),
    decreases tokens.len(),
{
    let all = tokens.push(t);
    assert(all[0] == if tokens.len() > 0 {
        tokens[0]
    } else {
        t
    });
    if tokens.len() > 0 {
        let rest = tokens.drop_first();
        assert(all.drop_first() =~= rest.push(t));
        if rest.len() > 0 {
            assert(rest.last() == tokens.last());
        } else {
            assert(tokens.last() == tokens[0]);
        }
        assert(reads(src, tokens[0].span.end as int, tokens[0].token_type is Indent, rest));
        lemma_reads_push(src, tokens[0].span.end as int, tokens[0].token_type is Indent, rest, t);
        assert(reads(src, all[0].span.end as int, all[0].token_type is Indent, all.drop_first()));
    } else {
        assert(all.drop_first() =~= Seq::<Token>::empty());
        assert(reads(src, all[0].span.end as int, all[0].token_type is Indent, all.drop_first()));
    }
}

/// Two runs of characters with a property, both starting at `p` and each
/// stopped by a character without it (or the end), end at the same place.
proof fn lemma_run_end_unique(src: Seq<char>, p: int, e1: int, e2: int, prop: spec_fn(char) -> bool)
    requires
        p <= e1 <= src.len(),
        p <= e2 <= src.len(),
        forall|i: int| p <= i < e1 ==> prop(#[trigger] src[i]),
        forall|i: int| p <= i < e2 ==> prop(#[trigger] src[i]),
        e1 == src.len() || !prop(src[e1]),
        e2 == src.len() || !prop(src[e2]),
    ensures
        e1 == e2,
{
    if e1 < e2 {
        assert(prop(src[e1]));
    } else if e2 < e1 {
        assert(prop(src[e2]));
    }
}

/// Reading a token at a given place gives one token: the same type (texts
/// compared by their characters) over the same characters.
pub proof fn law_token_read_unique(src: Seq<char>, p: int, after_indent: bool, t1: Token, t2: Token)
    requires
        token_read(src, p, after_indent, t1),
        token_read(src, p, after_indent, t2),
    ensures
        same_token_type(t1.token_type, t2.token_type),
        t1.span.start == t2.span.start,
        t1.span.end == t2.span.end,
{
    let c = char_at(src, p);
    let c1 = char_at(src, p + 1);
    let e1 = t1.span.end as int;
    let e2 = t2.span.end as int;
    if c == '$' && unicode_alphabetic(c1) || c == '%' && unicode_alphabetic(c1) {
        lemma_run_end_unique(src, p + 1, e1, e2, |x: char| unicode_alphanumeric(x));
    } else if is_operator_char(c) && !(c == '-' && c1 == '>') && !(c == '=' && c1 == '>') && !(c
        == '$' && c1 == '(') {
        if e1 < e2 {
            assert(is_operator_char(src[e1]));
        } else if e2 < e1 {
            assert(is_operator_char(src[e2]));
        }
        assert(src.subrange(p, e1) =~= src.subrange(p, e2));
    } else if c == '#' {
        lemma_run_end_unique(src, p + 1, e1, e2, |x: char| x != '\n');
    } else if c == '"' {
        if e1 < e2 {
            assert(src[e1 - 1] == '"');
        } else if e2 < e1 {
            assert(src[e2 - 1] == '"');
        }
    } else if c == '_' && !(unicode_alphanumeric(c1) || c1 == '_') {
    } else if p < src.len() && (unicode_alphabetic(c) || c == '_') {
        if e1 < e2 {
            assert(is_ident_char(src[e1]));
        } else if e2 < e1 {
            assert(is_ident_char(src[e2]));
        }
        assert(src.subrange(p, e1) =~= src.subrange(p, e2));
    } else if is_decimal_digit(c) {
        lemma_number_read_unique(src, p, e1, e2, t1.token_type, t2.token_type);
    }
}

/// A number is read to one end, as one kind of number.
proof fn lemma_number_read_unique(src: Seq<char>, p: int, e1: int, e2: int, a: TokenType, b: TokenType)
    requires
        number_read(src, p, e1, a),
        number_read(src, p, e2, b),
        is_decimal_digit(char_at(src, p)),
    ensures
        e1 == e2,
        same_token_type(a, b),
{
    let digit = |x: char| is_decimal_digit(x);
    // the run of digits that starts the number ends at `d`
    let d1: int = if a is Float {
        choose|d: int|
            p < d && d + 2 <= e1 && #[trigger] src[d] == '.' && (forall|i: int|
                p <= i < d ==> #[trigger] is_decimal_digit(src[i])) && (forall|i: int|
                d < i < e1 ==> #[trigger] is_decimal_digit(src[i]))
    } else {
        e1
    };
    let d2: int = if b is Float {
        choose|d: int|
            p < d && d + 2 <= e2 && #[trigger] src[d] == '.' && (forall|i: int|
                p <= i < d ==> #[trigger] is_decimal_digit(src[i])) && (forall|i: int|
                d < i < e2 ==> #[trigger] is_decimal_digit(src[i]))
    } else {
        e2
    };
    assert(d1 == src.len() || !digit(src[d1]));
    assert(d2 == src.len() || !digit(src[d2]));
    lemma_run_end_unique(src, p, d1, d2, digit);
    if a is Float && b is Float {
        lemma_run_end_unique(src, d1 + 1, e1, e2, digit);
        assert(src.subrange(p, e1) =~= src.subrange(p, e2));
    } else if a is Float {
        assert(src[d1] == '.' && is_decimal_digit(src[d1 + 1]));
        assert(char_at(src, e2) == '.' && is_decimal_digit(char_at(src, e2 + 1)));
    } else if b is Float {
        assert(src[d2] == '.' && is_decimal_digit(src[d2 + 1]));
        assert(char_at(src, e1) == '.' && is_decimal_digit(char_at(src, e1 + 1)));
    } else {
        assert(src.subrange(p, e1) =~= src.subrange(p, e2));
    }
}

/// Reading the next token from a given place gives one token: the same
/// type (texts compared by their characters) over the same characters.
pub proof fn law_next_read_unique(src: Seq<char>, pos: int, after_indent: bool, t1: Token, t2: Token)
    requires
        next_read(src, pos, after_indent, t1),
        next_read(src, pos, after_indent, t2),
    ensures
        same_token_type(t1.token_type, t2.token_type),
        t1.span.start == t2.span.start,
        t1.span.end == t2.span.end,
{
    if at_line_start(src, pos, after_indent) {
        lemma_run_end_unique(src, pos, t1.span.end as int, t2.span.end as int, |x: char| is_blank(x));
    } else {
        law_token_read_unique(src, token_start(src, pos), after_indent, t1, t2);
    }
}

/// Turns a source text into tokens. Each line starts with an `Indent` token
/// that gives its indentation width.
pub struct Lexer {
    file_path: String,
    input: String,
    len: usize,
    position: usize,
    last_token: Option<Token>,
    /// true by default, is turned off for the parser unit tests
    add_empty_newline_at_end: bool,
}

impl Lexer {
    pub closed spec fn wf(&self) -> bool {
        &&& self.len == self.input@.len()
        &&& self.len + 2 <= usize::MAX
    }

    /// The characters being lexed.
    pub closed spec fn source(&self) -> Seq<char> {
        self.input@
    }

    pub closed spec fn pos(&self) -> int {
        self.position as int
    }

    pub closed spec fn path(&self) -> Seq<char> {
        self.file_path@
    }

    pub closed spec fn adds_newline(&self) -> bool {
        self.add_empty_newline_at_end
    }

    pub closed spec fn after_indent(&self) -> bool {
        self.last_token matches Some(t) && t.token_type is Indent
    }

    /// Decreases with every token but the end of file.
    pub closed spec fn measure(&self) -> int {
        2 * (self.len + 1 - self.position) + if self.after_indent() {
            0int
        } else {
            1int
        }
    }

    pub fn new(file_path: String, input: &str) -> (res: Result<Self, LexerError>)
        requires
            input@.len() + 2 <= usize::MAX,
        ensures
            res matches Ok(lexer) && {
                &&& lexer.wf()
                &&& lexer.source() == input@
                &&& lexer.path() == file_path@
                &&& lexer.pos() == 0
                &&& !lexer.after_indent()
                &&& lexer.adds_newline()
            },
    {
        let len = input.unicode_len();
        Ok(
            Lexer {
                file_path,
                input: input.to_owned(),
                len,
                position: 0,
                last_token: None,
                add_empty_newline_at_end: true,
            },
        )
    }

    pub fn with_newline_at_end(self, add_empty_newline_at_end: bool) -> (res: Self)
        ensures
            res.wf() == self.wf(),
            res.source() == self.source(),
            res.path() == self.path(),
            res.pos() == self.pos(),
            res.after_indent() == self.after_indent(),
            res.adds_newline() == add_empty_newline_at_end,
    {
        let mut lexer = self;
        lexer.add_empty_newline_at_end = add_empty_newline_at_end;
        lexer
    }

    fn span(&self, len: usize) -> (res: Span)
        requires
            self.position + len <= usize::MAX,
        ensures
            res.file_path@ == self.file_path@,
            res.start == self.position,
            res.end == self.position + len,
    {
        Span { file_path: self.file_path.clone(), start: self.position, end: self.position + len }
    }

    fn token(&self, token_type: TokenType, len: usize) -> (res: Token)
        requires
            self.position + len <= usize::MAX,
        ensures
            res.token_type == token_type,
            res.span.file_path@ == self.file_path@,
            res.span.start == self.position,
            res.span.end == self.position + len,
    {
        Token { token_type, span: self.span(len) }
    }

    fn char_at(&self, i: usize) -> (c: char)
        requires
            self.wf(),
        ensures
            c == char_at(self.input@, i as int),
    {
        if i < self.len {
            self.input.as_str().get_char(i)
        } else {
            '\0'
        }
    }

    fn current_char(&self) -> (c: char)
        requires
            self.wf(),
        ensures
            c == char_at(self.input@, self.position as int),
    {
        self.char_at(self.position)
    }

    fn prev_char(&self) -> (c: char)
        requires
            self.wf(),
        ensures
            c == char_at(self.input@, if self.position == 0 { 0 } else { self.position - 1 }),
    {
        self.char_at(self.position.saturating_sub(1))
    }

    fn peek(&self, n: usize) -> (c: char)
        requires
            self.wf(),
            self.position + n <= usize::MAX,
        ensures
            c == char_at(self.input@, self.position + n),
    {
        self.char_at(self.position + n)
    }

    /// The text of the input from `start` to `end`.
    fn text(&self, start: usize, end: usize) -> (s: String)
        requires
            self.wf(),
            start <= end <= self.len,
        ensures
            s@ == self.input@.subrange(start as int, end as int),
    {
        self.input.as_str().substring_char(start, end).to_owned()
    }

    /// Moves past spaces and tabs, stopping at a line end.
    fn skip_whitespace(&mut self)
        requires
            old(self).wf(),
        ensures
            final(self).wf(),
            final(self).input == old(self).input,
            final(self).file_path == old(self).file_path,
            final(self).last_token == old(self).last_token,
            final(self).add_empty_newline_at_end == old(self).add_empty_newline_at_end,
            old(self).position <= final(self).position,
            final(self).position <= if old(self).position <= old(self).len {
                old(self).len as int
            } else {
                old(self).position as int
            },
            forall|i: int|
                old(self).position <= i < final(self).position ==> #[trigger] unicode_whitespace(
                    final(self).input@[i],
                ) && final(self).input@[i] != '\n',
            final(self).position < final(self).len ==> !unicode_whitespace(
                final(self).input@[final(self).position as int],
            ) || final(self).input@[final(self).position as int] == '\n',
    {
        while self.position < self.len && is_whitespace(self.current_char())
            && self.current_char() != '\n'
            invariant
                self.wf(),
                self.input == old(self).input,
                self.len == old(self).len,
                self.file_path == old(self).file_path,
                self.last_token == old(self).last_token,
                self.add_empty_newline_at_end == old(self).add_empty_newline_at_end,
                old(self).position <= self.position,
                self.position <= if old(self).position <= old(self).len {
                    old(self).len as int
                } else {
                    old(self).position as int
                },
                forall|i: int|
                    old(self).position <= i < self.position ==> #[trigger] unicode_whitespace(
                        self.input@[i],
                    ) && self.input@[i] != '\n',
            decreases self.len - self.position,
        {
            assert(unicode_whitespace(self.input@[self.position as int]));
            self.position = self.position + 1;
        }
    }

    /// The indentation of the line that starts here: spaces and tabs up to the
    /// first other character.
    fn indent(&self) -> (res: Token)
        requires
            self.wf(),
            self.position <= self.len,
        ensures
            res.span.start == self.position,
            self.position <= res.span.end <= self.len,
            res.token_type == TokenType::Indent((res.span.end - res.span.start) as u8),
            forall|i: int| self.position <= i < res.span.end ==> #[trigger] is_blank(self.input@[i]),
            res.span.end < self.len ==> !is_blank(self.input@[res.span.end as int]),
    {
        let start = self.position;
        let mut end = self.position;
        while end < self.len && is_blank_exec(self.char_at(end))
            invariant
                self.wf(),
                start == self.position,
                start <= end <= self.len,
                forall|i: int| start <= i < end ==> #[trigger] is_blank(self.input@[i]),
            decreases self.len - end,
        {
            end = end + 1;
        }
        self.token(TokenType::Indent((end - start) as u8), end - start)
    }

    /// A run of operator characters; a lone `=` is the `Equal` token.
    fn operator(&self) -> (res: Token)
        requires
            self.wf(),
            self.position < self.len,
            is_operator_char(self.input@[self.position as int]),
        ensures
            res.span.start == self.position,
            self.position < res.span.end <= self.len,
            forall|i: int|
                self.position <= i < res.span.end ==> #[trigger] is_operator_char(
                    self.input@[i],
                ),
            !is_operator_char(char_at(self.input@, res.span.end as int)),
            res.token_type is Equal ==> self.input@.subrange(self.position as int, res.span.end as int)
                == "="@,
            res.token_type matches TokenType::Operator(s) ==> s@ == self.input@.subrange(
                self.position as int,
                res.span.end as int,
            ),
            res.token_type matches TokenType::StuckOperator(s) ==> s@ == self.input@.subrange(
                self.position as int,
                res.span.end as int,
            ),
            res.token_type is Equal || res.token_type is Operator || res.token_type is StuckOperator,
            operator_read(self.input@, self.position as int, res.span.end as int, res.token_type),
    {
        let start = self.position;
        let mut end = self.position + 1;
        while end < self.len && is_operator_char_exec(self.char_at(end))
            invariant
                self.wf(),
                start == self.position,
                start < end <= self.len,
                forall|i: int| start <= i < end ==> #[trigger] is_operator_char(self.input@[i]),
            decreases self.len - end,
        {
            end = end + 1;
        }
        let text = self.text(start, end);
        if end == start + 1 && self.char_at(start) == '=' {
            proof {
                assert(text@ =~= "="@) by {
                    reveal_strlit("=");
                }
            }
            return self.token(TokenType::Equal, 1);
        }
        let next = self.char_at(end);
        let prev = self.prev_char();
        let stuck = next != '\0' && !is_whitespace(next) && (start == 0 || is_whitespace(prev)
            || prev == '(' || prev == '[' || prev == ',');
        if stuck {
            self.token(TokenType::StuckOperator(text), end - start)
        } else {
            self.token(TokenType::Operator(text), end - start)
        }
    }

    /// A word: a keyword, a type name (uppercase first letter) or an identifier.
    fn ident_or_keyword(&self) -> (res: Token)
        requires
            self.wf(),
            self.position < self.len,
        ensures
            res.span.start == self.position,
            self.position < res.span.end <= self.len,
            forall|i: int|
                self.position < i < res.span.end ==> #[trigger] is_ident_char(self.input@[i]),
            res.span.end < self.len ==> !is_ident_char(self.input@[res.span.end as int]),
            ({
                let w = self.input@.subrange(self.position as int, res.span.end as int);
                if is_keyword(w) {
                    res.token_type matches TokenType::Keyword(s) && s@ == w
                } else if is_type_start(w[0]) {
                    res.token_type matches TokenType::Type(s) && s@ == w
                } else {
                    res.token_type matches TokenType::Ident(s) && s@ == w
                }
            }),
    {
        let start = self.position;
        let mut end = self.position + 1;
        while end < self.len && (is_alphanumeric(self.char_at(end)) || self.char_at(end) == '_')
            invariant
                self.wf(),
                start == self.position,
                start < end <= self.len,
                forall|i: int| start < i < end ==> #[trigger] is_ident_char(self.input@[i]),
            decreases self.len - end,
        {
            assert(is_ident_char(self.input@[end as int]));
            end = end + 1;
        }
        let ident = self.text(start, end);
        let first = self.char_at(start);
        assert(ident@[0] == first);
        if keyword(ident.as_str()) {
            self.token(TokenType::Keyword(ident), end - start)
        } else if 'A' <= first && first <= 'Z' {
            self.token(TokenType::Type(ident), end - start)
        } else {
            self.token(TokenType::Ident(ident), end - start)
        }
    }

    /// The name that follows a `$` (macro variable) or a `%` (macro invocation);
    /// the sigil is skipped.
    fn sigil_name(&mut self) -> (res: (usize, String))
        requires
            old(self).wf(),
            old(self).position < old(self).len,
        ensures
            final(self).wf(),
            final(self).input == old(self).input,
            final(self).file_path == old(self).file_path,
            final(self).last_token == old(self).last_token,
            final(self).add_empty_newline_at_end == old(self).add_empty_newline_at_end,
            final(self).position == old(self).position + 1,
            final(self).position <= res.0 <= final(self).len,
            res.1@ == final(self).input@.subrange(final(self).position as int, res.0 as int),
            forall|i: int|
                final(self).position <= i < res.0 ==> #[trigger] unicode_alphanumeric(
                    final(self).input@[i],
                ),
            !unicode_alphanumeric(char_at(final(self).input@, res.0 as int)) || res.0
                == final(self).len,
    {
        self.position = self.position + 1;
        let start = self.position;
        let mut end = self.position;
        while end < self.len && is_alphanumeric(self.char_at(end))
            invariant
                self.wf(),
                start == self.position,
                start <= end <= self.len,
                forall|i: int| start <= i < end ==> #[trigger] unicode_alphanumeric(self.input@[i]),
            decreases self.len - end,
        {
            end = end + 1;
        }
        (end, self.text(start, end))
    }

    fn macro_var(&mut self) -> (res: Token)
        requires
            old(self).wf(),
            old(self).position < old(self).len,
        ensures
            final(self).wf(),
            final(self).input == old(self).input,
            final(self).file_path == old(self).file_path,
            final(self).last_token == old(self).last_token,
            final(self).add_empty_newline_at_end == old(self).add_empty_newline_at_end,
            final(self).position == old(self).position + 1,
            res.span.start == final(self).position,
            res.span.start <= res.span.end <= final(self).len,
            res.token_type matches TokenType::MacroVar(s) && s@ == final(self).input@.subrange(
                res.span.start as int,
                res.span.end as int,
            ),
            forall|i: int|
                res.span.start <= i < res.span.end ==> #[trigger] unicode_alphanumeric(
                    final(self).input@[i],
                ),
            res.span.end == final(self).len || !unicode_alphanumeric(
                char_at(final(self).input@, res.span.end as int),
            ),
    {
        let (end, name) = self.sigil_name();
        self.token(TokenType::MacroVar(name), end - self.position)
    }

    fn macro_invoc(&mut self) -> (res: Token)
        requires
            old(self).wf(),
            old(self).position < old(self).len,
        ensures
            final(self).wf(),
            final(self).input == old(self).input,
            final(self).file_path == old(self).file_path,
            final(self).last_token == old(self).last_token,
            final(self).add_empty_newline_at_end == old(self).add_empty_newline_at_end,
            final(self).position == old(self).position + 1,
            res.span.start == final(self).position,
            res.span.start <= res.span.end <= final(self).len,
            res.token_type matches TokenType::MacroInvoc(s) && s@ == final(self).input@.subrange(
                res.span.start as int,
                res.span.end as int,
            ),
            forall|i: int|
                res.span.start <= i < res.span.end ==> #[trigger] unicode_alphanumeric(
                    final(self).input@[i],
                ),
            res.span.end == final(self).len || !unicode_alphanumeric(
                char_at(final(self).input@, res.span.end as int),
            ),
    {
        let (end, name) = self.sigil_name();
        self.token(TokenType::MacroInvoc(name), end - self.position)
    }

    /// Decimal digits, with a fractional part when a dot and a digit follow.
    fn number(&self) -> (res: Token)
        requires
            self.wf(),
            self.position < self.len,
            is_decimal_digit(self.input@[self.position as int]),
        ensures
            res.span.start == self.position,
            self.position < res.span.end <= self.len,
            number_read(self.input@, self.position as int, res.span.end as int, res.token_type),
    {
        let start = self.position;
        let mut end = self.position + 1;
        while end < self.len && is_digit(self.char_at(end))
            invariant
                self.wf(),
                start == self.position,
                start < end <= self.len,
                forall|i: int| start <= i < end ==> #[trigger] is_decimal_digit(self.input@[i]),
            decreases self.len - end,
        {
            end = end + 1;
        }
        if end + 1 < self.len && self.char_at(end) == '.' && is_digit(self.char_at(end + 1)) {
            let dot = end;
            end = end + 2;
            while end < self.len && is_digit(self.char_at(end))
                invariant
                    self.wf(),
                    start == self.position,
                    start < dot,
                    dot + 2 <= end <= self.len,
                    forall|i: int| dot < i < end ==> #[trigger] is_decimal_digit(self.input@[i]),
                decreases self.len - end,
            {
                end = end + 1;
            }
            return self.token(TokenType::Float(self.text(start, end)), end - start);
        }
        self.token(TokenType::Number(self.text(start, end)), end - start)
    }

    /// A `#` comment, up to the end of the line.
    fn comment(&self) -> (res: Token)
        requires
            self.wf(),
            self.position < self.len,
        ensures
            res.span.start == self.position,
            self.position < res.span.end <= self.len,
            res.token_type matches TokenType::Comment(s) && s@ == self.input@.subrange(
                self.position + 1,
                res.span.end as int,
            ),
            forall|i: int| self.position < i < res.span.end ==> #[trigger] self.input@[i] != '\n',
            res.span.end == self.len || self.input@[res.span.end as int] == '\n',
    {
        let start = self.position;
        let mut end = self.position + 1;
        while end < self.len && self.char_at(end) != '\n'
            invariant
                self.wf(),
                start == self.position,
                start < end <= self.len,
                forall|i: int| start < i < end ==> #[trigger] self.input@[i] != '\n',
            decreases self.len - end,
        {
            end = end + 1;
        }
        self.token(TokenType::Comment(self.text(start + 1, end)), end - start)
    }

    /// A string literal: the characters between two double quotes.
    fn string(&self) -> (res: Result<Token, LexerError>)
        requires
            self.wf(),
            self.position < self.len,
        ensures
            res matches Ok(t) ==> {
                &&& t.span.start == self.position
                &&& self.position + 2 <= t.span.end <= self.len
                &&& self.input@[t.span.end - 1] == '"'
                &&& t.token_type matches TokenType::String(s) && s@ == self.input@.subrange(
                    self.position + 1,
                    t.span.end - 1,
                )
                &&& forall|i: int| self.position < i < t.span.end - 1 ==> #[trigger] self.input@[i] != '"'
            },
            res is Err ==> forall|i: int| self.position < i < self.len ==> #[trigger] self.input@[i] != '"',
            res matches Err(LexerError::UnknownToken(c, sp)) ==> c == '"' && sp.start == self.position
                && sp.end == self.position + 1 && sp.file_path@ == self.file_path@,
    {
        let start = self.position;
        let mut end = self.position + 1;
        while end < self.len && self.char_at(end) != '"'
            invariant
                self.wf(),
                start == self.position,
                start < end <= self.len,
                forall|i: int| start < i < end ==> #[trigger] self.input@[i] != '"',
            decreases self.len - end,
        {
            end = end + 1;
        }
        if end == self.len {
            return Err(LexerError::UnknownToken('"', self.span(1)));
        }
        Ok(self.token(TokenType::String(self.text(start + 1, end)), end + 1 - start))
    }

    /// Produces the next token. An `Indent` token opens each line.
    pub fn next(&mut self) -> (res: Result<Token, LexerError>)
        requires
            old(self).wf(),
            old(self).pos() + 2 <= usize::MAX,
        ensures
            final(self).wf(),
            final(self).source() == old(self).source(),
            final(self).path() == old(self).path(),
            final(self).adds_newline() == old(self).adds_newline(),
            res matches Ok(t) ==> t.span.start <= t.span.end,
            res matches Ok(t) ==> old(self).pos() <= t.span.start,
            res matches Ok(t) ==> final(self).pos() == t.span.end,
            res matches Ok(t) ==> final(self).after_indent() == (t.token_type is Indent),
            res matches Ok(t) ==> !(t.token_type is Eof) ==> final(self).pos() <= final(self).source().len(),
            res matches Ok(t) ==> !(t.token_type is Eof) ==> final(self).measure() < old(self).measure(),
            res matches Ok(t) ==> old(self).pos() <= old(self).source().len() ==> final(self).pos()
                <= final(self).source().len() + 1,
            res matches Ok(t) ==> if at_line_start(
                old(self).source(),
                old(self).pos(),
                old(self).after_indent(),
            ) {
                indent_read(old(self).source(), old(self).pos(), t)
            } else {
                token_read(
                    old(self).source(),
                    token_start(old(self).source(), old(self).pos()),
                    old(self).after_indent(),
                    t,
                )
            },
            res is Err ==> !at_line_start(old(self).source(), old(self).pos(), old(self).after_indent())
                && no_token_at(old(self).source(), token_start(old(self).source(), old(self).pos())),
            res matches Err(LexerError::UnknownToken(c, sp)) ==> {
                &&& sp.start == token_start(old(self).source(), old(self).pos())
                &&& sp.end == sp.start + 1
                &&& c == char_at(old(self).source(), sp.start as int)
                &&& sp.file_path@ == old(self).path()
                &&& final(self).pos() == sp.start
                &&& final(self).after_indent() == old(self).after_indent()
            },
    {
        let ghost src = self.input@;
        let ghost start_pos = self.position as int;
        if self.prev_char() != '\n' && self.position != 0 || self.position == self.len {
            self.skip_whitespace();
            proof {
                lemma_skip_blank(src, start_pos, self.position as int);
            }
        } else {
            let at_indent = match &self.last_token {
                Some(token) => token.token_type.is_indent(),
                None => false,
            };
            if !at_indent {
                let token = self.indent();
                self.position = token.span.end;
                self.last_token = Some(token.clone());
                return Ok(token);
            }
        }
        let c = self.current_char();
        let token = if c == '\n' {
            self.token(TokenType::Eol, 1)
        } else if c == '-' && self.peek(1) == '>' {
            self.token(TokenType::Arrow, 2)
        } else if c == '=' && self.peek(1) == '>' {
            self.token(TokenType::FatArrow, 2)
        } else if c == '$' && is_alphabetic(self.peek(1)) {
            self.macro_var()
        } else if c == '$' && self.peek(1) == '(' {
            self.token(TokenType::MacroRepeatOpen, 2)
        } else if c == ')' && self.peek(1) == '*' {
            self.token(TokenType::MacroRepeatClose, 2)
        } else if c == '%' && is_alphabetic(self.peek(1)) {
            self.macro_invoc()
        } else if is_operator_char_exec(c) {
            self.operator()
        } else if c == '(' {
            self.token(TokenType::OpenParen, 1)
        } else if c == ')' {
            self.token(TokenType::CloseParen, 1)
        } else if c == '[' {
            self.token(TokenType::OpenBracket, 1)
        } else if c == ']' {
            self.token(TokenType::CloseBracket, 1)
        } else if c == ',' {
            self.token(TokenType::Coma, 1)
        } else if c == ':' && self.peek(1) == ':' {
            self.token(TokenType::DoubleColon, 2)
        } else if c == ':' {
            self.token(TokenType::Colon, 1)
        } else if c == '.' && self.peek(1) == '.' {
            self.token(TokenType::DoubleDot, 2)
        } else if c == '.' {
            let spaced = self.position > 0 && is_whitespace(self.prev_char()) && !self.after_indent_exec();
            if spaced {
                self.token(TokenType::SpacedDot, 1)
            } else {
                self.token(TokenType::Dot, 1)
            }
        } else if c == '@' {
            self.token(TokenType::Arobase, 1)
        } else if c == '?' {
            self.token(TokenType::Interogation, 1)
        } else if c == '#' {
            self.comment()
        } else if c == '"' {
            match self.string() {
                Ok(t) => t,
                Err(e) => {
                    return Err(e);
                },
            }
        } else if c == '\'' && self.peek(2) == '\'' {
            self.token(TokenType::Char(self.peek(1)), 3)
        } else if c == '_' && !(is_alphanumeric(self.peek(1)) || self.peek(1) == '_') {
            self.token(TokenType::Underscore, 1)
        } else if c == '\0' {
            self.token(TokenType::Eof, 1)
        } else if self.position < self.len && (is_alphabetic(c) || c == '_') {
            self.ident_or_keyword()
        } else if is_digit(c) {
            self.number()
        } else {
            return Err(LexerError::UnknownToken(c, self.span(1)));
        };
        self.position = token.span.end;
        self.last_token = Some(token.clone());
        Ok(token)
    }

    fn after_indent_exec(&self) -> (res: bool)
        ensures
            res == self.after_indent(),
    {
        match &self.last_token {
            Some(token) => token.token_type.is_indent(),
            None => false,
        }
    }

    /// All the tokens of the input, up to and including the end of file, in
    /// the order in which they start.
    pub fn collect(&mut self) -> (res: Result<Vec<Token>, LexerError>)
        requires
            old(self).wf(),
            old(self).pos() <= old(self).source().len(),
        ensures
            final(self).wf(),
            final(self).source() == old(self).source(),
            res matches Ok(tokens) ==> {
                &&& tokens@.len() > 0
                &&& tokens@.last().token_type is Eof
                &&& starts_in_order(tokens@)
                &&& old(self).pos() == 0 && !old(self).after_indent() && old(self).source().len() > 0
                    ==> indent_read(old(self).source(), 0, tokens@[0])
                &&& forall|i: int| 0 <= i < tokens@.len() - 1 ==> !(#[trigger] tokens@[i].token_type is Eof)
                &&& old(self).adds_newline() && tokens@.len() >= 3 ==> tokens@[tokens@.len() - 2].token_type is Eol
                    && tokens@[tokens@.len() - 3].token_type == TokenType::Indent(0)
                &&& exists|n: int| #[trigger] lexed(
                    old(self).source(),
                    old(self).pos(),
                    old(self).after_indent(),
                    old(self).adds_newline(),
                    tokens@,
                    n,
                )
            },
            res is Err ==> exists|read: Seq<Token>| #[trigger] fails_after(
                old(self).source(),
                old(self).pos(),
                old(self).after_indent(),
                read,
            ),
    {
        let ghost src = self.source();
        let ghost p0 = self.pos();
        let ghost a0 = self.after_indent();
        let mut tokens: Vec<Token> = Vec::new();
        loop
            invariant_except_break
                self.pos() <= self.source().len(),
                self.pos() == read_end(p0, a0, tokens@).0,
                self.after_indent() == read_end(p0, a0, tokens@).1,
            invariant
                self.wf(),
                self.source() == old(self).source(),
                src == old(self).source(),
                p0 == old(self).pos(),
                a0 == old(self).after_indent(),
                self.adds_newline() == old(self).adds_newline(),
                forall|i: int| 0 <= i < tokens@.len() ==> !(#[trigger] tokens@[i].token_type is Eof),
                reads(src, p0, a0, tokens@),
                starts_in_order(tokens@),
                forall|i: int| 0 <= i < tokens@.len() ==> #[trigger] tokens@[i].span.start <= self.pos(),
                p0 == 0 && !a0 && src.len() > 0 ==> tokens@.len() > 0 && indent_read(src, 0, tokens@[0])
                    || (tokens@.len() == 0 && self.pos() == 0 && !self.after_indent()),
            ensures
                self.pos() <= self.source().len() + 1,
                ends_input(src, read_end(p0, a0, tokens@).0, read_end(p0, a0, tokens@).1),
            decreases self.measure(),
        {
            let token = match self.next() {
                Ok(token) => token,
                Err(e) => {
                    assert(fails_after(src, p0, a0, tokens@));
                    return Err(e);
                },
            };
            if token.token_type.same_as(&TokenType::Eof) {
                break;
            }
            proof {
                lemma_reads_push(src, p0, a0, tokens@, token);
            }
            tokens.push(token);
        }
        let ghost n = tokens@.len() as int;
        let ghost read = tokens@;
        if self.add_empty_newline_at_end {
            let needs_eol = match tokens.last() {
                Some(token) => !token.token_type.same_as(&TokenType::Eol),
                None => false,
            };
            if needs_eol {
                tokens.push(self.token(TokenType::Eol, 1));
            }
            tokens.push(self.token(TokenType::Indent(0), 0));
            tokens.push(self.token(TokenType::Eol, 1));
        }
        tokens.push(self.token(TokenType::Eof, 0));
        proof {
            if p0 == 0 && !a0 && src.len() > 0 {
                assert(tokens@[0] == read[0]);
            }
            assert forall|i: int, j: int| 0 <= i <= j < tokens@.len() implies #[trigger] tokens@[i].span.start
                <= #[trigger] tokens@[j].span.start by {
                if j >= n {
                    assert(tokens@[j].span.start == self.pos());
                    if i < n {
                        assert(tokens@[i] == read[i]);
                    }
                } else {
                    assert(tokens@[i] == read[i] && tokens@[j] == read[j]);
                }
            }
            assert(tokens@.take(n) =~= read);
            assert(lexed(src, p0, a0, old(self).adds_newline(), tokens@, n));
        }
        Ok(tokens)
    }
}

} // verus!
