use vstd::prelude::*;
use vstd::slice::slice_subrange;
use vstd::string::StringSliceAdditionalSpecFns;

use crate::source::{byte_at, Source};

verus! {

broadcast use Source::lemma_positions;

/// The kinds of token the scanner produces.
#[derive(Debug, Clone, Copy, PartialEq, Eq, Structural)]
pub enum TokenType {
    LeftParen,
    RightParen,
    LeftBrace,
    RightBrace,
    Comma,
    Dot,
    Minus,
    Plus,
    Semicolon,
    Slash,
    Star,
    Bang,
    BangEqual,
    Equal,
    EqualEqual,
    Greater,
    GreaterEqual,
    Less,
    LessEqual,
    Identifier,
    String,
    Number,
    And,
    Class,
    Else,
    False,
    For,
    Fun,
    If,
    Nil,
    Or,
    Print,
    Return,
    Super,
    This,
    True,
    Var,
    While,
    Error,
    EOF,
}

/// A lexeme with its kind and the line it ends on. For an `Error` token the
/// slice holds the diagnostic message instead of source text.
#[derive(Debug, Clone, Copy, PartialEq)]
pub struct Token<'a> {
    pub token_type: TokenType,
    pub line: u32,
    pub slice: &'a str,
}

pub open spec fn is_alpha_byte(c: u8) -> bool {
    ('a' as u8 <= c <= 'z' as u8) || ('A' as u8 <= c <= 'Z' as u8) || c == '_' as u8
}

pub open spec fn is_digit_byte(c: u8) -> bool {
    '0' as u8 <= c <= '9' as u8
}

pub open spec fn is_blank_byte(c: u8) -> bool {
    c == ' ' as u8 || c == '\t' as u8 || c == '\r' as u8 || c == '\n' as u8
}

/// Number of newline bytes among the first `n` bytes of `s`.
pub open spec fn newlines_before(s: Seq<u8>, n: int) -> nat
    decreases n,
{
    if n <= 0 {
        0
    } else {
        newlines_before(s, n - 1) + if byte_at(s, n - 1) == '\n' as u8 {
            1nat
        } else {
            0nat
        }
    }
}

/// Where the whitespace and comments that begin at `i` end.
pub open spec fn trivia_end(s: Seq<u8>, i: int) -> int
    decreases s.len() - i, 0int,
{
    if i < 0 || i >= s.len() {
        i
    } else if is_blank_byte(s[i]) {
        trivia_end(s, i + 1)
    } else if s[i] == '/' as u8 && byte_at(s, i + 1) == '/' as u8 {
        comment_end(s, i + 2)
    } else {
        i
    }
}

/// Inside a line comment at `i`: where the trivia that follows ends.
pub open spec fn comment_end(s: Seq<u8>, i: int) -> int
    decreases s.len() - i, 1int,
{
    if i < 0 || i >= s.len() {
        i
    } else if s[i] == '\n' as u8 {
        trivia_end(s, i)
    } else {
        comment_end(s, i + 1)
    }
}

/// End of the run of identifier bytes (letters, digits, `_`) that begins at `i`.
pub open spec fn word_end(s: Seq<u8>, i: int) -> int
    decreases s.len() - i,
{
    if 0 <= i < s.len() && (is_alpha_byte(s[i]) || is_digit_byte(s[i])) {
        word_end(s, i + 1)
    } else {
        i
    }
}

/// End of the run of digits that begins at `i`.
pub open spec fn digits_end(s: Seq<u8>, i: int) -> int
    decreases s.len() - i,
{
    if 0 <= i < s.len() && is_digit_byte(s[i]) {
        digits_end(s, i + 1)
    } else {
        i
    }
}

/// End of a number literal whose first digit is at `k`: digits, then a `.`
/// and digits only when a digit follows the `.`.
pub open spec fn number_end(s: Seq<u8>, k: int) -> int {
    let j = digits_end(s, k + 1);
    if byte_at(s, j) == '.' as u8 && is_digit_byte(byte_at(s, j + 1)) {
        digits_end(s, j + 1)
    } else {
        j
    }
}

/// Position of the first `"` at or after `i`, or the end of `s`.
pub open spec fn quote_at_or_after(s: Seq<u8>, i: int) -> int
    decreases s.len() - i,
{
    if 0 <= i < s.len() && s[i] != '"' as u8 {
        quote_at_or_after(s, i + 1)
    } else {
        i
    }
}

/// Whether the byte at `k` opens a one- or two-character operator.
pub open spec fn is_operator_start(c: u8) -> bool {
    c == '!' as u8 || c == '=' as u8 || c == '<' as u8 || c == '>' as u8
}

/// The keyword that `w` spells, or `Identifier`.
pub open spec fn keyword_kind(w: Seq<u8>) -> TokenType {
    if w == seq!['a' as u8, 'n' as u8, 'd' as u8] {
        TokenType::And
    } else if w == seq!['c' as u8, 'l' as u8, 'a' as u8, 's' as u8, 's' as u8] {
        TokenType::Class
    } else if w == seq!['e' as u8, 'l' as u8, 's' as u8, 'e' as u8] {
        TokenType::Else
    } else if w == seq!['f' as u8, 'a' as u8, 'l' as u8, 's' as u8, 'e' as u8] {
        TokenType::False
    } else if w == seq!['f' as u8, 'o' as u8, 'r' as u8] {
        TokenType::For
    } else if w == seq!['f' as u8, 'u' as u8, 'n' as u8] {
        TokenType::Fun
    } else if w == seq!['i' as u8, 'f' as u8] {
        TokenType::If
    } else if w == seq!['n' as u8, 'i' as u8, 'l' as u8] {
        TokenType::Nil
    } else if w == seq!['o' as u8, 'r' as u8] {
        TokenType::Or
    } else if w == seq!['p' as u8, 'r' as u8, 'i' as u8, 'n' as u8, 't' as u8] {
        TokenType::Print
    } else if w == seq!['r' as u8, 'e' as u8, 't' as u8, 'u' as u8, 'r' as u8, 'n' as u8] {
        TokenType::Return
    } else if w == seq!['s' as u8, 'u' as u8, 'p' as u8, 'e' as u8, 'r' as u8] {
        TokenType::Super
    } else if w == seq!['t' as u8, 'h' as u8, 'i' as u8, 's' as u8] {
        TokenType::This
    } else if w == seq!['t' as u8, 'r' as u8, 'u' as u8, 'e' as u8] {
        TokenType::True
    } else if w == seq!['v' as u8, 'a' as u8, 'r' as u8] {
        TokenType::Var
    } else if w == seq!['w' as u8, 'h' as u8, 'i' as u8, 'l' as u8, 'e' as u8] {
        TokenType::While
    } else {
        TokenType::Identifier
    }
}

/// The kind of a one-character token, for the bytes that make one.
pub open spec fn single_kind(c: u8) -> Option<TokenType> {
    if c == '(' as u8 {
        Some(TokenType::LeftParen)
    } else if c == ')' as u8 {
        Some(TokenType::RightParen)
    } else if c == '{' as u8 {
        Some(TokenType::LeftBrace)
    } else if c == '}' as u8 {
        Some(TokenType::RightBrace)
    } else if c == ',' as u8 {
        Some(TokenType::Comma)
    } else if c == '.' as u8 {
        Some(TokenType::Dot)
    } else if c == '-' as u8 {
        Some(TokenType::Minus)
    } else if c == '+' as u8 {
        Some(TokenType::Plus)
    } else if c == ';' as u8 {
        Some(TokenType::Semicolon)
    } else if c == '/' as u8 {
        Some(TokenType::Slash)
    } else if c == '*' as u8 {
        Some(TokenType::Star)
    } else {
        None
    }
}

/// The kind of an operator that starts with `c`, with or without a following `=`.
pub open spec fn operator_kind(c: u8, with_equal: bool) -> TokenType {
    if c == '!' as u8 {
        if with_equal { TokenType::BangEqual } else { TokenType::Bang }
    } else if c == '=' as u8 {
        if with_equal { TokenType::EqualEqual } else { TokenType::Equal }
    } else if c == '<' as u8 {
        if with_equal { TokenType::LessEqual } else { TokenType::Less }
    } else {
        if with_equal { TokenType::GreaterEqual } else { TokenType::Greater }
    }
}

/// End of the lexeme that starts at `k`; `k` itself at the end of input.
pub open spec fn lexeme_end(s: Seq<u8>, k: int) -> int {
    if k < 0 || k >= s.len() {
        k
    } else {
        let c = s[k];
        if is_alpha_byte(c) {
            word_end(s, k + 1)
        } else if is_digit_byte(c) {
            number_end(s, k)
        } else if is_operator_start(c) {
            if byte_at(s, k + 1) == '=' as u8 {
                k + 2
            } else {
                k + 1
            }
        } else if c == '"' as u8 {
            let q = quote_at_or_after(s, k + 1);
            if q < s.len() {
                q + 1
            } else {
                q
            }
        } else {
            k + 1
        }
    }
}

/// Kind of the token whose lexeme starts at `k`.
pub open spec fn lexeme_kind(s: Seq<u8>, k: int) -> TokenType {
    if k < 0 || k >= s.len() {
        TokenType::EOF
    } else {
        let c = s[k];
        if is_alpha_byte(c) {
            keyword_kind(s.subrange(k, word_end(s, k + 1)))
        } else if is_digit_byte(c) {
            TokenType::Number
        } else if is_operator_start(c) {
            operator_kind(c, byte_at(s, k + 1) == '=' as u8)
        } else if c == '"' as u8 {
            if quote_at_or_after(s, k + 1) < s.len() {
                TokenType::String
            } else {
                TokenType::Error
            }
        } else if single_kind(c) is Some {
            single_kind(c)->0
        } else {
            TokenType::Error
        }
    }
}

/// Whether an error token at `k` is an unterminated string (rather than a
/// stray byte).
pub open spec fn is_open_string(s: Seq<u8>, k: int) -> bool {
    0 <= k < s.len() && s[k] == '"' as u8
}

/// Kind of the next token a scanner at `pos` returns.
pub open spec fn next_kind(s: Seq<u8>, pos: int) -> TokenType {
    lexeme_kind(s, trivia_end(s, pos))
}

/// Where a scanner at `pos` stands after returning its next token.
pub open spec fn next_pos(s: Seq<u8>, pos: int) -> int {
    lexeme_end(s, trivia_end(s, pos))
}

pub open spec fn all_blank(s: Seq<u8>) -> bool {
    forall|i: int| 0 <= i < s.len() ==> is_blank_byte(#[trigger] s[i])
}

pub open spec fn is_word_byte(c: u8) -> bool {
    is_alpha_byte(c) || is_digit_byte(c)
}

/// A token other than `EOF` ends past the position the scan started from.
pub proof fn lemma_next_pos(s: Seq<u8>, pos: int)
    requires
        0 <= pos <= s.len(),
    ensures
        pos <= next_pos(s, pos) <= s.len(),
        next_kind(s, pos) != TokenType::EOF ==> pos < next_pos(s, pos),
        next_kind(s, pos) == TokenType::EOF ==> next_pos(s, pos) == s.len(),
{
    lemma_trivia_end(s, pos);
    let k = trivia_end(s, pos);
    if k < s.len() {
        let c = s[k];
        if is_alpha_byte(c) {
            lemma_word_bounds(s, k + 1);
        } else if is_digit_byte(c) {
            lemma_digits_bounds(s, k + 1);
            let j = digits_end(s, k + 1);
            if byte_at(s, j) == '.' as u8 && is_digit_byte(byte_at(s, j + 1)) {
                lemma_digits_bounds(s, j + 1);
            }
        } else if c == '"' as u8 {
            lemma_quote_bounds(s, k + 1);
        }
    }
}

proof fn lemma_word_bounds(s: Seq<u8>, i: int)
    requires
        0 <= i <= s.len(),
    ensures
        i <= word_end(s, i) <= s.len(),
    decreases s.len() - i,
{
    if i < s.len() {
        lemma_word_bounds(s, i + 1);
    }
}

proof fn lemma_digits_bounds(s: Seq<u8>, i: int)
    requires
        0 <= i <= s.len(),
    ensures
        i <= digits_end(s, i) <= s.len(),
    decreases s.len() - i,
{
    if i < s.len() {
        lemma_digits_bounds(s, i + 1);
    }
}

proof fn lemma_quote_bounds(s: Seq<u8>, i: int)
    requires
        0 <= i <= s.len(),
    ensures
        i <= quote_at_or_after(s, i) <= s.len(),
    decreases s.len() - i,
{
    if i < s.len() {
        lemma_quote_bounds(s, i + 1);
    }
}

/// Kinds of the tokens from `pos` on that a parser sees: error tokens are
/// reported and passed over, and the list ends with `EOF`.
pub open spec fn kinds_from(s: Seq<u8>, pos: int) -> Seq<TokenType>
    decreases s.len() - pos,
{
    let kind = next_kind(s, pos);
    let end = next_pos(s, pos);
    if pos < 0 || pos > s.len() || kind == TokenType::EOF || end <= pos || end > s.len() {
        seq![TokenType::EOF]
    } else if kind == TokenType::Error {
        kinds_from(s, end)
    } else {
        seq![kind] + kinds_from(s, end)
    }
}

pub proof fn lemma_kinds_from_nonempty(s: Seq<u8>, pos: int)
    ensures
        kinds_from(s, pos).len() >= 1,
    decreases s.len() - pos,
{
    let kind = next_kind(s, pos);
    let end = next_pos(s, pos);
    if pos < 0 || pos > s.len() || kind == TokenType::EOF || end <= pos || end > s.len() {
    } else {
        lemma_kinds_from_nonempty(s, end);
    }
}

/// Where the scan that yields the first token that is not an error starts,
/// error tokens from `pos` on passed over.
pub open spec fn good_start(s: Seq<u8>, pos: int) -> int
    decreases s.len() - pos,
{
    if 0 <= pos <= s.len() && next_kind(s, pos) == TokenType::Error && pos < next_pos(s, pos)
        <= s.len() {
        good_start(s, next_pos(s, pos))
    } else {
        pos
    }
}

/// The kinds of the tokens of a whole text, as the parser sees them.
pub open spec fn token_kinds(s: Seq<u8>) -> Seq<TokenType> {
    kinds_from(s, 0)
}

/// Whether scanning from `pos` on meets an error token.
pub open spec fn has_error_token(s: Seq<u8>, pos: int) -> bool
    decreases s.len() - pos,
{
    let kind = next_kind(s, pos);
    let end = next_pos(s, pos);
    if pos < 0 || pos > s.len() || kind == TokenType::EOF || end <= pos || end > s.len() {
        false
    } else if kind == TokenType::Error {
        true
    } else {
        has_error_token(s, end)
    }
}

/// Once a scan returns `EOF` the scanner stands at the end, where every later
/// scan returns `EOF` again without moving.
pub proof fn lemma_eof_repeats(s: Seq<u8>, pos: int)
    requires
        0 <= pos <= s.len(),
        next_kind(s, pos) == TokenType::EOF,
    ensures
        next_pos(s, pos) == s.len(),
        next_kind(s, s.len() as int) == TokenType::EOF,
        next_pos(s, s.len() as int) == s.len(),
{
    lemma_trivia_end(s, pos);
}

/// An empty text yields `EOF` only.
pub proof fn lemma_empty_input(s: Seq<u8>)
    requires
        s.len() == 0,
    ensures
        next_kind(s, 0) == TokenType::EOF,
        next_pos(s, 0) == 0,
{
}

proof fn lemma_blank_tail(s: Seq<u8>, i: int)
    requires
        0 <= i <= s.len(),
        forall|j: int| i <= j < s.len() ==> is_blank_byte(#[trigger] s[j]),
    ensures
        trivia_end(s, i) == s.len(),
        comment_end(s, i) == s.len(),
    decreases s.len() - i,
{
    if i < s.len() {
        lemma_blank_tail(s, i + 1);
    }
}

/// A text of blanks (spaces, tabs, carriage returns, newlines) yields `EOF`
/// only.
pub proof fn lemma_blank_input(s: Seq<u8>)
    requires
        all_blank(s),
    ensures
        next_kind(s, 0) == TokenType::EOF,
        next_pos(s, 0) == s.len(),
{
    lemma_blank_tail(s, 0);
}

proof fn lemma_comment_body(s: Seq<u8>, i: int, end: int)
    requires
        0 <= i <= end <= s.len(),
        forall|j: int| i <= j < end ==> #[trigger] s[j] != '\n' as u8,
        forall|j: int| end <= j < s.len() ==> is_blank_byte(#[trigger] s[j]),
    ensures
        comment_end(s, i) == s.len(),
    decreases end - i,
{
    if i < end {
        lemma_comment_body(s, i + 1, end);
    } else {
        lemma_blank_tail(s, i);
    }
}

/// A line comment, then blanks, yields `EOF` only.
pub proof fn lemma_comment_input(body: Seq<u8>, rest: Seq<u8>)
    requires
        forall|j: int| 0 <= j < body.len() ==> #[trigger] body[j] != '\n' as u8,
        all_blank(rest),
    ensures
        next_kind(seq!['/' as u8, '/' as u8] + body + rest, 0) == TokenType::EOF,
        next_pos(seq!['/' as u8, '/' as u8] + body + rest, 0) == 2 + body.len() + rest.len(),
{
    let s = seq!['/' as u8, '/' as u8] + body + rest;
    let end: int = 2 + body.len() as int;
    assert forall|j: int| 2 <= j < end implies #[trigger] s[j] != '\n' as u8 by {
        assert(s[j] == body[j - 2]);
    }
    assert forall|j: int| end <= j < s.len() implies is_blank_byte(#[trigger] s[j]) by {
        assert(s[j] == rest[j - end]);
    }
    lemma_comment_body(s, 2, end);
    assert(s[0] == '/' as u8 && s[1] == '/' as u8);
}

proof fn lemma_word_tail(s: Seq<u8>, i: int)
    requires
        0 <= i <= s.len(),
        forall|j: int| i <= j < s.len() ==> is_word_byte(#[trigger] s[j]),
    ensures
        word_end(s, i) == s.len(),
    decreases s.len() - i,
{
    if i < s.len() {
        lemma_word_tail(s, i + 1);
    }
}

/// A keyword spells a nonempty run of lower-case letters.
proof fn lemma_keyword_letters(w: Seq<u8>)
    requires
        keyword_kind(w) != TokenType::Identifier,
    ensures
        w.len() >= 2,
        forall|j: int| 0 <= j < w.len() ==> 'a' as u8 <= #[trigger] w[j] <= 'z' as u8,
{
}

/// A word made of letters, digits and `_`, starting with a letter or `_`,
/// scans as one token of the kind `keyword_kind` gives it, then `EOF`.
pub proof fn lemma_word_input(w: Seq<u8>)
    requires
        w.len() >= 1,
        is_alpha_byte(w[0]),
        forall|j: int| 0 <= j < w.len() ==> is_word_byte(#[trigger] w[j]),
    ensures
        next_kind(w, 0) == keyword_kind(w),
        next_pos(w, 0) == w.len(),
        next_kind(w, w.len() as int) == TokenType::EOF,
{
    lemma_word_tail(w, 1);
    assert(w.subrange(0, w.len() as int) =~= w);
}

/// Each keyword alone scans as that keyword's kind, then `EOF`.
pub proof fn lemma_keyword_input(w: Seq<u8>)
    requires
        keyword_kind(w) != TokenType::Identifier,
    ensures
        next_kind(w, 0) == keyword_kind(w),
        next_pos(w, 0) == w.len(),
        next_kind(w, w.len() as int) == TokenType::EOF,
{
    lemma_keyword_letters(w);
    lemma_word_input(w);
}

/// A keyword followed by more word bytes (`ifx`, `oranges`) scans as one
/// `Identifier`, then `EOF`.
pub proof fn lemma_keyword_prefix_input(k: Seq<u8>, t: Seq<u8>)
    requires
        keyword_kind(k) != TokenType::Identifier,
        t.len() >= 1,
        forall|j: int| 0 <= j < t.len() ==> is_word_byte(#[trigger] t[j]),
    ensures
        next_kind(k + t, 0) == TokenType::Identifier,
        next_pos(k + t, 0) == k.len() + t.len(),
        next_kind(k + t, (k.len() + t.len()) as int) == TokenType::EOF,
{
    let w = k + t;
    lemma_keyword_letters(k);
    assert forall|j: int| 0 <= j < w.len() implies is_word_byte(#[trigger] w[j]) by {
        if j < k.len() {
            assert(w[j] == k[j]);
        } else {
            assert(w[j] == t[j - k.len()]);
        }
    }
    assert(w[0] == k[0]);
    lemma_word_input(w);
    assert(w.subrange(0, k.len() as int) =~= k);
    lemma_no_keyword_extends(k, w);
}

/// No keyword is a proper prefix of another word that is a keyword.
proof fn lemma_no_keyword_extends(k: Seq<u8>, w: Seq<u8>)
    requires
        keyword_kind(k) != TokenType::Identifier,
        w.len() > k.len(),
        w.subrange(0, k.len() as int) == k,
    ensures
        keyword_kind(w) == TokenType::Identifier,
{
    if keyword_kind(w) != TokenType::Identifier {
        lemma_keyword_letters(w);
        assert(false);
    }
}

/// A `"` with no closing quote after it yields one `Error` token, for an
/// unterminated string, that runs to the end; then `EOF`.
pub proof fn lemma_unterminated_string(body: Seq<u8>)
    requires
        forall|j: int| 0 <= j < body.len() ==> #[trigger] body[j] != '"' as u8,
    ensures
        next_kind(seq!['"' as u8] + body, 0) == TokenType::Error,
        is_open_string(seq!['"' as u8] + body, 0),
        next_pos(seq!['"' as u8] + body, 0) == 1 + body.len(),
        next_kind(seq!['"' as u8] + body, 1 + body.len() as int) == TokenType::EOF,
{
    let s = seq!['"' as u8] + body;
    assert(s[0] == '"' as u8);
    lemma_no_quote(s, 1);
}

proof fn lemma_no_quote(s: Seq<u8>, i: int)
    requires
        1 <= i <= s.len(),
        forall|j: int| 1 <= j < s.len() ==> #[trigger] s[j] != '"' as u8,
    ensures
        quote_at_or_after(s, i) == s.len(),
    decreases s.len() - i,
{
    if i < s.len() {
        lemma_no_quote(s, i + 1);
    }
}

/// Newline counts grow with the prefix.
pub proof fn lemma_newlines_monotone(s: Seq<u8>, a: int, b: int)
    requires
        a <= b,
    ensures
        newlines_before(s, a) <= newlines_before(s, b),
    decreases b - a,
{
    if a < b {
        lemma_newlines_monotone(s, a, b - 1);
    }
}

pub proof fn lemma_newlines_bound(s: Seq<u8>, n: int)
    ensures
        newlines_before(s, n) <= if n < 0 { 0 } else { n },
    decreases n,
{
    if n > 0 {
        lemma_newlines_bound(s, n - 1);
    }
}

/// Trivia ends inside the text, on a byte that neither is blank nor opens a
/// comment.
pub proof fn lemma_trivia_end(s: Seq<u8>, i: int)
    requires
        0 <= i <= s.len(),
    ensures
        i <= trivia_end(s, i) <= s.len(),
        trivia_end(s, i) < s.len() ==> !is_blank_byte(s[trivia_end(s, i)]) && !(s[trivia_end(
            s,
            i,
        )] == '/' as u8 && byte_at(s, trivia_end(s, i) + 1) == '/' as u8),
    decreases s.len() - i, 0int,
{
    if i < s.len() {
        if is_blank_byte(s[i]) {
            lemma_trivia_end(s, i + 1);
        } else if s[i] == '/' as u8 && byte_at(s, i + 1) == '/' as u8 {
            lemma_comment_end(s, i + 2);
        }
    }
}

pub proof fn lemma_comment_end(s: Seq<u8>, i: int)
    requires
        0 <= i <= s.len(),
    ensures
        i <= comment_end(s, i) <= s.len(),
        comment_end(s, i) < s.len() ==> !is_blank_byte(s[comment_end(s, i)]) && !(s[comment_end(
            s,
            i,
        )] == '/' as u8 && byte_at(s, comment_end(s, i) + 1) == '/' as u8),
    decreases s.len() - i, 1int,
{
    if i < s.len() {
        if s[i] == '\n' as u8 {
            lemma_trivia_end(s, i);
        } else {
            lemma_comment_end(s, i + 1);
        }
    }
}

fn is_alpha(c: u8) -> (r: bool)
    ensures
        r == is_alpha_byte(c),
{
    ('a' as u8 <= c && c <= 'z' as u8) || ('A' as u8 <= c && c <= 'Z' as u8) || c == '_' as u8
}

fn is_digit(c: u8) -> (r: bool)
    ensures
        r == is_digit_byte(c),
{
    '0' as u8 <= c && c <= '9' as u8
}

/// Produces tokens on demand from ASCII source text.
#[derive(Debug, Clone, Copy)]
pub struct Scanner<'a> {
    source: Source<'a>,
    line: u32,
}

impl<'a> Scanner<'a> {
    /// The source bytes.
    pub closed spec fn bytes(&self) -> Seq<u8> {
        self.source.bytes()
    }

    /// The source characters.
    pub closed spec fn chars(&self) -> Seq<char> {
        self.source.chars()
    }

    /// How many bytes have been consumed.
    pub closed spec fn pos(&self) -> int {
        self.source.current_pos()
    }

    pub broadcast proof fn lemma_pos_bounds(&self)
        requires
            #[trigger] self.wf(),
        ensures
            0 <= self.pos() <= self.bytes().len() < u32::MAX,
    {
    }

    pub closed spec fn wf(&self) -> bool {
        &&& self.source.wf()
        &&& self.bytes().len() < u32::MAX
        &&& self.line == 1 + newlines_before(self.bytes(), self.pos())
    }

    /// A scanner at the start of `source`, on line 1. The text is ASCII, and
    /// shorter than `u32::MAX` bytes so that every line number fits a token.
    pub fn new(source: &'a str) -> (r: Self)
        requires
            source.is_ascii(),
            source.len() < u32::MAX,
        ensures
            r.wf(),
            r.pos() == 0,
            r.bytes() == source.spec_bytes(),
            r.chars() == source@,
    {
        let src = Source::new(source);
        Self { source: src, line: 1 }
    }

    fn make_token(&self, token_type: TokenType) -> (r: Token<'a>)
        requires
            self.wf(),
        ensures
            r.token_type == token_type,
            r.line == self.line,
            r.slice@ == self.chars().subrange(self.source.start_pos(), self.pos()),
            r.slice.spec_bytes() == self.bytes().subrange(self.source.start_pos(), self.pos()),
    {
        Token { token_type, line: self.line, slice: self.source.current_str() }
    }

    fn error_token(&self, message: &'static str) -> (r: Token<'a>)
        ensures
            r.token_type == TokenType::Error,
            r.line == self.line,
            r.slice@ == message@,
    {
        Token { token_type: TokenType::Error, line: self.line, slice: message }
    }

    fn skip_whitespace(&mut self)
        requires
            old(self).wf(),
        ensures
            final(self).wf(),
            final(self).bytes() == old(self).bytes(),
            final(self).chars() == old(self).chars(),
            final(self).pos() == trivia_end(old(self).bytes(), old(self).pos()),
            old(self).pos() <= final(self).pos(),
    {
        let ghost s = self.bytes();
        let ghost from = self.pos();
        let ghost target = trivia_end(s, from);
        loop
            invariant
                self.wf(),
                s == old(self).bytes(),
                from == old(self).pos(),
                target == trivia_end(s, from),
                self.bytes() == s,
                self.chars() == old(self).chars(),
                from <= self.pos() <= s.len(),
                trivia_end(s, self.pos()) == target,
            decreases s.len() - self.pos(),
        {
            let c = self.source.peek();
            if c == ' ' as u8 || c == '\t' as u8 || c == '\r' as u8 {
                self.source.advance();
            } else if c == '\n' as u8 {
                proof {
                    lemma_newlines_bound(s, self.pos());
                }
                self.line = self.line + 1;
                self.source.advance();
            } else if c == '/' as u8 {
                if self.source.peek_next() != '/' as u8 {
                    return;
                }
                let ghost at = self.pos();
                self.source.advance();
                assert(self.wf());
                self.source.advance();
                assert(self.wf());
                while self.source.peek() != '\n' as u8 && !self.source.is_at_end()
                    invariant
                        at + 2 <= self.pos(),
                        self.wf(),
                        s == old(self).bytes(),
                        from == old(self).pos(),
                        target == trivia_end(s, from),
                        self.bytes() == s,
                        self.chars() == old(self).chars(),
                        from <= self.pos() <= s.len(),
                        comment_end(s, self.pos()) == target,
                    decreases s.len() - self.pos(),
                {
                    self.source.advance();
                }
            } else {
                return;
            }
        }
    }

    /// Scans the rest of a string literal whose opening quote has been consumed.
    fn string(&mut self) -> (r: Token<'a>)
        requires
            old(self).wf(),
            old(self).source.start_pos() + 1 == old(self).pos(),
            old(self).bytes()[old(self).source.start_pos()] == '"' as u8,
        ensures
            final(self).wf(),
            final(self).bytes() == old(self).bytes(),
            final(self).chars() == old(self).chars(),
            old(self).pos() <= final(self).pos(),
            ({
                let s = old(self).bytes();
                let k = old(self).source.start_pos();
                &&& final(self).pos() == lexeme_end(s, k)
                &&& r.token_type == lexeme_kind(s, k)
                &&& r.line == 1 + newlines_before(s, final(self).pos())
                &&& r.token_type != TokenType::Error ==> r.slice@ == old(self).chars().subrange(
                    k,
                    final(self).pos(),
                )
                &&& r.token_type == TokenType::Error ==> r.slice@ == "Unterminated string."@
                &&& r.token_type != TokenType::Error ==> r.slice.spec_bytes() == s.subrange(
                    k,
                    final(self).pos(),
                )
            }),
            r.token_type == TokenType::String ==> r.slice.spec_bytes().len() >= 2,
    {
        let ghost s = self.bytes();
        let ghost k = self.source.start_pos();
        while self.source.peek() != '"' as u8 && !self.source.is_at_end()
            invariant
                self.wf(),
                self.bytes() == s,
                self.chars() == old(self).chars(),
                self.source.start_pos() == k,
                k + 1 <= self.pos() <= s.len(),
                quote_at_or_after(s, self.pos()) == quote_at_or_after(s, k + 1),
            decreases s.len() - self.pos(),
        {
            if self.source.peek() == '\n' as u8 {
                proof {
                    lemma_newlines_bound(s, self.pos());
                }
                self.line = self.line + 1;
            }
            self.source.advance();
        }
        if self.source.is_at_end() {
            return self.error_token("Unterminated string.");
        }
        self.source.advance();
        self.make_token(TokenType::String)
    }

    /// Scans the rest of a number literal whose first digit has been consumed.
    fn number(&mut self) -> (r: Token<'a>)
        requires
            old(self).wf(),
            old(self).source.start_pos() + 1 == old(self).pos(),
            is_digit_byte(old(self).bytes()[old(self).source.start_pos()]),
        ensures
            final(self).wf(),
            final(self).bytes() == old(self).bytes(),
            final(self).chars() == old(self).chars(),
            final(self).pos() == number_end(old(self).bytes(), old(self).source.start_pos()),
            old(self).pos() <= final(self).pos(),
            r.token_type == TokenType::Number,
            r.line == 1 + newlines_before(old(self).bytes(), final(self).pos()),
            r.slice@ == old(self).chars().subrange(old(self).source.start_pos(), final(self).pos()),
            r.slice.spec_bytes() == old(self).bytes().subrange(
                old(self).source.start_pos(),
                final(self).pos(),
            ),
    {
        let ghost s = self.bytes();
        let ghost k = self.source.start_pos();
        while is_digit(self.source.peek())
            invariant
                self.wf(),
                self.bytes() == s,
                self.chars() == old(self).chars(),
                self.source.start_pos() == k,
                k + 1 <= self.pos() <= s.len(),
                digits_end(s, self.pos()) == digits_end(s, k + 1),
            decreases s.len() - self.pos(),
        {
            self.source.advance();
        }
        if self.source.peek() == '.' as u8 && is_digit(self.source.peek_next()) {
            self.source.advance();
            while is_digit(self.source.peek())
                invariant
                    self.wf(),
                    self.bytes() == s,
                    self.chars() == old(self).chars(),
                    self.source.start_pos() == k,
                    k + 1 <= self.pos() <= s.len(),
                    digits_end(s, self.pos()) == number_end(s, k),
                decreases s.len() - self.pos(),
            {
                self.source.advance();
            }
        }
        self.make_token(TokenType::Number)
    }

    /// Scans the rest of an identifier or keyword whose first letter has been
    /// consumed.
    fn identifier(&mut self) -> (r: Token<'a>)
        requires
            old(self).wf(),
            old(self).source.start_pos() + 1 == old(self).pos(),
            is_alpha_byte(old(self).bytes()[old(self).source.start_pos()]),
        ensures
            final(self).wf(),
            final(self).bytes() == old(self).bytes(),
            final(self).chars() == old(self).chars(),
            final(self).pos() == word_end(old(self).bytes(), old(self).pos()),
            old(self).pos() <= final(self).pos(),
            r.token_type == keyword_kind(
                old(self).bytes().subrange(old(self).source.start_pos(), final(self).pos()),
            ),
            r.line == 1 + newlines_before(old(self).bytes(), final(self).pos()),
            r.slice@ == old(self).chars().subrange(old(self).source.start_pos(), final(self).pos()),
            r.slice.spec_bytes() == old(self).bytes().subrange(
                old(self).source.start_pos(),
                final(self).pos(),
            ),
    {
        let ghost s = self.bytes();
        let ghost k = self.source.start_pos();
        while is_alpha(self.source.peek()) || is_digit(self.source.peek())
            invariant
                self.wf(),
                self.bytes() == s,
                self.chars() == old(self).chars(),
                self.source.start_pos() == k,
                k + 1 <= self.pos() <= s.len(),
                word_end(s, self.pos()) == word_end(s, k + 1),
            decreases s.len() - self.pos(),
        {
            self.source.advance();
        }
        let token_type = self.identifier_type();
        self.make_token(token_type)
    }

    /// Recognises keywords by dispatching on the first one or two letters.
    fn identifier_type(&self) -> (r: TokenType)
        requires
            self.wf(),
            self.source.start_pos() < self.pos(),
        ensures
            r == keyword_kind(self.bytes().subrange(self.source.start_pos(), self.pos())),
    {
        let identifier = self.source.current_str().as_bytes();
        let ghost w = identifier@;
        let n = identifier.len();
        let tail = slice_subrange(identifier, 1, n);
        assert(tail@ == w.subrange(1, n as int));
        let first = identifier[0];
        if first == 'a' as u8 {
            proof {
                lemma_first_byte(w, seq!['a' as u8, 'n' as u8, 'd' as u8]);
                assert(seq!['a' as u8, 'n' as u8, 'd' as u8].subrange(1, 3) =~= seq!['n' as u8, 'd' as u8]);
            }
            check_keyword(tail, &['n' as u8, 'd' as u8], TokenType::And)
        } else if first == 'c' as u8 {
            proof {
                lemma_first_byte(w, seq!['c' as u8, 'l' as u8, 'a' as u8, 's' as u8, 's' as u8]);
                assert(seq!['c' as u8, 'l' as u8, 'a' as u8, 's' as u8, 's' as u8].subrange(1, 5) =~= seq!['l' as u8, 'a' as u8, 's' as u8, 's' as u8]);
            }
            check_keyword(tail, &['l' as u8, 'a' as u8, 's' as u8, 's' as u8], TokenType::Class)
        } else if first == 'e' as u8 {
            proof {
                lemma_first_byte(w, seq!['e' as u8, 'l' as u8, 's' as u8, 'e' as u8]);
                assert(seq!['e' as u8, 'l' as u8, 's' as u8, 'e' as u8].subrange(1, 4) =~= seq!['l' as u8, 's' as u8, 'e' as u8]);
            }
            check_keyword(tail, &['l' as u8, 's' as u8, 'e' as u8], TokenType::Else)
        } else if first == 'i' as u8 {
            proof {
                lemma_first_byte(w, seq!['i' as u8, 'f' as u8]);
                assert(seq!['i' as u8, 'f' as u8].subrange(1, 2) =~= seq!['f' as u8]);
            }
            check_keyword(tail, &['f' as u8], TokenType::If)
        } else if first == 'n' as u8 {
            proof {
                lemma_first_byte(w, seq!['n' as u8, 'i' as u8, 'l' as u8]);
                assert(seq!['n' as u8, 'i' as u8, 'l' as u8].subrange(1, 3) =~= seq!['i' as u8, 'l' as u8]);
            }
            check_keyword(tail, &['i' as u8, 'l' as u8], TokenType::Nil)
        } else if first == 'o' as u8 {
            proof {
                lemma_first_byte(w, seq!['o' as u8, 'r' as u8]);
                assert(seq!['o' as u8, 'r' as u8].subrange(1, 2) =~= seq!['r' as u8]);
            }
            check_keyword(tail, &['r' as u8], TokenType::Or)
        } else if first == 'p' as u8 {
            proof {
                lemma_first_byte(w, seq!['p' as u8, 'r' as u8, 'i' as u8, 'n' as u8, 't' as u8]);
                assert(seq!['p' as u8, 'r' as u8, 'i' as u8, 'n' as u8, 't' as u8].subrange(1, 5) =~= seq!['r' as u8, 'i' as u8, 'n' as u8, 't' as u8]);
            }
            check_keyword(tail, &['r' as u8, 'i' as u8, 'n' as u8, 't' as u8], TokenType::Print)
        } else if first == 'r' as u8 {
            proof {
                lemma_first_byte(w, seq!['r' as u8, 'e' as u8, 't' as u8, 'u' as u8, 'r' as u8, 'n' as u8]);
                assert(seq!['r' as u8, 'e' as u8, 't' as u8, 'u' as u8, 'r' as u8, 'n' as u8].subrange(1, 6) =~= seq!['e' as u8, 't' as u8, 'u' as u8, 'r' as u8, 'n' as u8]);
            }
            check_keyword(tail, &['e' as u8, 't' as u8, 'u' as u8, 'r' as u8, 'n' as u8], TokenType::Return)
        } else if first == 's' as u8 {
            proof {
                lemma_first_byte(w, seq!['s' as u8, 'u' as u8, 'p' as u8, 'e' as u8, 'r' as u8]);
                assert(seq!['s' as u8, 'u' as u8, 'p' as u8, 'e' as u8, 'r' as u8].subrange(1, 5) =~= seq!['u' as u8, 'p' as u8, 'e' as u8, 'r' as u8]);
            }
            check_keyword(tail, &['u' as u8, 'p' as u8, 'e' as u8, 'r' as u8], TokenType::Super)
        } else if first == 'v' as u8 {
            proof {
                lemma_first_byte(w, seq!['v' as u8, 'a' as u8, 'r' as u8]);
                assert(seq!['v' as u8, 'a' as u8, 'r' as u8].subrange(1, 3) =~= seq!['a' as u8, 'r' as u8]);
            }
            check_keyword(tail, &['a' as u8, 'r' as u8], TokenType::Var)
        } else if first == 'w' as u8 {
            proof {
                lemma_first_byte(w, seq!['w' as u8, 'h' as u8, 'i' as u8, 'l' as u8, 'e' as u8]);
                assert(seq!['w' as u8, 'h' as u8, 'i' as u8, 'l' as u8, 'e' as u8].subrange(1, 5) =~= seq!['h' as u8, 'i' as u8, 'l' as u8, 'e' as u8]);
            }
            check_keyword(tail, &['h' as u8, 'i' as u8, 'l' as u8, 'e' as u8], TokenType::While)
        } else if first == 'f' as u8 && n > 1 {
            let rest = slice_subrange(identifier, 2, n);
            assert(rest@ == w.subrange(2, n as int));
            let second = identifier[1];
            if second == 'a' as u8 {
                proof {
                    lemma_first_byte(w, seq!['f' as u8, 'a' as u8, 'l' as u8, 's' as u8, 'e' as u8]);
                    lemma_first_byte(w.subrange(1, n as int), seq!['a' as u8, 'l' as u8, 's' as u8, 'e' as u8]);
                    assert(seq!['f' as u8, 'a' as u8, 'l' as u8, 's' as u8, 'e' as u8].subrange(1, 5) =~= seq!['a' as u8, 'l' as u8, 's' as u8, 'e' as u8]);
                    assert(seq!['a' as u8, 'l' as u8, 's' as u8, 'e' as u8].subrange(1, 4) =~= seq!['l' as u8, 's' as u8, 'e' as u8]);
                    assert(w.subrange(1, n as int).subrange(1, n - 1) =~= w.subrange(2, n as int));
                }
                check_keyword(rest, &['l' as u8, 's' as u8, 'e' as u8], TokenType::False)
            } else if second == 'o' as u8 {
                proof {
                    lemma_first_byte(w, seq!['f' as u8, 'o' as u8, 'r' as u8]);
                    lemma_first_byte(w.subrange(1, n as int), seq!['o' as u8, 'r' as u8]);
                    assert(seq!['f' as u8, 'o' as u8, 'r' as u8].subrange(1, 3) =~= seq!['o' as u8, 'r' as u8]);
                    assert(seq!['o' as u8, 'r' as u8].subrange(1, 2) =~= seq!['r' as u8]);
                    assert(w.subrange(1, n as int).subrange(1, n - 1) =~= w.subrange(2, n as int));
                }
                check_keyword(rest, &['r' as u8], TokenType::For)
            } else if second == 'u' as u8 {
                proof {
                    lemma_first_byte(w, seq!['f' as u8, 'u' as u8, 'n' as u8]);
                    lemma_first_byte(w.subrange(1, n as int), seq!['u' as u8, 'n' as u8]);
                    assert(seq!['f' as u8, 'u' as u8, 'n' as u8].subrange(1, 3) =~= seq!['u' as u8, 'n' as u8]);
                    assert(seq!['u' as u8, 'n' as u8].subrange(1, 2) =~= seq!['n' as u8]);
                    assert(w.subrange(1, n as int).subrange(1, n - 1) =~= w.subrange(2, n as int));
                }
                check_keyword(rest, &['n' as u8], TokenType::Fun)
            } else {
                TokenType::Identifier
            }
        } else if first == 't' as u8 && n > 1 {
            let rest = slice_subrange(identifier, 2, n);
            assert(rest@ == w.subrange(2, n as int));
            let second = identifier[1];
            if second == 'h' as u8 {
                proof {
                    lemma_first_byte(w, seq!['t' as u8, 'h' as u8, 'i' as u8, 's' as u8]);
                    lemma_first_byte(w.subrange(1, n as int), seq!['h' as u8, 'i' as u8, 's' as u8]);
                    assert(seq!['t' as u8, 'h' as u8, 'i' as u8, 's' as u8].subrange(1, 4) =~= seq!['h' as u8, 'i' as u8, 's' as u8]);
                    assert(seq!['h' as u8, 'i' as u8, 's' as u8].subrange(1, 3) =~= seq!['i' as u8, 's' as u8]);
                    assert(w.subrange(1, n as int).subrange(1, n - 1) =~= w.subrange(2, n as int));
                }
                check_keyword(rest, &['i' as u8, 's' as u8], TokenType::This)
            } else if second == 'r' as u8 {
                proof {
                    lemma_first_byte(w, seq!['t' as u8, 'r' as u8, 'u' as u8, 'e' as u8]);
                    lemma_first_byte(w.subrange(1, n as int), seq!['r' as u8, 'u' as u8, 'e' as u8]);
                    assert(seq!['t' as u8, 'r' as u8, 'u' as u8, 'e' as u8].subrange(1, 4) =~= seq!['r' as u8, 'u' as u8, 'e' as u8]);
                    assert(seq!['r' as u8, 'u' as u8, 'e' as u8].subrange(1, 3) =~= seq!['u' as u8, 'e' as u8]);
                    assert(w.subrange(1, n as int).subrange(1, n - 1) =~= w.subrange(2, n as int));
                }
                check_keyword(rest, &['u' as u8, 'e' as u8], TokenType::True)
            } else {
                TokenType::Identifier
            }
        } else {
            TokenType::Identifier
        }
    }

    /// Returns the next token and moves past it. At the end of the input it
    /// returns `EOF`, and keeps doing so.
    pub fn scan_token(&mut self) -> (r: Token<'a>)
        requires
            old(self).wf(),
        ensures
            final(self).wf(),
            final(self).bytes() == old(self).bytes(),
            final(self).chars() == old(self).chars(),
            ({
                let s = old(self).bytes();
                let k = trivia_end(s, old(self).pos());
                &&& final(self).pos() == lexeme_end(s, k)
                &&& r.token_type == lexeme_kind(s, k)
                &&& r.line == 1 + newlines_before(s, final(self).pos())
                &&& r.token_type != TokenType::Error ==> r.slice@ == old(self).chars().subrange(
                    k,
                    final(self).pos(),
                )
                &&& r.token_type != TokenType::Error ==> r.slice.spec_bytes() == s.subrange(
                    k,
                    final(self).pos(),
                )
                &&& r.token_type == TokenType::Error ==> r.slice@ == if is_open_string(s, k) {
                    "Unterminated string."@
                } else {
                    "Unexpected character"@
                }
            }),
            r.token_type == TokenType::EOF ==> final(self).pos() == final(self).bytes().len(),
            r.token_type != TokenType::EOF ==> old(self).pos() < final(self).pos(),
            r.token_type == TokenType::String ==> r.slice.spec_bytes().len() >= 2,
    {
        self.skip_whitespace();
        self.source.reset();

        if self.source.is_at_end() {
            return self.make_token(TokenType::EOF);
        }

        proof {
            lemma_trivia_end(old(self).bytes(), old(self).pos());
        }
        let c = self.source.advance();
        assert(self.wf());
        if is_alpha(c) {
            return self.identifier();
        }
        if is_digit(c) {
            return self.number();
        }

        if c == '(' as u8 {
            self.make_token(TokenType::LeftParen)
        } else if c == ')' as u8 {
            self.make_token(TokenType::RightParen)
        } else if c == '{' as u8 {
            self.make_token(TokenType::LeftBrace)
        } else if c == '}' as u8 {
            self.make_token(TokenType::RightBrace)
        } else if c == ',' as u8 {
            self.make_token(TokenType::Comma)
        } else if c == '.' as u8 {
            self.make_token(TokenType::Dot)
        } else if c == '-' as u8 {
            self.make_token(TokenType::Minus)
        } else if c == '+' as u8 {
            self.make_token(TokenType::Plus)
        } else if c == ';' as u8 {
            self.make_token(TokenType::Semicolon)
        } else if c == '/' as u8 {
            self.make_token(TokenType::Slash)
        } else if c == '*' as u8 {
            self.make_token(TokenType::Star)
        } else if c == '!' as u8 {
            let token_type = if self.source.match_char('=' as u8) {
                TokenType::BangEqual
            } else {
                TokenType::Bang
            };
            assert(self.wf());
            self.make_token(token_type)
        } else if c == '=' as u8 {
            let token_type = if self.source.match_char('=' as u8) {
                TokenType::EqualEqual
            } else {
                TokenType::Equal
            };
            assert(self.wf());
            self.make_token(token_type)
        } else if c == '<' as u8 {
            let token_type = if self.source.match_char('=' as u8) {
                TokenType::LessEqual
            } else {
                TokenType::Less
            };
            assert(self.wf());
            self.make_token(token_type)
        } else if c == '>' as u8 {
            let token_type = if self.source.match_char('=' as u8) {
                TokenType::GreaterEqual
            } else {
                TokenType::Greater
            };
            assert(self.wf());
            self.make_token(token_type)
        } else if c == '"' as u8 {
            self.string()
        } else {
            self.error_token("Unexpected character")
        }
    }
}

proof fn lemma_first_byte(w: Seq<u8>, kw: Seq<u8>)
    requires
        w.len() >= 1,
        kw.len() >= 1,
        w[0] == kw[0],
    ensures
        (w == kw) == (w.subrange(1, w.len() as int) =~= kw.subrange(1, kw.len() as int)),
{
    if w.subrange(1, w.len() as int) =~= kw.subrange(1, kw.len() as int) {
        assert forall|i: int| 0 <= i < w.len() implies w[i] == kw[i] by {
            if i > 0 {
                assert(w[i] == w.subrange(1, w.len() as int)[i - 1]);
            }
        }
        assert(w =~= kw);
    }
}

/// `token_type` when `identifier` is exactly `rest`, else `Identifier`.
fn check_keyword(identifier: &[u8], rest: &[u8], token_type: TokenType) -> (r: TokenType)
    ensures
        r == if identifier@ =~= rest@ {
            token_type
        } else {
            TokenType::Identifier
        },
{
    if identifier.len() != rest.len() {
        return TokenType::Identifier;
    }
    let mut i: usize = 0;
    while i < identifier.len()
        invariant
            identifier@.len() == rest@.len(),
            i <= identifier@.len(),
            identifier@.subrange(0, i as int) =~= rest@.subrange(0, i as int),
        decreases identifier@.len() - i,
    {
        if identifier[i] != rest[i] {
            assert(identifier@[i as int] != rest@[i as int]);
            return TokenType::Identifier;
        }
        i = i + 1;
        assert(identifier@.subrange(0, i as int) =~= rest@.subrange(0, i as int));
    }
    assert(identifier@ =~= identifier@.subrange(0, i as int));
    assert(rest@ =~= rest@.subrange(0, i as int));
    token_type
}

} // verus!
