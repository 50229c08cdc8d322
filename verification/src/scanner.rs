//! The scanner: from the bytes of a source string to tokens.
//!
//! What the scanner does is stated by [`scan`], a function of the bytes that
//! are still ahead and of the line counter. The spans of the tokens borrow
//! from the source string.

use vstd::prelude::*;
use vstd::string::*;
use vstd::utf8::*;

verus! {

#[derive(Debug, PartialEq, Eq, Clone, Copy, Structural)]
pub enum TokenType {
    LeftParen,
    RightParen,
    LeftBrace,
    RightBrace,
    Comma,
    Dot,
    Minus,
    Plus,
    Semicolon,
    Slash,
    Star,
    Bang,
    BangEqual,
    Equal,
    EqualEqual,
    Greater,
    GreaterEqual,
    Less,
    LessEqual,
    Identifier,
    String,
    Number,
    And,
    Class,
    Else,
    False,
    For,
    Fun,
    If,
    Nil,
    Or,
    Print,
    Return,
    Super,
    This,
    True,
    Var,
    While,
}

pub const NEWLINE: u8 = 0x0A;

pub const QUOTE: u8 = 0x22;

pub const SLASH: u8 = 0x2F;

pub const DOT: u8 = 0x2E;

pub const EQUALS: u8 = 0x3D;

/// An ASCII decimal digit.
pub open spec fn is_digit(b: u8) -> bool {
    0x30 <= b <= 0x39
}

/// An ASCII letter or the underscore: what an identifier starts with.
pub open spec fn is_alpha(b: u8) -> bool {
    (0x41 <= b <= 0x5A) || (0x61 <= b <= 0x7A) || b == 0x5F
}

/// ASCII whitespace: space, tab, line feed, form feed, carriage return.
pub open spec fn is_space(b: u8) -> bool {
    b == 0x20 || b == 0x09 || b == NEWLINE || b == 0x0C || b == 0x0D
}

/// The index of the first `b` in `s` at or after `from`, or the length of `s`
/// where there is none.
pub open spec fn find_byte(s: Seq<u8>, from: int, b: u8) -> int
    decreases s.len() - from,
{
    if from >= s.len() {
        s.len() as int
    } else if from >= 0 && s[from] == b {
        from
    } else {
        find_byte(s, from + 1, b)
    }
}

/// The end of the run of digits that starts at `from`.
pub open spec fn digits_end(s: Seq<u8>, from: int) -> int
    decreases s.len() - from,
{
    if from >= s.len() {
        s.len() as int
    } else if from >= 0 && !is_digit(s[from]) {
        from
    } else {
        digits_end(s, from + 1)
    }
}

/// The end of the run of letters, digits and underscores that starts at
/// `from`.
pub open spec fn word_end(s: Seq<u8>, from: int) -> int
    decreases s.len() - from,
{
    if from >= s.len() {
        s.len() as int
    } else if from >= 0 && !(is_alpha(s[from]) || is_digit(s[from])) {
        from
    } else {
        word_end(s, from + 1)
    }
}

/// The index of the first byte at or after `from` that is neither whitespace
/// nor part of a comment. A comment starts with two slashes and ends before
/// the next line feed; `in_comment` tells that `from` lies in one.
pub open spec fn blank_end(s: Seq<u8>, from: int, in_comment: bool) -> int
    decreases s.len() - from, (if in_comment { 1int } else { 0int }),
{
    if from < 0 || from >= s.len() {
        s.len() as int
    } else if in_comment {
        if s[from] == NEWLINE {
            blank_end(s, from, false)
        } else {
            blank_end(s, from + 1, true)
        }
    } else if is_space(s[from]) {
        blank_end(s, from + 1, false)
    } else if s[from] == SLASH && from + 1 < s.len() && s[from + 1] == SLASH {
        blank_end(s, from + 2, true)
    } else {
        from
    }
}

/// The number of line feeds in `s`.
pub open spec fn count_newlines(s: Seq<u8>) -> nat
    decreases s.len(),
{
    if s.len() == 0 {
        0
    } else {
        count_newlines(s.drop_last()) + if s.last() == NEWLINE { 1nat } else { 0nat }
    }
}

/// The end of the number literal at the start of `s`: a run of digits, and a
/// dot with a further run only where a digit follows the dot.
pub open spec fn number_end(s: Seq<u8>) -> int {
    let whole = digits_end(s, 0);
    if whole + 1 < s.len() && s[whole] == DOT && is_digit(s[whole + 1]) {
        digits_end(s, whole + 1)
    } else {
        whole
    }
}

/// The kind of a word: one of the sixteen reserved words, or an identifier.
pub open spec fn keyword(span: Seq<u8>) -> TokenType {
    if span == "and".spec_bytes() {
        TokenType::And
    } else if span == "class".spec_bytes() {
        TokenType::Class
    } else if span == "else".spec_bytes() {
        TokenType::Else
    } else if span == "false".spec_bytes() {
        TokenType::False
    } else if span == "for".spec_bytes() {
        TokenType::For
    } else if span == "fun".spec_bytes() {
        TokenType::Fun
    } else if span == "if".spec_bytes() {
        TokenType::If
    } else if span == "nil".spec_bytes() {
        TokenType::Nil
    } else if span == "or".spec_bytes() {
        TokenType::Or
    } else if span == "print".spec_bytes() {
        TokenType::Print
    } else if span == "return".spec_bytes() {
        TokenType::Return
    } else if span == "super".spec_bytes() {
        TokenType::Super
    } else if span == "this".spec_bytes() {
        TokenType::This
    } else if span == "true".spec_bytes() {
        TokenType::True
    } else if span == "var".spec_bytes() {
        TokenType::Var
    } else if span == "while".spec_bytes() {
        TokenType::While
    } else {
        TokenType::Identifier
    }
}

/// The token that a single punctuation byte stands for.
pub open spec fn punctuation(b: u8) -> Option<TokenType> {
    if b == 0x28 {
        Some(TokenType::LeftParen)
    } else if b == 0x29 {
        Some(TokenType::RightParen)
    } else if b == 0x7B {
        Some(TokenType::LeftBrace)
    } else if b == 0x7D {
        Some(TokenType::RightBrace)
    } else if b == 0x3B {
        Some(TokenType::Semicolon)
    } else if b == 0x2C {
        Some(TokenType::Comma)
    } else if b == DOT {
        Some(TokenType::Dot)
    } else if b == 0x2D {
        Some(TokenType::Minus)
    } else if b == 0x2B {
        Some(TokenType::Plus)
    } else if b == SLASH {
        Some(TokenType::Slash)
    } else if b == 0x2A {
        Some(TokenType::Star)
    } else if b == 0x21 {
        Some(TokenType::Bang)
    } else if b == EQUALS {
        Some(TokenType::Equal)
    } else if b == 0x3C {
        Some(TokenType::Less)
    } else if b == 0x3E {
        Some(TokenType::Greater)
    } else {
        None
    }
}

/// The operator of two bytes that starts with `b` and ends with `=`.
pub open spec fn compound(b: u8) -> Option<TokenType> {
    if b == 0x21 {
        Some(TokenType::BangEqual)
    } else if b == EQUALS {
        Some(TokenType::EqualEqual)
    } else if b == 0x3C {
        Some(TokenType::LessEqual)
    } else if b == 0x3E {
        Some(TokenType::GreaterEqual)
    } else {
        None
    }
}

/// What stands at the start of a piece of source.
pub enum Lexeme {
    /// Nothing: the source is empty.
    End,
    /// A token of `len` bytes, `newlines` of which are line feeds.
    Token { token_type: TokenType, len: int, newlines: nat },
    /// An error, after which the scanner has moved `len` bytes on. It passes
    /// no line feed.
    Error { message: Seq<char>, len: int },
}

/// What stands at the start of `s`, which begins with neither whitespace nor
/// a comment.
pub open spec fn lexeme(s: Seq<u8>) -> Lexeme {
    if s.len() == 0 {
        Lexeme::End
    } else if s[0] == QUOTE {
        let close = find_byte(s, 1, QUOTE);
        if close < s.len() {
            Lexeme::Token {
                token_type: TokenType::String,
                len: close + 1,
                newlines: count_newlines(s.take(close + 1)),
            }
        } else {
            Lexeme::Error { message: "Unterminated string"@, len: 1 }
        }
    } else if is_digit(s[0]) {
        Lexeme::Token { token_type: TokenType::Number, len: number_end(s), newlines: 0 }
    } else if is_alpha(s[0]) {
        let end = word_end(s, 1);
        Lexeme::Token { token_type: keyword(s.take(end)), len: end, newlines: 0 }
    } else if s.len() >= 2 && s[1] == EQUALS && compound(s[0]) is Some {
        Lexeme::Token { token_type: compound(s[0])->0, len: 2, newlines: 0 }
    } else if punctuation(s[0]) is Some {
        Lexeme::Token { token_type: punctuation(s[0])->0, len: 1, newlines: 0 }
    } else {
        Lexeme::Error {
            message: "Unexpected character"@,
            len: length_of_first_scalar(s),
        }
    }
}

/// A token as a plain value: its kind, the bytes it covers, and the line on
/// which it starts.
pub struct TokenView {
    pub token_type: TokenType,
    pub span: Seq<u8>,
    pub line: nat,
}

#[derive(Debug, Clone, Copy)]
pub struct Token<'s> {
    pub token_type: TokenType,
    pub span: &'s str,
    pub line: usize,
}

impl<'s> View for Token<'s> {
    type V = TokenView;

    open spec fn view(&self) -> TokenView {
        TokenView {
            token_type: self.token_type,
            span: self.span.spec_bytes(),
            line: self.line as nat,
        }
    }
}

impl<'s> Token<'s> {
    pub fn new(token_type: TokenType, span: &'s str, line: usize) -> (token: Token<'s>)
        ensures
            token.token_type == token_type,
            token.span == span,
            token.line == line,
    {
        Token { token_type, span, line }
    }
}

/// What a scanner holds: the bytes not yet scanned and the line counter.
pub struct ScannerView {
    pub rest: Seq<u8>,
    pub line: nat,
}

/// What one call of the scanner yields.
pub enum Scan {
    /// The source is exhausted.
    End,
    Token(TokenView),
    /// An error, with its message.
    Error(Seq<char>),
}

/// One call of the scanner: skip whitespace and comments, counting the line
/// feeds, then take what stands there. The second component is the scanner
/// afterwards.
pub open spec fn scan(sc: ScannerView) -> (Scan, ScannerView) {
    let start = blank_end(sc.rest, 0, false);
    let line = sc.line + count_newlines(sc.rest.take(start));
    let s = sc.rest.skip(start);
    match lexeme(s) {
        Lexeme::End => (Scan::End, ScannerView { rest: s, line }),
        Lexeme::Token { token_type, len, newlines } => (
            Scan::Token(TokenView { token_type, span: s.take(len), line }),
            ScannerView { rest: s.skip(len), line: line + newlines },
        ),
        Lexeme::Error { message, len } => (
            Scan::Error(message),
            ScannerView { rest: s.skip(len), line },
        ),
    }
}

impl ScannerView {
    /// The rest is well-formed text, and the line counter cannot overflow:
    /// it has room for every line feed that is still ahead.
    pub open spec fn wf(self) -> bool {
        &&& valid_utf8(self.rest)
        &&& self.line + count_newlines(self.rest) <= usize::MAX
    }
}

pub proof fn lemma_count_newlines_concat(a: Seq<u8>, b: Seq<u8>)
    ensures
        count_newlines(a + b) == count_newlines(a) + count_newlines(b),
    decreases b.len(),
{
    if b.len() == 0 {
        assert(a + b =~= a);
    } else {
        lemma_count_newlines_concat(a, b.drop_last());
        assert((a + b).drop_last() =~= a + b.drop_last());
    }
}

pub proof fn lemma_count_newlines_split(s: Seq<u8>, n: int)
    requires
        0 <= n <= s.len(),
    ensures
        count_newlines(s) == count_newlines(s.take(n)) + count_newlines(s.skip(n)),
        count_newlines(s) <= s.len(),
    decreases s.len(),
{
    lemma_count_newlines_concat(s.take(n), s.skip(n));
    assert(s.take(n) + s.skip(n) =~= s);
    if s.len() > 0 {
        lemma_count_newlines_split(s.drop_last(), 0);
    }
}

/// An index at which no continuation byte stands begins a character.
proof fn lemma_boundary_at(bytes: Seq<u8>, i: int)
    requires
        valid_utf8(bytes),
        0 <= i <= bytes.len(),
        i < bytes.len() ==> !is_continuation_byte(bytes[i]),
    ensures
        is_char_boundary(bytes, i),
{
    if i == bytes.len() {
        is_char_boundary_start_end_of_seq(bytes);
    } else {
        is_char_boundary_iff_not_is_continuation_byte(bytes, i);
    }
}

/// A character begins before and after every ASCII byte.
proof fn lemma_boundary_after_ascii(bytes: Seq<u8>, i: int)
    requires
        valid_utf8(bytes),
        0 <= i < bytes.len(),
        bytes[i] < 0x80,
    ensures
        is_char_boundary(bytes, i),
        is_char_boundary(bytes, i + 1),
{
    lemma_boundary_at(bytes, i);
    valid_utf8_split(bytes, i);
    let tail = bytes.subrange(i, bytes.len() as int);
    assert(tail[0] == bytes[i]);
    assert(valid_utf8(pop_first_scalar(tail)));
    assert(pop_first_scalar(tail) =~= bytes.subrange(i + 1, bytes.len() as int));
    if i + 1 < bytes.len() {
        let next = bytes.subrange(i + 1, bytes.len() as int);
        assert(next[0] == bytes[i + 1]);
        assert(valid_first_scalar(next));
    }
    lemma_boundary_at(bytes, i + 1);
}

/// The first character of a nonempty string ends at a character boundary.
proof fn lemma_boundary_first_scalar(bytes: Seq<u8>)
    requires
        valid_utf8(bytes),
        bytes.len() > 0,
    ensures
        1 <= length_of_first_scalar(bytes) <= bytes.len(),
        is_char_boundary(bytes, length_of_first_scalar(bytes)),
{
    reveal_with_fuel(is_char_boundary, 2);
}

proof fn lemma_find_byte(s: Seq<u8>, from: int, b: u8)
    requires
        0 <= from <= s.len(),
    ensures
        from <= find_byte(s, from, b) <= s.len(),
        find_byte(s, from, b) < s.len() ==> s[find_byte(s, from, b)] == b,
    decreases s.len() - from,
{
    if from < s.len() && s[from] != b {
        lemma_find_byte(s, from + 1, b);
    }
}

proof fn lemma_digits_end(s: Seq<u8>, from: int)
    requires
        0 <= from <= s.len(),
    ensures
        from <= digits_end(s, from) <= s.len(),
        forall|j: int| from <= j < digits_end(s, from) ==> is_digit(#[trigger] s[j]),
    decreases s.len() - from,
{
    if from < s.len() && is_digit(s[from]) {
        lemma_digits_end(s, from + 1);
    }
}

proof fn lemma_word_end(s: Seq<u8>, from: int)
    requires
        0 <= from <= s.len(),
    ensures
        from <= word_end(s, from) <= s.len(),
        forall|j: int|
            from <= j < word_end(s, from) ==> is_alpha(#[trigger] s[j]) || is_digit(s[j]),
    decreases s.len() - from,
{
    if from < s.len() && (is_alpha(s[from]) || is_digit(s[from])) {
        lemma_word_end(s, from + 1);
    }
}

proof fn lemma_blank_end(s: Seq<u8>, from: int, in_comment: bool)
    requires
        valid_utf8(s),
        0 <= from <= s.len(),
        in_comment || is_char_boundary(s, from),
    ensures
        from <= blank_end(s, from, in_comment) <= s.len(),
        is_char_boundary(s, blank_end(s, from, in_comment)),
    decreases s.len() - from, (if in_comment { 1int } else { 0int }),
{
    if from >= s.len() {
        lemma_boundary_at(s, s.len() as int);
    } else if in_comment {
        if s[from] == NEWLINE {
            lemma_boundary_at(s, from);
            lemma_blank_end(s, from, false);
        } else {
            lemma_blank_end(s, from + 1, true);
        }
    } else if is_space(s[from]) {
        lemma_boundary_after_ascii(s, from);
        lemma_blank_end(s, from + 1, false);
    } else if s[from] == SLASH && from + 1 < s.len() && s[from + 1] == SLASH {
        lemma_blank_end(s, from + 2, true);
    }
}

/// A token or an error covers at least one byte, no more than there are, and
/// ends where a character ends.
pub proof fn lemma_lexeme_bounds(s: Seq<u8>)
    requires
        valid_utf8(s),
    ensures
        match lexeme(s) {
            Lexeme::End => s.len() == 0,
            Lexeme::Token { len, .. } => 1 <= len <= s.len() && is_char_boundary(s, len),
            Lexeme::Error { len, .. } => 1 <= len <= s.len() && is_char_boundary(s, len),
        },
{
    if s.len() > 0 {
        if s[0] == QUOTE {
            lemma_find_byte(s, 1, QUOTE);
            let close = find_byte(s, 1, QUOTE);
            if close < s.len() {
                lemma_boundary_after_ascii(s, close);
            } else {
                lemma_boundary_after_ascii(s, 0);
            }
        } else if is_digit(s[0]) {
            lemma_digits_end(s, 0);
            lemma_digits_end(s, 1);
            let whole = digits_end(s, 0);
            if whole + 1 < s.len() && s[whole] == DOT && is_digit(s[whole + 1]) {
                lemma_digits_end(s, whole + 1);
                lemma_digits_end(s, whole + 2);
            }
            let end = number_end(s);
            assert(is_digit(s[end - 1]));
            lemma_boundary_after_ascii(s, end - 1);
        } else if is_alpha(s[0]) {
            lemma_word_end(s, 1);
            let end = word_end(s, 1);
            assert(s[end - 1] < 0x80);
            lemma_boundary_after_ascii(s, end - 1);
        } else if s.len() >= 2 && s[1] == EQUALS && compound(s[0]) is Some {
            lemma_boundary_after_ascii(s, 1);
        } else if punctuation(s[0]) is Some {
            lemma_boundary_after_ascii(s, 0);
        } else {
            lemma_boundary_first_scalar(s);
        }
    }
}

/// A call of the scanner leaves well-formed text. Unless it finds the end of
/// the source it moves on, and it never moves back. What it leaves is the end
/// of what it found, and a token is the bytes just before that.
pub proof fn lemma_scan_moves(sc: ScannerView)
    requires
        valid_utf8(sc.rest),
    ensures
        valid_utf8(scan(sc).1.rest),
        scan(sc).1.rest.len() <= sc.rest.len(),
        scan(sc).1.rest == sc.rest.skip(sc.rest.len() - scan(sc).1.rest.len()),
        !(scan(sc).0 is End) ==> scan(sc).1.rest.len() < sc.rest.len(),
        scan(sc).0 matches Scan::Token(token) ==> ({
            let end = sc.rest.len() - scan(sc).1.rest.len();
            0 < token.span.len() <= end && token.span == sc.rest.subrange(
                end - token.span.len(),
                end,
            )
        }),
{
    lemma_boundary_at(sc.rest, 0);
    lemma_blank_end(sc.rest, 0, false);
    let start = blank_end(sc.rest, 0, false);
    let s = sc.rest.skip(start);
    valid_utf8_split(sc.rest, start);
    lemma_lexeme_bounds(s);
    let next = scan(sc).1.rest;
    match lexeme(s) {
        Lexeme::End => {
            assert(next =~= sc.rest.skip(sc.rest.len() - next.len()));
        },
        Lexeme::Token { len, .. } => {
            valid_utf8_split(s, len);
            assert(next =~= sc.rest.skip(sc.rest.len() - next.len()));
            assert(s.take(len) =~= sc.rest.subrange(start, start + len));
        },
        Lexeme::Error { len, .. } => {
            valid_utf8_split(s, len);
            assert(next =~= sc.rest.skip(sc.rest.len() - next.len()));
        },
    }
}

/// A call of the scanner leaves the scanner well formed. Unless it finds the
/// end of the source it moves on, and it never moves back.
pub proof fn lemma_scan_progress(sc: ScannerView)
    requires
        sc.wf(),
    ensures
        scan(sc).1.wf(),
        scan(sc).1.rest.len() <= sc.rest.len(),
        !(scan(sc).0 is End) ==> scan(sc).1.rest.len() < sc.rest.len(),
        scan(sc).0 is Token ==> scan(sc).0->Token_0.span.len() > 0,
{
    lemma_scan_moves(sc);
    lemma_scan_counts_lines(sc);
}

/// Bytes of which none is a line feed hold no line feed.
proof fn lemma_no_newlines(s: Seq<u8>, n: int)
    requires
        0 <= n <= s.len(),
        forall|j: int| 0 <= j < n ==> s[j] != NEWLINE,
    ensures
        count_newlines(s.take(n)) == 0,
    decreases n,
{
    if n > 0 {
        lemma_no_newlines(s, n - 1);
        assert(s.take(n).drop_last() =~= s.take(n - 1));
    }
}

/// Whitespace and comments end at a byte that is no whitespace, or at the
/// end of the source.
proof fn lemma_blank_end_stops(s: Seq<u8>, from: int, in_comment: bool)
    requires
        0 <= from <= s.len(),
    ensures
        blank_end(s, from, in_comment) < s.len() ==> !is_space(
            s[blank_end(s, from, in_comment)],
        ),
    decreases s.len() - from, (if in_comment { 1int } else { 0int }),
{
    if from < s.len() {
        if in_comment {
            if s[from] == NEWLINE {
                lemma_blank_end_stops(s, from, false);
            } else {
                lemma_blank_end_stops(s, from + 1, true);
            }
        } else if is_space(s[from]) {
            lemma_blank_end_stops(s, from + 1, false);
        } else if s[from] == SLASH && from + 1 < s.len() && s[from + 1] == SLASH {
            lemma_blank_end_stops(s, from + 2, true);
        }
    }
}

/// What a token adds to the line counter is the number of line feeds among
/// its bytes, and the bytes that the scanner passes with an error hold none.
proof fn lemma_lexeme_newlines(s: Seq<u8>)
    requires
        valid_utf8(s),
        s.len() > 0 ==> !is_space(s[0]),
    ensures
        match lexeme(s) {
            Lexeme::End => true,
            Lexeme::Token { len, newlines, .. } => newlines == count_newlines(s.take(len)),
            Lexeme::Error { len, .. } => count_newlines(s.take(len)) == 0,
        },
{
    lemma_lexeme_bounds(s);
    if s.len() > 0 {
        if s[0] == QUOTE {
            lemma_find_byte(s, 1, QUOTE);
            if find_byte(s, 1, QUOTE) >= s.len() {
                lemma_no_newlines(s, 1);
            }
        } else if is_digit(s[0]) {
            lemma_digits_end(s, 0);
            let whole = digits_end(s, 0);
            if whole + 1 < s.len() && s[whole] == DOT && is_digit(s[whole + 1]) {
                lemma_digits_end(s, whole + 1);
            }
            lemma_no_newlines(s, number_end(s));
        } else if is_alpha(s[0]) {
            lemma_word_end(s, 1);
            lemma_no_newlines(s, word_end(s, 1));
        } else if s.len() >= 2 && s[1] == EQUALS && compound(s[0]) is Some {
            lemma_no_newlines(s, 2);
        } else if punctuation(s[0]) is Some {
            lemma_no_newlines(s, 1);
        } else {
            lemma_boundary_first_scalar(s);
            lemma_no_newlines(s, length_of_first_scalar(s));
        }
    }
}

/// A call of the scanner adds to the line counter the number of line feeds
/// that it passes, no more and no less: the counter and the line feeds still
/// ahead together stay what they were. A token carries the counter as it
/// stands where the token starts.
pub proof fn lemma_scan_counts_lines(sc: ScannerView)
    requires
        valid_utf8(sc.rest),
    ensures
        scan(sc).1.line + count_newlines(scan(sc).1.rest) == sc.line + count_newlines(sc.rest),
        scan(sc).1.line == sc.line + count_newlines(
            sc.rest.take(sc.rest.len() - scan(sc).1.rest.len()),
        ),
        scan(sc).0 matches Scan::Token(token) ==> token.line == sc.line + count_newlines(
            sc.rest.take(sc.rest.len() - scan(sc).1.rest.len() - token.span.len()),
        ),
{
    lemma_scan_moves(sc);
    lemma_boundary_at(sc.rest, 0);
    lemma_blank_end(sc.rest, 0, false);
    lemma_blank_end_stops(sc.rest, 0, false);
    let start = blank_end(sc.rest, 0, false);
    let s = sc.rest.skip(start);
    valid_utf8_split(sc.rest, start);
    lemma_lexeme_bounds(s);
    lemma_lexeme_newlines(s);
    let passed = sc.rest.len() - scan(sc).1.rest.len();
    lemma_count_newlines_split(sc.rest, passed);
    lemma_count_newlines_split(sc.rest.take(passed), start);
    assert(sc.rest.take(passed).take(start) =~= sc.rest.take(start));
    assert(sc.rest.take(passed).skip(start) =~= s.take(passed - start));
}

/// The scanner after `n` calls on a source, started on line 1.
pub open spec fn scanned(source: Seq<u8>, n: nat) -> ScannerView
    decreases n,
{
    if n == 0 {
        ScannerView { rest: source, line: 1 }
    } else {
        scan(scanned(source, (n - 1) as nat)).1
    }
}

/// After any number of calls the scanner stands at a byte of the source with
/// what is behind that byte ahead of it, and its counter is 1 more than the
/// number of line feeds before that byte.
pub proof fn lemma_scanned(source: Seq<u8>, n: nat)
    requires
        valid_utf8(source),
    ensures
        valid_utf8(scanned(source, n).rest),
        scanned(source, n).rest.len() <= source.len(),
        scanned(source, n).rest == source.skip(source.len() - scanned(source, n).rest.len()),
        scanned(source, n).line == 1 + count_newlines(
            source.take(source.len() - scanned(source, n).rest.len()),
        ),
    decreases n,
{
    if n == 0 {
        assert(source.skip(0) =~= source);
        assert(source.take(0) =~= Seq::<u8>::empty());
    } else {
        let before = scanned(source, (n - 1) as nat);
        lemma_scanned(source, (n - 1) as nat);
        lemma_scan_moves(before);
        lemma_scan_counts_lines(before);
        let at = source.len() - before.rest.len();
        let next = scan(before).1;
        let passed = before.rest.len() - next.rest.len();
        assert(next.rest =~= source.skip(at + passed));
        lemma_count_newlines_split(source.take(at + passed), at);
        assert(source.take(at + passed).take(at) =~= source.take(at));
        assert(source.take(at + passed).skip(at) =~= before.rest.take(passed));
    }
}

/// Whatever was scanned before, the line of a token is the line of the
/// source on which its first byte stands: 1 more than the number of line
/// feeds before that byte.
pub proof fn lemma_token_line(source: Seq<u8>, n: nat)
    requires
        valid_utf8(source),
    ensures
        scan(scanned(source, n)).0 matches Scan::Token(token) ==> ({
            let end = source.len() - scan(scanned(source, n)).1.rest.len();
            &&& 0 < token.span.len() <= end
            &&& token.span == source.subrange(end - token.span.len(), end)
            &&& token.line == 1 + count_newlines(source.take(end - token.span.len()))
        }),
{
    let before = scanned(source, n);
    lemma_scanned(source, n);
    lemma_scan_moves(before);
    lemma_scan_counts_lines(before);
    if let Scan::Token(token) = scan(before).0 {
        let at = source.len() - before.rest.len();
        let passed = before.rest.len() - scan(before).1.rest.len();
        let start = passed - token.span.len();
        assert(before.rest.subrange(start, passed) =~= source.subrange(at + start, at + passed));
        lemma_count_newlines_split(source.take(at + start), at);
        assert(source.take(at + start).take(at) =~= source.take(at));
        assert(source.take(at + start).skip(at) =~= before.rest.take(start));
    }
}

fn digit(b: u8) -> (r: bool)
    ensures
        r == is_digit(b),
{
    0x30 <= b && b <= 0x39
}

fn alpha(b: u8) -> (r: bool)
    ensures
        r == is_alpha(b),
{
    (0x41 <= b && b <= 0x5A) || (0x61 <= b && b <= 0x7A) || b == 0x5F
}

fn space(b: u8) -> (r: bool)
    ensures
        r == is_space(b),
{
    b == 0x20 || b == 0x09 || b == NEWLINE || b == 0x0C || b == 0x0D
}

/// Compares two byte strings.
fn same_bytes(a: &[u8], b: &[u8]) -> (r: bool)
    ensures
        r == (a@ == b@),
{
    if a.len() != b.len() {
        return false;
    }
    let mut i: usize = 0;
    while i < a.len()
        invariant
            a@.len() == b@.len(),
            0 <= i <= a@.len(),
            forall|j: int| 0 <= j < i ==> a@[j] == b@[j],
        decreases a@.len() - i,
    {
        if a[i] != b[i] {
            return false;
        }
        i += 1;
    }
    assert(a@ =~= b@);
    true
}

pub struct Scanner<'s> {
    source: &'s str,
    line: usize,
}

impl<'s> View for Scanner<'s> {
    type V = ScannerView;

    closed spec fn view(&self) -> ScannerView {
        ScannerView { rest: self.source.spec_bytes(), line: self.line as nat }
    }
}

/// What a call of the scanner returned, as a plain value.
pub open spec fn scan_view(r: Result<Option<Token<'_>>, &'static str>) -> Scan {
    match r {
        Ok(None) => Scan::End,
        Ok(Some(token)) => Scan::Token(token@),
        Err(message) => Scan::Error(message@),
    }
}

impl<'s> Scanner<'s> {
    /// A scanner at the start of `source`, on line 1.
    ///
    /// The bound on the length leaves the line counter room for every line
    /// feed. Every string meets it: none is longer than `isize::MAX` bytes.
    pub fn new(source: &'s str) -> (scanner: Scanner<'s>)
        requires
            source.spec_bytes().len() < usize::MAX,
        ensures
            scanner@ == (ScannerView { rest: source.spec_bytes(), line: 1 }),
            scanner@.wf(),
    {
        proof {
            encode_utf8_valid_utf8(source@);
            lemma_count_newlines_split(source.spec_bytes(), 0);
        }
        Scanner { source, line: 1 }
    }

    /// The line that the scanner has reached.
    pub fn line(&self) -> (line: usize)
        ensures
            line == self@.line,
    {
        self.line
    }

    /// Yields the next token, `None` at the end of the source, or the message
    /// of an error, as [`scan`] has it.
    pub fn scan_token(&mut self) -> (r: Result<Option<Token<'s>>, &'static str>)
        requires
            old(self)@.wf(),
        ensures
            final(self)@.wf(),
            scan(old(self)@) == (scan_view(r), final(self)@),
    {
        self.skip_whitespace();
        let bytes = self.source.as_bytes();
        if bytes.len() == 0 {
            return Ok(None);
        }
        let ch = bytes[0];
        let next_ch: u8 = if bytes.len() > 1 { bytes[1] } else { 0 };
        proof {
            encode_utf8_valid_utf8(self.source@);
        }
        if ch == QUOTE {
            return self.string();
        }
        if digit(ch) {
            return self.number();
        }
        if alpha(ch) {
            return self.identifier();
        }
        let ghost rest = self@.rest;
        if next_ch == EQUALS {
            let two = compound_type(ch);
            if let Some(token_type) = two {
                proof {
                    lemma_boundary_after_ascii(rest, 1);
                    lemma_count_newlines_split(rest, 2);
                }
                let token = self.make_token(token_type, 2);
                proof {
                    encode_utf8_valid_utf8(self.source@);
                }
                return Ok(Some(token));
            }
        }
        match punctuation_type(ch) {
            Some(token_type) => {
                proof {
                    lemma_boundary_after_ascii(rest, 0);
                    lemma_count_newlines_split(rest, 1);
                }
                let token = self.make_token(token_type, 1);
                proof {
                    encode_utf8_valid_utf8(self.source@);
                }
                Ok(Some(token))
            },
            None => {
                proof {
                    lemma_boundary_first_scalar(rest);
                    lemma_count_newlines_split(rest, length_of_first_scalar(rest));
                }
                let width: usize = if ch < 0x80 {
                    1
                } else if ch < 0xE0 {
                    2
                } else if ch < 0xF0 {
                    3
                } else {
                    4
                };
                self.advance(width);
                proof {
                    encode_utf8_valid_utf8(self.source@);
                }
                Err("Unexpected character")
            },
        }
    }

    /// Takes the first `length` bytes as a token on the current line.
    fn make_token(&mut self, token_type: TokenType, length: usize) -> (token: Token<'s>)
        requires
            length <= old(self)@.rest.len(),
            is_char_boundary(old(self)@.rest, length as int),
        ensures
            token@ == (TokenView {
                token_type,
                span: old(self)@.rest.take(length as int),
                line: old(self)@.line,
            }),
            final(self)@ == (ScannerView {
                rest: old(self)@.rest.skip(length as int),
                line: old(self)@.line,
            }),
    {
        let (span, source) = self.source.split_at(length);
        self.source = source;
        Token::new(token_type, span, self.line)
    }

    /// Skips whitespace and comments, counting the line feeds.
    fn skip_whitespace(&mut self)
        requires
            old(self)@.wf(),
        ensures
            final(self)@.wf(),
            final(self)@.rest == old(self)@.rest.skip(blank_end(old(self)@.rest, 0, false)),
            final(self)@.line == old(self)@.line + count_newlines(
                old(self)@.rest.take(blank_end(old(self)@.rest, 0, false)),
            ),
    {
        let bytes = self.source.as_bytes();
        let len = bytes.len();
        let ghost rest = self@.rest;
        let mut i: usize = 0;
        let mut newlines: usize = 0;
        let mut in_comment = false;
        proof {
            encode_utf8_valid_utf8(self.source@);
            assert(rest.take(0) =~= Seq::<u8>::empty());
        }
        loop
            invariant
                bytes@ == rest,
                len == rest.len(),
                valid_utf8(rest),
                0 <= i <= len,
                newlines == count_newlines(rest.take(i as int)),
                newlines <= i,
                blank_end(rest, i as int, in_comment) == blank_end(rest, 0, false),
                is_char_boundary(rest, i as int) || in_comment,
            ensures
                0 <= i <= len,
                newlines == count_newlines(rest.take(i as int)),
                i == blank_end(rest, 0, false),
                is_char_boundary(rest, i as int),
            decreases len - i, (if in_comment { 1int } else { 0int }),
        {
            if i >= len {
                proof {
                    lemma_boundary_at(rest, i as int);
                }
                break;
            }
            let b = bytes[i];
            proof {
                assert(rest.take(i + 1).drop_last() =~= rest.take(i as int));
            }
            if in_comment {
                if b == NEWLINE {
                    in_comment = false;
                    proof {
                        lemma_boundary_at(rest, i as int);
                    }
                } else {
                    i += 1;
                }
            } else if space(b) {
                if b == NEWLINE {
                    newlines += 1;
                }
                proof {
                    lemma_boundary_after_ascii(rest, i as int);
                }
                i += 1;
            } else if b == SLASH && len - i > 1 && bytes[i + 1] == SLASH {
                proof {
                    assert(rest.take(i + 2).drop_last() =~= rest.take(i + 1));
                    assert(count_newlines(rest.take(i + 1)) == count_newlines(rest.take(i as int)));
                    assert(count_newlines(rest.take(i + 2)) == count_newlines(rest.take(i + 1)));
                }
                i += 2;
                in_comment = true;
            } else {
                break;
            }
        }
        proof {
            lemma_count_newlines_split(rest, i as int);
        }
        self.line += newlines;
        self.advance(i);
        proof {
            encode_utf8_valid_utf8(self.source@);
        }
    }

    /// Scans a string literal, whose opening quote stands first.
    fn string(&mut self) -> (r: Result<Option<Token<'s>>, &'static str>)
        requires
            old(self)@.wf(),
            old(self)@.rest.len() > 0,
            old(self)@.rest[0] == QUOTE,
        ensures
            final(self)@.wf(),
            scan_rest(old(self)@) == (scan_view(r), final(self)@),
    {
        let bytes = self.source.as_bytes();
        let len = bytes.len();
        let ghost rest = self@.rest;
        let mut i: usize = 1;
        let mut newlines: usize = 0;
        proof {
            assert(rest.take(1).drop_last() =~= Seq::<u8>::empty());
            assert(count_newlines(rest.take(1)) == 0) by {
                reveal_with_fuel(count_newlines, 2);
            }
        }
        while i < len && bytes[i] != QUOTE
            invariant
                bytes@ == rest,
                len == rest.len(),
                1 <= i <= len,
                newlines == count_newlines(rest.take(i as int)),
                newlines <= i,
                find_byte(rest, i as int, QUOTE) == find_byte(rest, 1, QUOTE),
                forall|j: int| 1 <= j < i ==> rest[j] != QUOTE,
            decreases len - i,
        {
            proof {
                assert(rest.take(i + 1).drop_last() =~= rest.take(i as int));
            }
            if bytes[i] == NEWLINE {
                newlines += 1;
            }
            i += 1;
        }
        if i < len {
            proof {
                assert(rest.take(i + 1).drop_last() =~= rest.take(i as int));
                lemma_boundary_after_ascii(rest, i as int);
                lemma_count_newlines_split(rest, i + 1);
            }
            let token = self.make_token(TokenType::String, i + 1);
            self.line += newlines;
            proof {
                encode_utf8_valid_utf8(self.source@);
            }
            Ok(Some(token))
        } else {
            proof {
                lemma_boundary_after_ascii(rest, 0);
                lemma_count_newlines_split(rest, 1);
            }
            self.advance(1);
            proof {
                encode_utf8_valid_utf8(self.source@);
            }
            Err("Unterminated string")
        }
    }

    /// Scans a number literal, whose first digit stands first.
    fn number(&mut self) -> (r: Result<Option<Token<'s>>, &'static str>)
        requires
            old(self)@.wf(),
            old(self)@.rest.len() > 0,
            is_digit(old(self)@.rest[0]),
        ensures
            final(self)@.wf(),
            scan_rest(old(self)@) == (scan_view(r), final(self)@),
    {
        let bytes = self.source.as_bytes();
        let len = bytes.len();
        let ghost rest = self@.rest;
        let mut i: usize = 0;
        while i < len && digit(bytes[i])
            invariant
                bytes@ == rest,
                len == rest.len(),
                0 <= i <= len,
                digits_end(rest, i as int) == digits_end(rest, 0),
                forall|j: int| 0 <= j < i ==> is_digit(rest[j]),
            decreases len - i,
        {
            i += 1;
        }
        if i < len && len - i > 1 && bytes[i] == DOT && digit(bytes[i + 1]) {
            i += 1;
            let ghost from = i;
            while i < len && digit(bytes[i])
                invariant
                    bytes@ == rest,
                    len == rest.len(),
                    from <= i <= len,
                    digits_end(rest, i as int) == digits_end(rest, from as int),
                    forall|j: int| from <= j < i ==> is_digit(rest[j]),
                decreases len - i,
            {
                i += 1;
            }
        }
        proof {
            encode_utf8_valid_utf8(self.source@);
            lemma_boundary_after_ascii(rest, i - 1);
            lemma_count_newlines_split(rest, i as int);
        }
        let token = self.make_token(TokenType::Number, i);
        proof {
            encode_utf8_valid_utf8(self.source@);
        }
        Ok(Some(token))
    }

    /// Scans an identifier or a reserved word, whose first byte stands first.
    fn identifier(&mut self) -> (r: Result<Option<Token<'s>>, &'static str>)
        requires
            old(self)@.wf(),
            old(self)@.rest.len() > 0,
            is_alpha(old(self)@.rest[0]),
        ensures
            final(self)@.wf(),
            scan_rest(old(self)@) == (scan_view(r), final(self)@),
    {
        let bytes = self.source.as_bytes();
        let len = bytes.len();
        let ghost rest = self@.rest;
        let mut pos: usize = 1;
        while pos < len && (alpha(bytes[pos]) || digit(bytes[pos]))
            invariant
                bytes@ == rest,
                len == rest.len(),
                1 <= pos <= len,
                word_end(rest, pos as int) == word_end(rest, 1),
                forall|j: int| 0 <= j < pos ==> rest[j] < 0x80,
            decreases len - pos,
        {
            pos += 1;
        }
        proof {
            encode_utf8_valid_utf8(self.source@);
            lemma_boundary_after_ascii(rest, pos - 1);
            lemma_count_newlines_split(rest, pos as int);
        }
        let (span, _) = self.source.split_at(pos);
        let token_type = self.identifier_type(span);
        let token = self.make_token(token_type, pos);
        proof {
            encode_utf8_valid_utf8(self.source@);
        }
        Ok(Some(token))
    }

    /// Tells a reserved word from an identifier.
    fn identifier_type(&self, span: &str) -> (token_type: TokenType)
        ensures
            token_type == keyword(span.spec_bytes()),
    {
        let word = span.as_bytes();
        if same_bytes(word, "and".as_bytes()) {
            TokenType::And
        } else if same_bytes(word, "class".as_bytes()) {
            TokenType::Class
        } else if same_bytes(word, "else".as_bytes()) {
            TokenType::Else
        } else if same_bytes(word, "false".as_bytes()) {
            TokenType::False
        } else if same_bytes(word, "for".as_bytes()) {
            TokenType::For
        } else if same_bytes(word, "fun".as_bytes()) {
            TokenType::Fun
        } else if same_bytes(word, "if".as_bytes()) {
            TokenType::If
        } else if same_bytes(word, "nil".as_bytes()) {
            TokenType::Nil
        } else if same_bytes(word, "or".as_bytes()) {
            TokenType::Or
        } else if same_bytes(word, "print".as_bytes()) {
            TokenType::Print
        } else if same_bytes(word, "return".as_bytes()) {
            TokenType::Return
        } else if same_bytes(word, "super".as_bytes()) {
            TokenType::Super
        } else if same_bytes(word, "this".as_bytes()) {
            TokenType::This
        } else if same_bytes(word, "true".as_bytes()) {
            TokenType::True
        } else if same_bytes(word, "var".as_bytes()) {
            TokenType::Var
        } else if same_bytes(word, "while".as_bytes()) {
            TokenType::While
        } else {
            TokenType::Identifier
        }
    }

    /// Moves `offset` bytes on.
    fn advance(&mut self, offset: usize)
        requires
            offset <= old(self)@.rest.len(),
            is_char_boundary(old(self)@.rest, offset as int),
        ensures
            final(self)@ == (ScannerView {
                rest: old(self)@.rest.skip(offset as int),
                line: old(self)@.line,
            }),
    {
        let (_, source) = self.source.split_at(offset);
        self.source = source;
    }
}

/// What [`scan`] yields where the source begins with neither whitespace nor a
/// comment.
pub open spec fn scan_rest(sc: ScannerView) -> (Scan, ScannerView) {
    match lexeme(sc.rest) {
        Lexeme::End => (Scan::End, sc),
        Lexeme::Token { token_type, len, newlines } => (
            Scan::Token(TokenView { token_type, span: sc.rest.take(len), line: sc.line }),
            ScannerView { rest: sc.rest.skip(len), line: sc.line + newlines },
        ),
        Lexeme::Error { message, len } => (
            Scan::Error(message),
            ScannerView { rest: sc.rest.skip(len), line: sc.line },
        ),
    }
}

fn punctuation_type(b: u8) -> (r: Option<TokenType>)
    ensures
        r == punctuation(b),
{
    if b == 0x28 {
        Some(TokenType::LeftParen)
    } else if b == 0x29 {
        Some(TokenType::RightParen)
    } else if b == 0x7B {
        Some(TokenType::LeftBrace)
    } else if b == 0x7D {
        Some(TokenType::RightBrace)
    } else if b == 0x3B {
        Some(TokenType::Semicolon)
    } else if b == 0x2C {
        Some(TokenType::Comma)
    } else if b == DOT {
        Some(TokenType::Dot)
    } else if b == 0x2D {
        Some(TokenType::Minus)
    } else if b == 0x2B {
        Some(TokenType::Plus)
    } else if b == SLASH {
        Some(TokenType::Slash)
    } else if b == 0x2A {
        Some(TokenType::Star)
    } else if b == 0x21 {
        Some(TokenType::Bang)
    } else if b == EQUALS {
        Some(TokenType::Equal)
    } else if b == 0x3C {
        Some(TokenType::Less)
    } else if b == 0x3E {
        Some(TokenType::Greater)
    } else {
        None
    }
}

fn compound_type(b: u8) -> (r: Option<TokenType>)
    ensures
        r == compound(b),
{
    if b == 0x21 {
        Some(TokenType::BangEqual)
    } else if b == EQUALS {
        Some(TokenType::EqualEqual)
    } else if b == 0x3C {
        Some(TokenType::LessEqual)
    } else if b == 0x3E {
        Some(TokenType::GreaterEqual)
    } else {
        None
    }
}

} // verus!
