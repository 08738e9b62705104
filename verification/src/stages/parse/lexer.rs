//! The lexer: turns the characters of a source into tokens.
//!
//! Tokens are matched longest-first. Whitespace and `//` comments separate
//! tokens and are dropped. A character that starts no token, and a number
//! literal whose value does not fit its type, is reported as an unexpected
//! token; lexing goes on after it.
use vstd::prelude::*;

use crate::common::{SourceId, Span};
use crate::error::CompileError;
use crate::text::{all_digits, chars_of, decimal_value, digit_value, is_digit, string_from_chars, string_push};

verus! {

/// What the lexer reads from a source.
pub struct LexInput {
    pub content: String,
    pub source_id: SourceId,
}

/// The tokens of a source with their spans, in source order.
#[derive(Debug)]
pub struct LexResult {
    pub tokens: Vec<(TokenKind, Span)>,
}

/// A token of the language.
#[derive(Debug, PartialEq, Clone)]
pub enum TokenKind {
    Ident(String),
    LiteralU8(u8),
    LiteralU16(u16),
    LiteralNumber(usize),
    LiteralString(String),
    LiteralBool(bool),
    KeywordImport,
    KeywordModule,
    KeywordDef,
    KeywordStruct,
    KeywordEnd,
    Hash,
    Plus,
    Semicolon,
    LeftParenthesis,
    RightParenthesis,
    MinusMinus,
    Dot,
    Comma,
    LeftSquareBracket,
    RightSquareBracket,
    LessThan,
    GreaterThan,
    LeftBrace,
    RightBrace,
    Ellipsis,
    Colon,
    Pipe,
    Equal,
}

/// A token with the text of names and strings seen as characters.
pub enum TokenView {
    Ident(Seq<char>),
    LiteralU8(u8),
    LiteralU16(u16),
    LiteralNumber(usize),
    LiteralString(Seq<char>),
    LiteralBool(bool),
    KeywordImport,
    KeywordModule,
    KeywordDef,
    KeywordStruct,
    KeywordEnd,
    Hash,
    Plus,
    Semicolon,
    LeftParenthesis,
    RightParenthesis,
    MinusMinus,
    Dot,
    Comma,
    LeftSquareBracket,
    RightSquareBracket,
    LessThan,
    GreaterThan,
    LeftBrace,
    RightBrace,
    Ellipsis,
    Colon,
    Pipe,
    Equal,
}

impl View for TokenKind {
    type V = TokenView;

    open spec fn view(&self) -> TokenView {
        match self {
            TokenKind::Ident(s) => TokenView::Ident(s@),
            TokenKind::LiteralU8(v) => TokenView::LiteralU8(*v),
            TokenKind::LiteralU16(v) => TokenView::LiteralU16(*v),
            TokenKind::LiteralNumber(v) => TokenView::LiteralNumber(*v),
            TokenKind::LiteralString(s) => TokenView::LiteralString(s@),
            TokenKind::LiteralBool(b) => TokenView::LiteralBool(*b),
            TokenKind::KeywordImport => TokenView::KeywordImport,
            TokenKind::KeywordModule => TokenView::KeywordModule,
            TokenKind::KeywordDef => TokenView::KeywordDef,
            TokenKind::KeywordStruct => TokenView::KeywordStruct,
            TokenKind::KeywordEnd => TokenView::KeywordEnd,
            TokenKind::Hash => TokenView::Hash,
            TokenKind::Plus => TokenView::Plus,
            TokenKind::Semicolon => TokenView::Semicolon,
            TokenKind::LeftParenthesis => TokenView::LeftParenthesis,
            TokenKind::RightParenthesis => TokenView::RightParenthesis,
            TokenKind::MinusMinus => TokenView::MinusMinus,
            TokenKind::Dot => TokenView::Dot,
            TokenKind::Comma => TokenView::Comma,
            TokenKind::LeftSquareBracket => TokenView::LeftSquareBracket,
            TokenKind::RightSquareBracket => TokenView::RightSquareBracket,
            TokenKind::LessThan => TokenView::LessThan,
            TokenKind::GreaterThan => TokenView::GreaterThan,
            TokenKind::LeftBrace => TokenView::LeftBrace,
            TokenKind::RightBrace => TokenView::RightBrace,
            TokenKind::Ellipsis => TokenView::Ellipsis,
            TokenKind::Colon => TokenView::Colon,
            TokenKind::Pipe => TokenView::Pipe,
            TokenKind::Equal => TokenView::Equal,
        }
    }
}

pub open spec fn is_space(c: char) -> bool {
    c == ' ' || c == '\t' || c == '\n' || c == '\r'
}

pub open spec fn is_ident_start(c: char) -> bool {
    ('a' <= c <= 'z') || ('A' <= c <= 'Z') || c == '_'
}

pub open spec fn is_ident_char(c: char) -> bool {
    is_ident_start(c) || is_digit(c)
}

pub open spec fn is_hex_digit(c: char) -> bool {
    is_digit(c) || ('a' <= c <= 'f') || ('A' <= c <= 'F')
}

/// The value of a hexadecimal digit character.
pub open spec fn hex_digit_value(c: char) -> nat {
    if is_digit(c) {
        digit_value(c)
    } else if 'a' <= c <= 'f' {
        ((c as u32) - ('a' as u32) + 10) as nat
    } else {
        ((c as u32) - ('A' as u32) + 10) as nat
    }
}

/// The value of a sequence of hexadecimal digits.
pub open spec fn hex_value(s: Seq<char>) -> nat
    decreases s.len(),
{
    if s.len() == 0 {
        0
    } else {
        hex_value(s.drop_last()) * 16 + hex_digit_value(s.last())
    }
}

pub open spec fn all_hex_digits(s: Seq<char>) -> bool {
    s.len() >= 1 && forall|i: int| 0 <= i < s.len() ==> is_hex_digit(#[trigger] s[i])
}

pub open spec fn is_ident_lexeme(s: Seq<char>) -> bool {
    s.len() >= 1 && is_ident_start(s[0]) && forall|i: int|
        1 <= i < s.len() ==> is_ident_char(#[trigger] s[i])
}

/// The token of a word-like lexeme: a keyword, a boolean or a name.
pub open spec fn word_token(s: Seq<char>) -> TokenView {
    if s == "import"@ {
        TokenView::KeywordImport
    } else if s == "module"@ {
        TokenView::KeywordModule
    } else if s == "def"@ {
        TokenView::KeywordDef
    } else if s == "struct"@ {
        TokenView::KeywordStruct
    } else if s == "end"@ {
        TokenView::KeywordEnd
    } else if s == "true"@ {
        TokenView::LiteralBool(true)
    } else if s == "false"@ {
        TokenView::LiteralBool(false)
    } else {
        TokenView::Ident(s)
    }
}

/// The token of a punctuation lexeme.
pub open spec fn punct_token(s: Seq<char>) -> Option<TokenView> {
    if s == seq!['#'] {
        Some(TokenView::Hash)
    } else if s == seq!['+'] {
        Some(TokenView::Plus)
    } else if s == seq![';'] {
        Some(TokenView::Semicolon)
    } else if s == seq!['('] {
        Some(TokenView::LeftParenthesis)
    } else if s == seq![')'] {
        Some(TokenView::RightParenthesis)
    } else if s == seq!['-', '-'] {
        Some(TokenView::MinusMinus)
    } else if s == seq!['.'] {
        Some(TokenView::Dot)
    } else if s == seq![','] {
        Some(TokenView::Comma)
    } else if s == seq!['['] {
        Some(TokenView::LeftSquareBracket)
    } else if s == seq![']'] {
        Some(TokenView::RightSquareBracket)
    } else if s == seq!['<'] {
        Some(TokenView::LessThan)
    } else if s == seq!['>'] {
        Some(TokenView::GreaterThan)
    } else if s == seq!['{'] {
        Some(TokenView::LeftBrace)
    } else if s == seq!['}'] {
        Some(TokenView::RightBrace)
    } else if s == seq!['.', '.', '.'] {
        Some(TokenView::Ellipsis)
    } else if s == seq![':'] {
        Some(TokenView::Colon)
    } else if s == seq!['|'] {
        Some(TokenView::Pipe)
    } else if s == seq!['='] {
        Some(TokenView::Equal)
    } else {
        None
    }
}

/// The body of a string literal: characters other than quotes and
/// backslashes, or a backslash followed by any character but a newline.
pub open spec fn string_body_ok(t: Seq<char>) -> bool
    decreases t.len(),
{
    if t.len() == 0 {
        true
    } else if t[0] == '\\' {
        t.len() >= 2 && t[1] != '\n' && string_body_ok(t.subrange(2, t.len() as int))
    } else {
        t[0] != '"' && string_body_ok(t.subrange(1, t.len() as int))
    }
}

/// The character an escape sequence `\c` stands for; `None` keeps both characters.
pub open spec fn escaped_char(c: char) -> Option<char> {
    if c == 'n' {
        Some('\n')
    } else if c == 'r' {
        Some('\r')
    } else if c == 't' {
        Some('\t')
    } else if c == '\\' {
        Some('\\')
    } else if c == '"' {
        Some('"')
    } else {
        None
    }
}

/// The value of a string literal body with its escapes replaced.
pub open spec fn unescape(t: Seq<char>) -> Seq<char>
    decreases t.len(),
{
    if t.len() == 0 {
        Seq::empty()
    } else if t[0] == '\\' && t.len() >= 2 {
        match escaped_char(t[1]) {
            Some(c) => seq![c] + unescape(t.subrange(2, t.len() as int)),
            None => seq!['\\', t[1]] + unescape(t.subrange(2, t.len() as int)),
        }
    } else {
        seq![t[0]] + unescape(t.subrange(1, t.len() as int))
    }
}

pub open spec fn is_string_lexeme(s: Seq<char>) -> bool {
    s.len() >= 2 && s[0] == '"' && s.last() == '"' && string_body_ok(s.subrange(1, s.len() - 1))
}

pub open spec fn ends_with(s: Seq<char>, suffix: Seq<char>) -> bool {
    s.len() >= suffix.len() && s.subrange(s.len() - suffix.len(), s.len() as int) == suffix
}

pub open spec fn is_hex_prefix(s: Seq<char>) -> bool {
    s.len() >= 2 && s[0] == '0' && (s[1] == 'x' || s[1] == 'X')
}

/// The token a complete lexeme stands for; `None` where the text is no
/// lexeme or a number does not fit its type.
pub open spec fn classify(s: Seq<char>) -> Option<TokenView> {
    if is_ident_lexeme(s) {
        Some(word_token(s))
    } else if ends_with(s, "u8"@) && all_digits(s.subrange(0, s.len() - 2)) {
        let v = decimal_value(s.subrange(0, s.len() - 2));
        if v < 256 {
            Some(TokenView::LiteralU8(v as u8))
        } else {
            None
        }
    } else if ends_with(s, "u16"@) && all_digits(s.subrange(0, s.len() - 3)) {
        let v = decimal_value(s.subrange(0, s.len() - 3));
        if v < 65536 {
            Some(TokenView::LiteralU16(v as u16))
        } else {
            None
        }
    } else if is_hex_prefix(s) && ends_with(s, "u8"@) && all_hex_digits(s.subrange(2, s.len() - 2)) {
        let v = hex_value(s.subrange(2, s.len() - 2));
        if v < 256 {
            Some(TokenView::LiteralU8(v as u8))
        } else {
            None
        }
    } else if is_hex_prefix(s) && ends_with(s, "u16"@) && all_hex_digits(
        s.subrange(2, s.len() - 3),
    ) {
        let v = hex_value(s.subrange(2, s.len() - 3));
        if v < 65536 {
            Some(TokenView::LiteralU16(v as u16))
        } else {
            None
        }
    } else if all_digits(s) {
        let v = decimal_value(s);
        if v <= usize::MAX {
            Some(TokenView::LiteralNumber(v as usize))
        } else {
            None
        }
    } else if is_string_lexeme(s) {
        Some(TokenView::LiteralString(unescape(s.subrange(1, s.len() - 1))))
    } else {
        punct_token(s)
    }
}


/// The end of the run of characters of kind `kind` (see `run_pred`) that
/// starts at `j`.
pub open spec fn run_end_spec(s: Seq<char>, j: int, kind: u8) -> int
    decreases s.len() - j,
{
    if 0 <= j < s.len() && run_pred(kind, s[j]) {
        run_end_spec(s, j + 1, kind)
    } else {
        j
    }
}

/// Where the quote that closes a string literal stands, the body starting
/// at `j`; none where the text ends first or a backslash ends a line or the
/// text.
pub open spec fn string_close(s: Seq<char>, j: int) -> Option<int>
    decreases s.len() - j,
{
    if j < 0 || j >= s.len() {
        None
    } else if s[j] == '"' {
        Some(j)
    } else if s[j] == '\\' {
        if j + 1 < s.len() && s[j + 1] != '\n' {
            string_close(s, j + 2)
        } else {
            None
        }
    } else {
        string_close(s, j + 1)
    }
}

/// `suffix` stands at `i`.
pub open spec fn has_suffix_at(s: Seq<char>, i: int, suffix: Seq<char>) -> bool {
    0 <= i && i + suffix.len() <= s.len() && s.subrange(i, i + suffix.len()) == suffix
}

/// The end of a number literal that starts at `i`: hexadecimal digits after
/// `0x` with a `u8` or `u16` suffix, or decimal digits with an optional
/// suffix.
pub open spec fn number_end(s: Seq<char>, i: int) -> int {
    let h = run_end_spec(s, i + 2, 2);
    let e = run_end_spec(s, i, 1);
    if s[i] == '0' && i + 2 < s.len() && (s[i + 1] == 'x' || s[i + 1] == 'X') && is_hex_digit(s[i + 2]) && (
    has_suffix_at(s, h, "u8"@) || has_suffix_at(s, h, "u16"@)) {
        if has_suffix_at(s, h, "u8"@) {
            h + 2
        } else {
            h + 3
        }
    } else if has_suffix_at(s, e, "u8"@) {
        e + 2
    } else if has_suffix_at(s, e, "u16"@) {
        e + 3
    } else {
        e
    }
}

/// The end of the lexeme that starts at `i`: the longest name, number
/// literal, string literal or punctuation there; one character where none
/// starts there.
pub open spec fn lexeme_end(s: Seq<char>, i: int) -> int {
    let c = s[i];
    if is_ident_start(c) {
        run_end_spec(s, i + 1, 0)
    } else if is_digit(c) {
        number_end(s, i)
    } else if c == '"' {
        match string_close(s, i + 1) {
            Some(close) => close + 1,
            None => i + 1,
        }
    } else if c == '-' && i + 1 < s.len() && s[i + 1] == '-' {
        i + 2
    } else if c == '.' && i + 2 < s.len() && s[i + 1] == '.' && s[i + 2] == '.' {
        i + 3
    } else {
        i + 1
    }
}

/// The first position from `i` that is neither whitespace nor in a `//`
/// comment; `in_comment` tells that a comment runs at `i`.
pub open spec fn gap_end(s: Seq<char>, i: int, in_comment: bool) -> int
    decreases s.len() - i,
{
    if i < 0 || i >= s.len() {
        i
    } else if in_comment {
        gap_end(s, i + 1, s[i] != '\n')
    } else if is_space(s[i]) {
        gap_end(s, i + 1, false)
    } else if s[i] == '/' && i + 1 < s.len() && s[i + 1] == '/' {
        gap_end(s, i + 2, true)
    } else {
        i
    }
}

pub proof fn lemma_run_end_bounds(s: Seq<char>, j: int, kind: u8)
    requires
        0 <= j <= s.len(),
    ensures
        j <= run_end_spec(s, j, kind) <= s.len(),
    decreases s.len() - j,
{
    if j < s.len() && run_pred(kind, s[j]) {
        lemma_run_end_bounds(s, j + 1, kind);
    }
}

pub proof fn lemma_string_close_bounds(s: Seq<char>, j: int)
    ensures
        string_close(s, j) matches Some(c) ==> j <= c < s.len() && s[c] == '"',
    decreases s.len() - j,
{
    if 0 <= j < s.len() && s[j] != '"' {
        if s[j] == '\\' {
            if j + 1 < s.len() && s[j + 1] != '\n' {
                lemma_string_close_bounds(s, j + 2);
            }
        } else {
            lemma_string_close_bounds(s, j + 1);
        }
    }
}

/// A lexeme is at least one character long and ends within the text.
pub proof fn lemma_lexeme_end_bounds(s: Seq<char>, i: int)
    requires
        0 <= i < s.len(),
    ensures
        i < lexeme_end(s, i) <= s.len(),
{
    reveal_strlit("u8");
    reveal_strlit("u16");
    lemma_run_end_bounds(s, i + 1, 0);
    lemma_run_end_bounds(s, i, 1);
    if i + 2 <= s.len() {
        lemma_run_end_bounds(s, i + 2, 2);
    }
    lemma_string_close_bounds(s, i + 1);
    if is_digit(s[i]) {
        assert(run_end_spec(s, i, 1) == run_end_spec(s, i + 1, 1));
        lemma_run_end_bounds(s, i + 1, 1);
    }
}

pub proof fn lemma_gap_end_bounds(s: Seq<char>, i: int, in_comment: bool)
    requires
        0 <= i <= s.len(),
    ensures
        i <= gap_end(s, i, in_comment) <= s.len(),
    decreases s.len() - i,
{
    if i < s.len() {
        if in_comment {
            lemma_gap_end_bounds(s, i + 1, s[i] != '\n');
        } else if is_space(s[i]) {
            lemma_gap_end_bounds(s, i + 1, false);
        } else if s[i] == '/' && i + 1 < s.len() && s[i + 1] == '/' {
            lemma_gap_end_bounds(s, i + 2, true);
        }
    }
}

/// The spans `(start, end)` of the lexemes from position `i` on, in order.
pub open spec fn lexemes(s: Seq<char>, i: int) -> Seq<(int, int)>
    decreases s.len() - i,
{
    let j = gap_end(s, i, false);
    if i < 0 || i >= s.len() || j >= s.len() {
        Seq::empty()
    } else {
        proof {
            lemma_gap_end_bounds(s, i, false);
            lemma_lexeme_end_bounds(s, j);
        }
        seq![(j, lexeme_end(s, j))] + lexemes(s, lexeme_end(s, j))
    }
}


/// The lexeme at span `l` stands for a token.
pub open spec fn lexeme_ok(s: Seq<char>, l: (int, int)) -> bool {
    classify(s.subrange(l.0, l.1)) is Some
}

/// One unexpected-token error for each lexeme that stands for no token, in
/// order.
pub open spec fn lexeme_errors(s: Seq<char>, source_id: SourceId, ls: Seq<(int, int)>) -> Seq<CompileError>
    decreases ls.len(),
{
    if ls.len() == 0 {
        Seq::empty()
    } else if lexeme_ok(s, ls.last()) {
        lexeme_errors(s, source_id, ls.drop_last())
    } else {
        lexeme_errors(s, source_id, ls.drop_last()).push(
            CompileError::UnexpectedToken {
                span: Span { source_id, start: ls.last().0 as usize, end: ls.last().1 as usize },
            },
        )
    }
}

/// No error is reported exactly when every lexeme stands for a token.
pub proof fn lemma_lexeme_errors_empty(s: Seq<char>, source_id: SourceId, ls: Seq<(int, int)>)
    ensures
        lexeme_errors(s, source_id, ls).len() == 0 <==> forall|k: int| 0 <= k < ls.len() ==> lexeme_ok(s, #[trigger] ls[k]),
    decreases ls.len(),
{
    if ls.len() > 0 {
        let init = ls.drop_last();
        lemma_lexeme_errors_empty(s, source_id, init);
        if forall|k: int| 0 <= k < ls.len() ==> lexeme_ok(s, #[trigger] ls[k]) {
            assert forall|k: int| 0 <= k < init.len() implies lexeme_ok(s, #[trigger] init[k]) by {
                assert(init[k] == ls[k]);
            }
            assert(lexeme_ok(s, ls[ls.len() - 1]));
        }
        if lexeme_errors(s, source_id, ls).len() == 0 {
            assert forall|k: int| 0 <= k < ls.len() implies lexeme_ok(s, #[trigger] ls[k]) by {
                if k < init.len() {
                    assert(init[k] == ls[k]);
                }
            }
        }
    }
}

/// A comment that runs on without a line end keeps the gap going.
pub proof fn lemma_gap_comment(s: Seq<char>, k: int, j: int)
    requires
        0 <= k <= j <= s.len(),
        forall|m: int| k <= m < j ==> s[m] != '\n',
    ensures
        gap_end(s, k, true) == gap_end(s, j, true),
    decreases j - k,
{
    if k < j {
        lemma_gap_comment(s, k + 1, j);
    }
}

/// Whitespace at `i` starts no lexeme.
pub proof fn lemma_lexemes_space(s: Seq<char>, i: int)
    requires
        0 <= i < s.len(),
        is_space(s[i]),
    ensures
        lexemes(s, i) == lexemes(s, i + 1),
{
    assert(gap_end(s, i, false) == gap_end(s, i + 1, false));
    lemma_gap_end_bounds(s, i + 1, false);
}

/// A comment from `i` to the line end `j` (or the end of the text) starts no
/// lexeme.
pub proof fn lemma_lexemes_comment(s: Seq<char>, i: int, j: int)
    requires
        0 <= i,
        i + 2 <= j <= s.len(),
        s[i] == '/',
        s[i + 1] == '/',
        forall|m: int| i <= m < j ==> s[m] != '\n',
        j < s.len() ==> s[j] == '\n',
    ensures
        lexemes(s, i) == lexemes(s, j),
{
    lemma_gap_comment(s, i + 2, j);
    assert(gap_end(s, i, false) == gap_end(s, i + 2, true));
    if j < s.len() {
        assert(gap_end(s, j, true) == gap_end(s, j + 1, false));
        assert(gap_end(s, j, false) == gap_end(s, j + 1, false));
    }
    lemma_gap_end_bounds(s, j, false);
}

/// A character that is neither whitespace nor the start of a comment starts
/// a lexeme.
pub proof fn lemma_lexemes_token(s: Seq<char>, i: int)
    requires
        0 <= i < s.len(),
        !is_space(s[i]),
        !(s[i] == '/' && i + 1 < s.len() && s[i + 1] == '/'),
    ensures
        lexemes(s, i) == seq![(i, lexeme_end(s, i))] + lexemes(s, lexeme_end(s, i)),
{
    assert(gap_end(s, i, false) == i);
}


/// Lexemes are non-empty spans of the text, in order.
pub proof fn lemma_lexemes_bounds(s: Seq<char>, i: int)
    requires
        0 <= i,
    ensures
        forall|k: int|
            0 <= k < lexemes(s, i).len() ==> i <= (#[trigger] lexemes(s, i)[k]).0 < lexemes(s, i)[k].1 <= s.len(),
    decreases s.len() - i,
{
    let j = gap_end(s, i, false);
    if i < s.len() && j < s.len() {
        lemma_gap_end_bounds(s, i, false);
        lemma_lexeme_end_bounds(s, j);
        let e = lexeme_end(s, j);
        lemma_lexemes_bounds(s, e);
        let ls = lexemes(s, i);
        assert(ls == seq![(j, e)] + lexemes(s, e));
        assert forall|k: int| 0 <= k < ls.len() implies i <= (#[trigger] ls[k]).0 < ls[k].1 <= s.len() by {
            if k > 0 {
                assert(ls[k] == lexemes(s, e)[k - 1]);
            }
        }
    }
}

/// Position `i` lies in a `//` comment that starts at or after `a`.
pub open spec fn in_comment(s: Seq<char>, a: int, i: int) -> bool {
    exists|j: int|
        #![trigger s[j], s[j + 1]]
        a <= j <= i && j + 1 < s.len() && s[j] == '/' && s[j + 1] == '/' && forall|k: int|
            j <= k <= i ==> s[k] != '\n'
}

/// Between `a` and `b` there is only whitespace and comments.
#[verifier::opaque]
pub open spec fn gap_ok(s: Seq<char>, a: int, b: int) -> bool {
    forall|i: int| a <= i < b ==> is_space(#[trigger] s[i]) || in_comment(s, a, i)
}

/// The tokens tile the source: each covers exactly the text it stands for,
/// in order, with only whitespace and comments around and between them.
pub open spec fn tokens_match(s: Seq<char>, source_id: SourceId, tokens: Seq<(TokenKind, Span)>) -> bool {
    &&& forall|i: int|
        0 <= i < tokens.len() ==> {
            let span = #[trigger] tokens[i].1;
            &&& span.source_id == source_id
            &&& span.start < span.end <= s.len()
            &&& classify(s.subrange(span.start as int, span.end as int)) == Some(tokens[i].0@)
        }
    &&& forall|i: int|
        0 <= i < tokens.len() - 1 ==> (#[trigger] tokens[i]).1.end <= tokens[i + 1].1.start
    &&& forall|i: int|
        0 <= i < tokens.len() - 1 ==> gap_ok(
            s,
            (#[trigger] tokens[i]).1.end as int,
            tokens[i + 1].1.start as int,
        )
    &&& tokens.len() > 0 ==> gap_ok(s, 0, tokens[0].1.start as int)
    &&& tokens.len() > 0 ==> gap_ok(s, tokens.last().1.end as int, s.len() as int)
    &&& tokens.len() == 0 ==> gap_ok(s, 0, s.len() as int)
}

fn is_space_char(c: char) -> (r: bool)
    ensures
        r == is_space(c),
{
    c == ' ' || c == '\t' || c == '\n' || c == '\r'
}

fn is_ident_start_char(c: char) -> (r: bool)
    ensures
        r == is_ident_start(c),
{
    ('a' <= c && c <= 'z') || ('A' <= c && c <= 'Z') || c == '_'
}

fn is_digit_char(c: char) -> (r: bool)
    ensures
        r == is_digit(c),
{
    '0' <= c && c <= '9'
}

fn is_ident_char_exec(c: char) -> (r: bool)
    ensures
        r == is_ident_char(c),
{
    is_ident_start_char(c) || is_digit_char(c)
}

fn is_hex_char(c: char) -> (r: bool)
    ensures
        r == is_hex_digit(c),
{
    is_digit_char(c) || ('a' <= c && c <= 'f') || ('A' <= c && c <= 'F')
}

fn hex_char_value(c: char) -> (r: usize)
    requires
        is_hex_digit(c),
    ensures
        r == hex_digit_value(c),
        r < 16,
{
    if '0' <= c && c <= '9' {
        ((c as u32) - ('0' as u32)) as usize
    } else if 'a' <= c && c <= 'f' {
        ((c as u32) - ('a' as u32) + 10) as usize
    } else {
        ((c as u32) - ('A' as u32) + 10) as usize
    }
}

/// The value of `cs[a..b]` read in `base` (10 or 16), or `None` when it
/// exceeds `limit`.
fn digits_value(cs: &Vec<char>, a: usize, b: usize, hex: bool, limit: usize) -> (r: Option<usize>)
    requires
        limit >= 15,
        a <= b <= cs@.len(),
        hex ==> all_hex_digits(cs@.subrange(a as int, b as int)) || a == b,
        !hex ==> all_digits(cs@.subrange(a as int, b as int)) || a == b,
    ensures
        hex ==> (r matches Some(v) ==> v == hex_value(cs@.subrange(a as int, b as int)) && v
            <= limit),
        hex ==> (r is None ==> hex_value(cs@.subrange(a as int, b as int)) > limit),
        !hex ==> (r matches Some(v) ==> v == decimal_value(cs@.subrange(a as int, b as int)) && v
            <= limit),
        !hex ==> (r is None ==> decimal_value(cs@.subrange(a as int, b as int)) > limit),
{
    let base: usize = if hex {
        16
    } else {
        10
    };
    let mut v: usize = 0;
    let mut i: usize = a;
    while i < b
        invariant
            a <= i <= b <= cs@.len(),
            base == (if hex {
                16usize
            } else {
                10usize
            }),
            hex ==> all_hex_digits(cs@.subrange(a as int, b as int)) || a == b,
            !hex ==> all_digits(cs@.subrange(a as int, b as int)) || a == b,
            v <= limit,
            limit >= 15,
            hex ==> v == hex_value(cs@.subrange(a as int, i as int)),
            !hex ==> v == decimal_value(cs@.subrange(a as int, i as int)),
        decreases b - i,
    {
        let ghost pre = cs@.subrange(a as int, i as int);
        let ghost nxt = cs@.subrange(a as int, i + 1);
        assert(nxt.drop_last() =~= pre);
        assert(nxt.last() == cs@[i as int]);
        assert(cs@[i as int] == cs@.subrange(a as int, b as int)[i - a]);
        let d: usize = if hex {
            hex_char_value(cs[i])
        } else {
            ((cs[i] as u32) - ('0' as u32)) as usize
        };
        assert(d < base);
        if v > (limit - d) / base {
            proof {
                let q: int = (limit - d) as int / base as int;
                assert(v * base + d > limit) by (nonlinear_arith)
                    requires
                        v > q,
                        q == (limit - d) as int / base as int,
                        base > 0,
                        d <= limit,
                {
                }
                lemma_value_grows(cs@.subrange(a as int, b as int), (i - a) as int, hex);
                assert(cs@.subrange(a as int, b as int).subrange(0, i - a) =~= pre);
                assert(cs@.subrange(a as int, b as int).subrange(0, i - a + 1) =~= nxt);
            }
            return None;
        }
        proof {
            let q: int = (limit - d) as int / base as int;
            assert(v * base + d <= limit) by (nonlinear_arith)
                requires
                    v <= q,
                    q == (limit - d) as int / base as int,
                    base > 0,
                    d <= limit,
            {
            }
        }
        v = v * base + d;
        i += 1;
    }
    Some(v)
}

proof fn lemma_value_grows(s: Seq<char>, i: int, hex: bool)
    requires
        0 <= i < s.len(),
        hex ==> all_hex_digits(s),
        !hex ==> all_digits(s),
    ensures
        hex ==> hex_value(s) >= hex_value(s.subrange(0, i + 1)),
        !hex ==> decimal_value(s) >= decimal_value(s.subrange(0, i + 1)),
    decreases s.len() - i,
{
    if i + 1 < s.len() {
        let t = s.subrange(0, i + 2);
        lemma_value_grows(s, i + 1, hex);
        assert(t.drop_last() =~= s.subrange(0, i + 1));
        if hex {
            assert(hex_value(t) == hex_value(t.drop_last()) * 16 + hex_digit_value(t.last()));
        } else {
            assert(decimal_value(t) == decimal_value(t.drop_last()) * 10 + digit_value(t.last()));
        }
    } else {
        assert(s.subrange(0, i + 1) =~= s);
    }
}

/// Reads the body of a string literal and its value, starting after the
/// opening quote; returns the position of the closing quote.
fn scan_string(cs: &Vec<char>, start: usize) -> (r: Option<(usize, Vec<char>)>)
    requires
        start < cs@.len(),
        cs@[start as int] == '"',
    ensures
        r matches Some((close, value)) ==> start < close < cs@.len() && is_string_lexeme(
            cs@.subrange(start as int, close + 1),
        ) && value@ == unescape(cs@.subrange(start + 1, close as int)),
        r matches Some((close, _)) ==> string_close(cs@, start + 1) == Some(close as int),
        r is None ==> string_close(cs@, start + 1) is None,
{
    let n = cs.len();
    let mut i: usize = start + 1;
    let mut value: Vec<char> = Vec::new();
    while i < n
        invariant
            n == cs@.len(),
            start < i <= cs@.len(),
            cs@[start as int] == '"',
            string_body_ok(cs@.subrange(start + 1, i as int)),
            value@ == unescape(cs@.subrange(start + 1, i as int)),
            string_close(cs@, start + 1) == string_close(cs@, i as int),
        decreases cs@.len() - i,
    {
        let c = cs[i];
        if c == '"' {
            let ghost t = cs@.subrange(start as int, i + 1);
            assert(t.subrange(1, t.len() - 1) =~= cs@.subrange(start + 1, i as int));
            return Some((i, value));
        }
        if c == '\\' {
            if n - i > 1 && cs[i + 1] != '\n' {
                let e = cs[i + 1];
                if e == 'n' {
                    value.push('\n');
                } else if e == 'r' {
                    value.push('\r');
                } else if e == 't' {
                    value.push('\t');
                } else if e == '\\' {
                    value.push('\\');
                } else if e == '"' {
                    value.push('"');
                } else {
                    value.push('\\');
                    value.push(e);
                }
                proof {
                    lemma_body_extend(cs@, start + 1, i as int, 2);
                }
                i += 2;
            } else {
                return None;
            }
        } else {
            value.push(c);
            proof {
                lemma_body_extend(cs@, start + 1, i as int, 1);
            }
            i += 1;
        }
    }
    None
}

/// Extending a well-formed body by one plain character or one escape.
proof fn lemma_body_extend(s: Seq<char>, a: int, i: int, n: int)
    requires
        0 <= a <= i,
        i + n <= s.len(),
        n == 1 || n == 2,
        string_body_ok(s.subrange(a, i)),
        n == 1 ==> s[i] != '"' && s[i] != '\\',
        n == 2 ==> s[i] == '\\' && s[i + 1] != '\n',
    ensures
        string_body_ok(s.subrange(a, i + n)),
        unescape(s.subrange(a, i + n)) == unescape(s.subrange(a, i)) + (if n == 1 {
            seq![s[i]]
        } else {
            match escaped_char(s[i + 1]) {
                Some(c) => seq![c],
                None => seq!['\\', s[i + 1]],
            }
        }),
    decreases i - a,
{
    let t = s.subrange(a, i + n);
    if a == i {
        let rest = t.subrange(n, t.len() as int);
        assert(rest =~= Seq::<char>::empty());
        assert(s.subrange(a, i) =~= Seq::<char>::empty());
        if n == 1 {
            assert(unescape(t) == seq![t[0]] + unescape(rest));
            assert(unescape(t) =~= seq![s[i]]);
        } else {
            assert(t[0] == '\\');
            assert(t[1] == s[i + 1]);
        }
    } else {
        let step: int = if s[a] == '\\' {
            2
        } else {
            1
        };
        let u = s.subrange(a, i);
        if s[a] == '\\' {
            assert(u[0] == '\\');
            assert(u.len() >= 2);
        }
        assert(a + step <= i);
        assert(t.subrange(step, t.len() as int) =~= s.subrange(a + step, i + n));
        assert(u.subrange(step, u.len() as int) =~= s.subrange(a + step, i));
        lemma_body_extend(s, a + step, i, n);
        assert(t[0] == s[a]);
        if step == 2 {
            assert(t[1] == s[a + 1]);
            assert(u[1] == s[a + 1]);
        }
        let tail = if n == 1 {
            seq![s[i]]
        } else {
            match escaped_char(s[i + 1]) {
                Some(c) => seq![c],
                None => seq!['\\', s[i + 1]],
            }
        };
        if step == 2 {
            match escaped_char(s[a + 1]) {
                Some(c) => {
                    assert(seq![c] + (unescape(s.subrange(a + step, i)) + tail) =~= (seq![c]
                        + unescape(s.subrange(a + step, i))) + tail);
                },
                None => {
                    assert(seq!['\\', s[a + 1]] + (unescape(s.subrange(a + step, i)) + tail)
                        =~= (seq!['\\', s[a + 1]] + unescape(s.subrange(a + step, i))) + tail);
                },
            }
        } else {
            assert(seq![s[a]] + (unescape(s.subrange(a + step, i)) + tail) =~= (seq![s[a]]
                + unescape(s.subrange(a + step, i))) + tail);
        }
    }
}

/// Whether `cs[i..]` starts with `u8`.
fn has_u8_at(cs: &Vec<char>, i: usize) -> (r: bool)
    requires
        i <= cs@.len(),
    ensures
        r == (i + 2 <= cs@.len() && cs@.subrange(i as int, i + 2) == "u8"@),
{
    proof {
        reveal_strlit("u8");
    }
    let n = cs.len();
    if n - i >= 2 && cs[i] == 'u' && cs[i + 1] == '8' {
        assert(cs@.subrange(i as int, i + 2) =~= "u8"@);
        true
    } else {
        proof {
            if i + 2 <= cs@.len() && cs@.subrange(i as int, i + 2) == "u8"@ {
                assert(cs@.subrange(i as int, i + 2)[0] == cs@[i as int]);
                assert(cs@.subrange(i as int, i + 2)[1] == cs@[i + 1]);
            }
        }
        false
    }
}

/// Whether `cs[i..]` starts with `u16`.
fn has_u16_at(cs: &Vec<char>, i: usize) -> (r: bool)
    requires
        i <= cs@.len(),
    ensures
        r == (i + 3 <= cs@.len() && cs@.subrange(i as int, i + 3) == "u16"@),
{
    proof {
        reveal_strlit("u16");
    }
    let n = cs.len();
    if n - i >= 3 && cs[i] == 'u' && cs[i + 1] == '1' && cs[i + 2] == '6' {
        assert(cs@.subrange(i as int, i + 3) =~= "u16"@);
        true
    } else {
        proof {
            if i + 3 <= cs@.len() && cs@.subrange(i as int, i + 3) == "u16"@ {
                assert(cs@.subrange(i as int, i + 3)[0] == cs@[i as int]);
                assert(cs@.subrange(i as int, i + 3)[1] == cs@[i + 1]);
                assert(cs@.subrange(i as int, i + 3)[2] == cs@[i + 2]);
            }
        }
        false
    }
}

/// The token of the word `cs[a..b]`.
fn word_token_exec(cs: &Vec<char>, a: usize, b: usize) -> (r: TokenKind)
    requires
        a < b <= cs@.len(),
    ensures
        r@ == word_token(cs@.subrange(a as int, b as int)),
{
    let ghost w = cs@.subrange(a as int, b as int);
    let word = string_from_chars(slice_of(cs, a, b).as_slice());
    proof {
        reveal_strlit("import");
        reveal_strlit("module");
        reveal_strlit("def");
        reveal_strlit("struct");
        reveal_strlit("end");
        reveal_strlit("true");
        reveal_strlit("false");
    }
    if crate::text::same_text(word.as_str(), "import") {
        TokenKind::KeywordImport
    } else if crate::text::same_text(word.as_str(), "module") {
        TokenKind::KeywordModule
    } else if crate::text::same_text(word.as_str(), "def") {
        TokenKind::KeywordDef
    } else if crate::text::same_text(word.as_str(), "struct") {
        TokenKind::KeywordStruct
    } else if crate::text::same_text(word.as_str(), "end") {
        TokenKind::KeywordEnd
    } else if crate::text::same_text(word.as_str(), "true") {
        TokenKind::LiteralBool(true)
    } else if crate::text::same_text(word.as_str(), "false") {
        TokenKind::LiteralBool(false)
    } else {
        TokenKind::Ident(word)
    }
}

/// The characters `cs[a..b]`.
fn slice_of(cs: &Vec<char>, a: usize, b: usize) -> (r: Vec<char>)
    requires
        a <= b <= cs@.len(),
    ensures
        r@ == cs@.subrange(a as int, b as int),
{
    let mut r: Vec<char> = Vec::new();
    let mut i = a;
    while i < b
        invariant
            a <= i <= b <= cs@.len(),
            r@ == cs@.subrange(a as int, i as int),
        decreases b - i,
    {
        r.push(cs[i]);
        assert(cs@.subrange(a as int, i + 1) =~= cs@.subrange(a as int, i as int).push(
            cs@[i as int],
        ));
        i += 1;
    }
    r
}

/// The end of the longest run starting at `i` of characters for which
/// `pred` holds (0: identifier characters, 1: digits, 2: hex digits).
fn run_end(cs: &Vec<char>, i: usize, kind: u8) -> (r: usize)
    requires
        i <= cs@.len(),
    ensures
        i <= r <= cs@.len(),
        forall|k: int|
            i <= k < r ==> #[trigger] run_pred(kind, cs@[k]),
        r < cs@.len() ==> !run_pred(kind, cs@[r as int]),
        r == run_end_spec(cs@, i as int, kind),
{
    let mut j = i;
    while j < cs.len()
        invariant
            i <= j <= cs@.len(),
            forall|k: int| i <= k < j ==> #[trigger] run_pred(kind, cs@[k]),
            run_end_spec(cs@, i as int, kind) == run_end_spec(cs@, j as int, kind),
        decreases cs@.len() - j,
    {
        let c = cs[j];
        let ok = if kind == 0 {
            is_ident_char_exec(c)
        } else if kind == 1 {
            is_digit_char(c)
        } else {
            is_hex_char(c)
        };
        if !ok {
            return j;
        }
        j += 1;
    }
    j
}

pub open spec fn run_pred(kind: u8, c: char) -> bool {
    if kind == 0 {
        is_ident_char(c)
    } else if kind == 1 {
        is_digit(c)
    } else {
        is_hex_digit(c)
    }
}

/// Reads a number literal at `i`, which holds a digit.
#[verifier::spinoff_prover]
#[verifier::rlimit(60)]
fn next_number(cs: &Vec<char>, i: usize) -> (r: (usize, Option<TokenKind>))
    requires
        i < cs@.len(),
        is_digit(cs@[i as int]),
    ensures
        i < r.0 <= cs@.len(),
        r.1 matches Some(t) ==> classify(cs@.subrange(i as int, r.0 as int)) == Some(t@),
        r.1 is None ==> classify(cs@.subrange(i as int, r.0 as int)) is None,
        r.0 == number_end(cs@, i as int),
{
    let c = cs[i];
    let n = cs.len();
    let ghost s = cs@;
    if c == '0' && n - i > 2 && (cs[i + 1] == 'x' || cs[i + 1] == 'X') && is_hex_char(
        cs[i + 2],
    ) {
        let h = run_end(cs, i + 2, 2);
        let suffix_u8 = has_u8_at(cs, h);
        let suffix_u16 = has_u16_at(cs, h);
        if suffix_u8 || suffix_u16 {
            let end = if suffix_u8 {
                h + 2
            } else {
                h + 3
            };
            let limit: usize = if suffix_u8 {
                255
            } else {
                65535
            };
            proof {
                let w = s.subrange(i as int, end as int);
                let digits = s.subrange(i + 2, h as int);
                assert(w.subrange(2, (h - i) as int) =~= digits);
                assert forall|k: int| 0 <= k < digits.len() implies is_hex_digit(
                    #[trigger] digits[k],
                ) by {
                    assert(digits[k] == s[i + 2 + k]);
                    assert(run_pred(2, s[i + 2 + k]));
                }
                lemma_not_ident(w);
                lemma_hex_not_decimal(w, digits.len() as int);
                if suffix_u8 {
                    assert(w.subrange(w.len() - 2, w.len() as int) =~= s.subrange(
                        h as int,
                        h + 2,
                    ));
                    reveal_strlit("u8");
                    assert(ends_with(w, "u8"@));
                    assert(w.subrange(2, w.len() - 2) =~= digits);
                    reveal_strlit("u16");
                    lemma_last_char(w, "u8"@);
                    if ends_with(w, "u16"@) {
                        lemma_last_char(w, "u16"@);
                    }
                } else {
                    assert(w.subrange(w.len() - 3, w.len() as int) =~= s.subrange(
                        h as int,
                        h + 3,
                    ));
                    reveal_strlit("u16");
                    reveal_strlit("u8");
                    assert(ends_with(w, "u16"@));
                    lemma_last_char(w, "u16"@);
                    if ends_with(w, "u8"@) {
                        lemma_last_char(w, "u8"@);
                    }
                    assert(w.subrange(2, w.len() - 3) =~= digits);
                }
            }
            let v = digits_value(cs, i + 2, h, true, limit);
            match v {
                Some(v) => {
                    if suffix_u8 {
                        return (end, Some(TokenKind::LiteralU8(v as u8)));
                    } else {
                        return (end, Some(TokenKind::LiteralU16(v as u16)));
                    }
                },
                None => {
                    return (end, None);
                },
            }
        }
    }
    let e = run_end(cs, i, 1);
    let suffix_u8 = has_u8_at(cs, e);
    let suffix_u16 = has_u16_at(cs, e);
    let end = if suffix_u8 {
        e + 2
    } else if suffix_u16 {
        e + 3
    } else {
        e
    };
    let limit: usize = if suffix_u8 {
        255
    } else if suffix_u16 {
        65535
    } else {
        usize::MAX
    };
    proof {
        let w = s.subrange(i as int, end as int);
        let digits = s.subrange(i as int, e as int);
        assert forall|k: int| 0 <= k < digits.len() implies is_digit(#[trigger] digits[k]) by {
            assert(digits[k] == s[i + k]);
            assert(run_pred(1, s[i + k]));
        }
        lemma_not_ident(w);
        reveal_strlit("u8");
        reveal_strlit("u16");
        if suffix_u8 {
            assert(w.subrange(w.len() - 2, w.len() as int) =~= s.subrange(e as int, e + 2));
            assert(w.subrange(0, w.len() - 2) =~= digits);
        } else if suffix_u16 {
            assert(w.subrange(w.len() - 3, w.len() as int) =~= s.subrange(e as int, e + 3));
            assert(w.subrange(0, w.len() - 3) =~= digits);
            lemma_last_char(w, "u16"@);
            if ends_with(w, "u8"@) {
                lemma_last_char(w, "u8"@);
            }
        } else {
            assert(w =~= digits);
            assert(!ends_with(w, "u8"@)) by {
                if ends_with(w, "u8"@) {
                    assert(w.subrange(w.len() - 2, w.len() as int)[0] == w[w.len() - 2]);
                    assert(is_digit(w[w.len() - 2]));
                }
            }
            assert(!ends_with(w, "u16"@)) by {
                if ends_with(w, "u16"@) {
                    assert(w.subrange(w.len() - 3, w.len() as int)[0] == w[w.len() - 3]);
                    assert(is_digit(w[w.len() - 3]));
                }
            }
        }
    }
    let v = digits_value(cs, i, e, false, limit);
    match v {
        Some(v) => {
            if suffix_u8 {
                return (end, Some(TokenKind::LiteralU8(v as u8)));
            } else if suffix_u16 {
                return (end, Some(TokenKind::LiteralU16(v as u16)));
            } else {
                return (end, Some(TokenKind::LiteralNumber(v)));
            }
        },
        None => {
            return (end, None);
        },
    }
}

/// Reads one token at `i`, which starts no whitespace or comment.
/// Returns its end and its kind, or the end of the bad text.
#[verifier::spinoff_prover]
#[verifier::rlimit(40)]
fn next_token(cs: &Vec<char>, i: usize) -> (r: (usize, Option<TokenKind>))
    requires
        i < cs@.len(),
    ensures
        i < r.0 <= cs@.len(),
        r.1 matches Some(t) ==> classify(cs@.subrange(i as int, r.0 as int)) == Some(t@),
        r.1 is None ==> classify(cs@.subrange(i as int, r.0 as int)) is None,
        r.0 == lexeme_end(cs@, i as int),
{
    let c = cs[i];
    let n = cs.len();
    let ghost s = cs@;
    if is_ident_start_char(c) {
        let e = run_end(cs, i + 1, 0);
        proof {
            let w = s.subrange(i as int, e as int);
            assert forall|k: int| 1 <= k < w.len() implies is_ident_char(#[trigger] w[k]) by {
                assert(w[k] == s[i + k]);
                assert(run_pred(0, s[i + k]));
            }
            assert(is_ident_lexeme(w));
        }
        return (e, Some(word_token_exec(cs, i, e)));
    }
    if is_digit_char(c) {
        return next_number(cs, i);
    }
    if c == '"' {
        match scan_string(cs, i) {
            Some((close, value)) => {
                proof {
                    let w = s.subrange(i as int, close + 1);
                    lemma_not_ident(w);
                    lemma_quote_not_number(w);
                    assert(w.subrange(1, w.len() - 1) =~= s.subrange(i + 1, close as int));
                }
                return (close + 1, Some(TokenKind::LiteralString(string_from_chars(value.as_slice()))));
            },
            None => {
                proof {
                    let w = s.subrange(i as int, i + 1);
                    assert(w[0] == '"');
                    lemma_single_char(w);
                }
                return (i + 1, None);
            },
        }
    }
    let (len, tok): (usize, Option<TokenKind>) = if c == '#' {
        (1, Some(TokenKind::Hash))
    } else if c == '+' {
        (1, Some(TokenKind::Plus))
    } else if c == ';' {
        (1, Some(TokenKind::Semicolon))
    } else if c == '(' {
        (1, Some(TokenKind::LeftParenthesis))
    } else if c == ')' {
        (1, Some(TokenKind::RightParenthesis))
    } else if c == '-' {
        if n - i > 1 && cs[i + 1] == '-' {
            (2, Some(TokenKind::MinusMinus))
        } else {
            (1, None)
        }
    } else if c == '.' {
        if n - i > 2 && cs[i + 1] == '.' && cs[i + 2] == '.' {
            (3, Some(TokenKind::Ellipsis))
        } else {
            (1, Some(TokenKind::Dot))
        }
    } else if c == ',' {
        (1, Some(TokenKind::Comma))
    } else if c == '[' {
        (1, Some(TokenKind::LeftSquareBracket))
    } else if c == ']' {
        (1, Some(TokenKind::RightSquareBracket))
    } else if c == '<' {
        (1, Some(TokenKind::LessThan))
    } else if c == '>' {
        (1, Some(TokenKind::GreaterThan))
    } else if c == '{' {
        (1, Some(TokenKind::LeftBrace))
    } else if c == '}' {
        (1, Some(TokenKind::RightBrace))
    } else if c == ':' {
        (1, Some(TokenKind::Colon))
    } else if c == '|' {
        (1, Some(TokenKind::Pipe))
    } else if c == '=' {
        (1, Some(TokenKind::Equal))
    } else {
        (1, None)
    };
    proof {
        let w = s.subrange(i as int, i + len);
        assert(w[0] == c);
        if len == 2 {
            assert(w =~= seq!['-', '-']);
        } else if len == 3 {
            assert(w =~= seq!['.', '.', '.']);
        } else {
            assert(w =~= seq![c]);
        }
        lemma_punct_not_other(w);
    }
    (i + len, tok)
}

proof fn lemma_last_char(w: Seq<char>, suffix: Seq<char>)
    requires
        ends_with(w, suffix),
        suffix.len() >= 1,
    ensures
        w.last() == suffix.last(),
{
    assert(w.subrange(w.len() - suffix.len(), w.len() as int)[suffix.len() - 1] == w.last());
}

proof fn lemma_not_ident(w: Seq<char>)
    requires
        w.len() >= 1,
        !is_ident_start(w[0]),
    ensures
        !is_ident_lexeme(w),
{
}

proof fn lemma_hex_not_decimal(w: Seq<char>, n: int)
    requires
        is_hex_prefix(w),
    ensures
        !(ends_with(w, "u8"@) && all_digits(w.subrange(0, w.len() - 2))),
        !(ends_with(w, "u16"@) && all_digits(w.subrange(0, w.len() - 3))),
        !all_digits(w),
{
    reveal_strlit("u8");
    reveal_strlit("u16");
    if ends_with(w, "u16"@) && all_digits(w.subrange(0, w.len() - 3)) {
        if w.len() == 4 {
            assert(w.subrange(1, 4)[0] == w[1]);
        } else {
            assert(w.subrange(0, w.len() - 3)[1] == w[1]);
        }
    }
    if ends_with(w, "u8"@) && all_digits(w.subrange(0, w.len() - 2)) {
        if w.len() == 3 {
            assert(w.subrange(1, 3)[0] == w[1]);
        } else {
            assert(w.subrange(0, w.len() - 2)[1] == w[1]);
        }
    }
    if all_digits(w) {
        assert(is_digit(w[1]));
    }
}

proof fn lemma_quote_not_number(w: Seq<char>)
    requires
        w.len() >= 2,
        w[0] == '"',
    ensures
        !(ends_with(w, "u8"@) && all_digits(w.subrange(0, w.len() - 2))),
        !(ends_with(w, "u16"@) && all_digits(w.subrange(0, w.len() - 3))),
        !is_hex_prefix(w),
        !all_digits(w),
{
    reveal_strlit("u8");
    reveal_strlit("u16");
    if ends_with(w, "u8"@) && all_digits(w.subrange(0, w.len() - 2)) {
        assert(w.len() >= 3);
        assert(w.subrange(0, w.len() - 2)[0] == w[0]);
    }
    if ends_with(w, "u16"@) && all_digits(w.subrange(0, w.len() - 3)) {
        assert(w.len() >= 4);
        assert(w.subrange(0, w.len() - 3)[0] == w[0]);
    }
    if all_digits(w) {
        assert(is_digit(w[0]));
    }
}


proof fn lemma_single_char(w: Seq<char>)
    requires
        w.len() == 1,
        !is_ident_start(w[0]),
        !is_digit(w[0]),
    ensures
        classify(w) == punct_token(w),
{
    reveal_strlit("u8");
    reveal_strlit("u16");
    if all_digits(w) {
        assert(is_digit(w[0]));
    }
}

proof fn lemma_punct_not_other(w: Seq<char>)
    requires
        1 <= w.len() <= 3,
        !is_ident_start(w[0]),
        !is_digit(w[0]),
        w[0] != '"',
    ensures
        classify(w) == punct_token(w),
{
    reveal_strlit("u8");
    reveal_strlit("u16");
    if ends_with(w, "u8"@) && all_digits(w.subrange(0, w.len() - 2)) {
        assert(w.subrange(0, w.len() - 2)[0] == w[0]);
    }
    if ends_with(w, "u16"@) && all_digits(w.subrange(0, w.len() - 3)) {
        assert(w.len() == 3);
        assert(w[0] == 'u');
    }
    if all_digits(w) {
        assert(is_digit(w[0]));
    }
}

/// Lexes a whole source.
///
/// On success the tokens tile the source as `tokens_match` says. Otherwise
/// every piece of text that starts no token, or a number that does not fit,
/// is reported as an unexpected token, in source order.
pub fn lex(input: &LexInput) -> (r: Result<LexResult, Vec<CompileError>>)
    ensures
        r matches Ok(res) ==> tokens_match(input.content@, input.source_id, res.tokens@),
        r matches Err(errors) ==> errors@.len() > 0 && forall|i: int|
            0 <= i < errors@.len() ==> (#[trigger] errors@[i] matches CompileError::UnexpectedToken {
                span,
            } && span.source_id == input.source_id && span.start < span.end
                <= input.content@.len()),
        r is Ok <==> forall|k: int|
            0 <= k < lexemes(input.content@, 0).len() ==> lexeme_ok(
                input.content@,
                #[trigger] lexemes(input.content@, 0)[k],
            ),
        r matches Ok(res) ==> res.tokens@.len() == lexemes(input.content@, 0).len() && forall|k: int|
            0 <= k < res.tokens@.len() ==> {
                let l = lexemes(input.content@, 0)[k];
                &&& (#[trigger] res.tokens@[k]).1 == Span {
                    source_id: input.source_id,
                    start: l.0 as usize,
                    end: l.1 as usize,
                }
                &&& classify(input.content@.subrange(l.0, l.1)) == Some(res.tokens@[k].0@)
            },
        r matches Err(errors) ==> errors@ == lexeme_errors(
            input.content@,
            input.source_id,
            lexemes(input.content@, 0),
        ),
{
    let cs = chars_of(input.content.as_str());
    let ghost s = cs@;
    let n = cs.len();
    let mut tokens: Vec<(TokenKind, Span)> = Vec::new();
    let mut errors: Vec<CompileError> = Vec::new();
    let mut i: usize = 0;
    // the end of the last token read, where the current gap started
    let mut gap_start: usize = 0;
    let ghost mut done: Seq<(int, int)> = Seq::empty();
    proof {
        reveal(gap_ok);
        reveal(tokens_prefix_ok);
        assert(lexemes(s, 0) =~= done + lexemes(s, 0));
    }
    while i < n
        invariant
            n == s.len(),
            s == input.content@,
            cs@ == s,
            gap_start <= i <= n,
            lexemes(s, 0) == done + lexemes(s, i as int),
            errors@ == lexeme_errors(s, input.source_id, done),
            errors@.len() == 0 ==> tokens@.len() == done.len(),
            errors@.len() == 0 ==> forall|k: int|
                0 <= k < tokens@.len() ==> {
                    let l = done[k];
                    &&& (#[trigger] tokens@[k]).1 == Span {
                        source_id: input.source_id,
                        start: l.0 as usize,
                        end: l.1 as usize,
                    }
                    &&& classify(s.subrange(l.0, l.1)) == Some(tokens@[k].0@)
                },
            errors@.len() == 0 ==> gap_ok(s, gap_start as int, i as int),
            errors@.len() == 0 ==> tokens_prefix_ok(s, input.source_id, tokens@, gap_start as int),
            forall|k: int|
                0 <= k < errors@.len() ==> (#[trigger] errors@[k] matches CompileError::UnexpectedToken {
                    span,
                } && span.source_id == input.source_id && span.start < span.end <= s.len()),
        decreases n - i,
    {
        let c = cs[i];
        if is_space_char(c) {
            proof {
                if errors@.len() == 0 {
                    reveal(gap_ok);
                    assert forall|k: int| gap_start <= k < i + 1 implies is_space(#[trigger] s[k])
                        || in_comment(s, gap_start as int, k) by {
                        if k < i {
                            assert(is_space(s[k]) || in_comment(s, gap_start as int, k));
                        }
                    }
                }
                lemma_lexemes_space(s, i as int);
            }
            i += 1;
            continue;
        }
        if c == '/' && n - i > 1 && cs[i + 1] == '/' {
            let j0 = i;
            let mut j = i;
            while j < n && cs[j] != '\n'
                invariant
                    j0 <= j <= n,
                    n == s.len(),
                    cs@ == s,
                    j0 + 1 < n,
                    s[j0 as int] == '/',
                    s[j0 + 1] == '/',
                    forall|k: int| j0 <= k < j ==> s[k] != '\n',
                decreases n - j,
            {
                j += 1;
            }
            proof {
                if errors@.len() == 0 {
                    reveal(gap_ok);
                    assert forall|k: int| gap_start <= k < j implies is_space(#[trigger] s[k])
                        || in_comment(s, gap_start as int, k) by {
                        if k >= j0 {
                            assert(s[j0 as int] == '/' && s[j0 + 1] == '/');
                            assert forall|m: int| j0 <= m <= k implies s[m] != '\n' by {}
                            assert(in_comment(s, gap_start as int, k));
                        } else {
                            assert(is_space(s[k]) || in_comment(s, gap_start as int, k));
                        }
                    }
                }
            }
            proof {
                lemma_lexemes_comment(s, i as int, j as int);
            }
            i = j;
            continue;
        }
        let (end, tok) = next_token(&cs, i);
        let span = Span { source_id: input.source_id, start: i, end };
        let ghost l = (i as int, end as int);
        proof {
            lemma_lexemes_token(s, i as int);
            assert(done.push(l) + lexemes(s, end as int) =~= done + lexemes(s, i as int));
            assert(done.push(l).drop_last() =~= done);
        }
        let ghost old_errors = errors@;
        match tok {
            Some(t) => {
                let ghost old_tokens = tokens@;
                tokens.push((t, span));
                proof {
                    assert(tokens@.drop_last() =~= old_tokens);
                    if errors@.len() == 0 {
                        lemma_tokens_push(s, input.source_id, old_tokens, tokens@, gap_start as int, i as int);
                        assert forall|k: int| 0 <= k < tokens@.len() implies {
                            let l2 = done.push(l)[k];
                            &&& (#[trigger] tokens@[k]).1 == Span {
                                source_id: input.source_id,
                                start: l2.0 as usize,
                                end: l2.1 as usize,
                            }
                            &&& classify(s.subrange(l2.0, l2.1)) == Some(tokens@[k].0@)
                        } by {
                            if k < old_tokens.len() {
                                assert(tokens@[k] == old_tokens[k]);
                                assert(done.push(l)[k] == done[k]);
                            }
                        }
                    }
                }
            },
            None => {
                errors.push(CompileError::UnexpectedToken { span });
            },
        }
        proof {
            done = done.push(l);
        }
        i = end;
        gap_start = end;
        proof {
            reveal(gap_ok);
            assert(gap_ok(s, gap_start as int, i as int));
        }
    }
    proof {
        assert(done + lexemes(s, n as int) =~= done);
        lemma_lexeme_errors_empty(s, input.source_id, done);
    }
    if errors.len() == 0 {
        proof {
            lemma_tokens_finish(s, input.source_id, tokens@, gap_start as int);
        }
        Ok(LexResult { tokens })
    } else {
        Err(errors)
    }
}

/// The tokens read so far tile `s[..gap_start]`.
#[verifier::opaque]
pub open spec fn tokens_prefix_ok(
    s: Seq<char>,
    source_id: SourceId,
    tokens: Seq<(TokenKind, Span)>,
    gap_start: int,
) -> bool {
    &&& forall|i: int|
        0 <= i < tokens.len() ==> {
            let span = #[trigger] tokens[i].1;
            &&& span.source_id == source_id
            &&& span.start < span.end <= s.len()
            &&& classify(s.subrange(span.start as int, span.end as int)) == Some(tokens[i].0@)
        }
    &&& forall|i: int|
        0 <= i < tokens.len() - 1 ==> (#[trigger] tokens[i]).1.end <= tokens[i + 1].1.start
    &&& forall|i: int|
        0 <= i < tokens.len() - 1 ==> gap_ok(
            s,
            (#[trigger] tokens[i]).1.end as int,
            tokens[i + 1].1.start as int,
        )
    &&& tokens.len() > 0 ==> gap_ok(s, 0, tokens[0].1.start as int)
    &&& tokens.len() > 0 ==> tokens.last().1.end == gap_start
    &&& tokens.len() == 0 ==> gap_start == 0
}

#[verifier::spinoff_prover]
#[verifier::rlimit(40)]
proof fn lemma_tokens_push(
    s: Seq<char>,
    source_id: SourceId,
    old_tokens: Seq<(TokenKind, Span)>,
    tokens: Seq<(TokenKind, Span)>,
    gap_start: int,
    start: int,
)
    requires
        tokens_prefix_ok(s, source_id, old_tokens, gap_start),
        gap_ok(s, gap_start, start),
        gap_start <= start,
        tokens.len() == old_tokens.len() + 1,
        tokens.drop_last() == old_tokens,
        tokens.last().1.source_id == source_id,
        tokens.last().1.start == start,
        start < tokens.last().1.end <= s.len(),
        classify(s.subrange(start, tokens.last().1.end as int)) == Some(tokens.last().0@),
    ensures
        tokens_prefix_ok(s, source_id, tokens, tokens.last().1.end as int),
{
    reveal(tokens_prefix_ok);
    assert forall|i: int| 0 <= i < old_tokens.len() implies tokens[i] == old_tokens[i] by {}
    if old_tokens.len() == 0 {
        assert(gap_ok(s, 0, tokens[0].1.start as int));
    }
    assert forall|i: int| 0 <= i < tokens.len() - 1 implies gap_ok(
        s,
        (#[trigger] tokens[i]).1.end as int,
        tokens[i + 1].1.start as int,
    ) by {
        if i == tokens.len() - 2 {
            assert(tokens[i] == old_tokens.last());
        } else {
            assert(tokens[i + 1] == old_tokens[i + 1]);
        }
    }
    assert forall|i: int| 0 <= i < tokens.len() - 1 implies (#[trigger] tokens[i]).1.end
        <= tokens[i + 1].1.start by {
        if i == tokens.len() - 2 {
            assert(tokens[i] == old_tokens.last());
        } else {
            assert(tokens[i + 1] == old_tokens[i + 1]);
        }
    }
}

proof fn lemma_tokens_finish(s: Seq<char>, source_id: SourceId, tokens: Seq<(TokenKind, Span)>, gap_start: int)
    requires
        tokens_prefix_ok(s, source_id, tokens, gap_start),
        gap_ok(s, gap_start, s.len() as int),
    ensures
        tokens_match(s, source_id, tokens),
{
    reveal(tokens_prefix_ok);
}

} // verus!
