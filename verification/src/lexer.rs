//! Turns source text into tokens.
//!
//! The lexer's behaviour is stated by the spec function [`lex`]: it reads the
//! input one token at a time with [`lex_step`], from the first character to
//! the last, and either yields every token or stops at the first error.
use vstd::prelude::*;
use crate::syntax::{Keyword, LiteralKind, keyword_of};
use crate::text::{
    char_from_u32, is_alphanumeric, is_scalar_value, is_unicode_alphanumeric, is_unicode_whitespace,
    is_whitespace, push_char, str_chars, string_from_chars, word1, word2,
};

verus! {

/// A token of the language.
#[derive(Debug, PartialEq)]
pub enum Token {
    /// A reference to an entity (e.g. a variable, function or type)
    Identifier(String),
    /// A keyword of the language (e.g. `return`)
    Keyword(Keyword),
    /// A literal value (e.g. 6, 0.1 or "hello")
    Literal { kind: LiteralKind, value: String },
    LeftParen,
    RightParen,
    LeftCurly,
    RightCurly,
    LeftSquare,
    RightSquare,
    /// `&`
    Amp,
    /// `&&`
    AndAnd,
    /// `|`
    Pipe,
    /// `||`
    OrOr,
    /// `!`
    Bang,
    /// `!=`
    BangEq,
    /// `=`
    Eq,
    /// `==`
    EqEq,
    /// `.`
    Period,
    /// `,`
    Comma,
    /// `:`
    Colon,
    /// `;`
    Semicolon,
    /// `*`
    Asterisk,
    /// `/`
    Slash,
    /// `%`
    Percent,
    /// `+`
    Plus,
    /// `-`
    Minus,
}

/// A token with its text as a sequence of characters.
pub enum TokenView {
    Identifier(Seq<char>),
    Keyword(Keyword),
    Literal { kind: LiteralKind, value: Seq<char> },
    LeftParen,
    RightParen,
    LeftCurly,
    RightCurly,
    LeftSquare,
    RightSquare,
    Amp,
    AndAnd,
    Pipe,
    OrOr,
    Bang,
    BangEq,
    Eq,
    EqEq,
    Period,
    Comma,
    Colon,
    Semicolon,
    Asterisk,
    Slash,
    Percent,
    Plus,
    Minus,
}

impl View for Token {
    type V = TokenView;

    open spec fn view(&self) -> TokenView {
        match self {
            Token::Identifier(s) => TokenView::Identifier(s@),
            Token::Keyword(k) => TokenView::Keyword(*k),
            Token::Literal { kind, value } => TokenView::Literal { kind: *kind, value: value@ },
            Token::LeftParen => TokenView::LeftParen,
            Token::RightParen => TokenView::RightParen,
            Token::LeftCurly => TokenView::LeftCurly,
            Token::RightCurly => TokenView::RightCurly,
            Token::LeftSquare => TokenView::LeftSquare,
            Token::RightSquare => TokenView::RightSquare,
            Token::Amp => TokenView::Amp,
            Token::AndAnd => TokenView::AndAnd,
            Token::Pipe => TokenView::Pipe,
            Token::OrOr => TokenView::OrOr,
            Token::Bang => TokenView::Bang,
            Token::BangEq => TokenView::BangEq,
            Token::Eq => TokenView::Eq,
            Token::EqEq => TokenView::EqEq,
            Token::Period => TokenView::Period,
            Token::Comma => TokenView::Comma,
            Token::Colon => TokenView::Colon,
            Token::Semicolon => TokenView::Semicolon,
            Token::Asterisk => TokenView::Asterisk,
            Token::Slash => TokenView::Slash,
            Token::Percent => TokenView::Percent,
            Token::Plus => TokenView::Plus,
            Token::Minus => TokenView::Minus,
        }
    }
}

impl Clone for Token {
    fn clone(&self) -> (r: Self)
        ensures
            r == *self,
    {
        match self {
            Token::Identifier(s) => Token::Identifier(s.clone()),
            Token::Keyword(k) => Token::Keyword(*k),
            Token::Literal { kind, value } => Token::Literal { kind: *kind, value: value.clone() },
            Token::LeftParen => Token::LeftParen,
            Token::RightParen => Token::RightParen,
            Token::LeftCurly => Token::LeftCurly,
            Token::RightCurly => Token::RightCurly,
            Token::LeftSquare => Token::LeftSquare,
            Token::RightSquare => Token::RightSquare,
            Token::Amp => Token::Amp,
            Token::AndAnd => Token::AndAnd,
            Token::Pipe => Token::Pipe,
            Token::OrOr => Token::OrOr,
            Token::Bang => Token::Bang,
            Token::BangEq => Token::BangEq,
            Token::Eq => Token::Eq,
            Token::EqEq => Token::EqEq,
            Token::Period => Token::Period,
            Token::Comma => Token::Comma,
            Token::Colon => Token::Colon,
            Token::Semicolon => Token::Semicolon,
            Token::Asterisk => Token::Asterisk,
            Token::Slash => Token::Slash,
            Token::Percent => Token::Percent,
            Token::Plus => Token::Plus,
            Token::Minus => Token::Minus,
        }
    }
}

/// The views of a sequence of tokens.
pub open spec fn token_views(ts: Seq<Token>) -> Seq<TokenView> {
    ts.map_values(|t: Token| t@)
}

/// A literal that could not be read.
#[derive(Debug)]
pub enum MalformedLiteralError {
    EmptyChar,
    InvalidEscapeSequence(String),
    InvalidNumber(String),
    MulticharLiteral(String),
    UnterminatedCharacter,
}

/// [`MalformedLiteralError`] with its text as a sequence of characters.
pub enum MalformedLiteralView {
    EmptyChar,
    InvalidEscapeSequence(Seq<char>),
    InvalidNumber(Seq<char>),
    MulticharLiteral(Seq<char>),
    UnterminatedCharacter,
}

impl View for MalformedLiteralError {
    type V = MalformedLiteralView;

    open spec fn view(&self) -> MalformedLiteralView {
        match self {
            MalformedLiteralError::EmptyChar => MalformedLiteralView::EmptyChar,
            MalformedLiteralError::InvalidEscapeSequence(s) => MalformedLiteralView::InvalidEscapeSequence(s@),
            MalformedLiteralError::InvalidNumber(s) => MalformedLiteralView::InvalidNumber(s@),
            MalformedLiteralError::MulticharLiteral(s) => MalformedLiteralView::MulticharLiteral(s@),
            MalformedLiteralError::UnterminatedCharacter => MalformedLiteralView::UnterminatedCharacter,
        }
    }
}

/// Why a piece of the input could not be tokenized.
#[derive(Debug)]
pub enum TokenizeError {
    InvalidPunctuation(String),
    MalformedLiteral(MalformedLiteralError),
}

/// [`TokenizeError`] with its text as a sequence of characters.
pub enum TokenizeErrorView {
    InvalidPunctuation(Seq<char>),
    MalformedLiteral(MalformedLiteralView),
}

impl View for TokenizeError {
    type V = TokenizeErrorView;

    open spec fn view(&self) -> TokenizeErrorView {
        match self {
            TokenizeError::InvalidPunctuation(s) => TokenizeErrorView::InvalidPunctuation(s@),
            TokenizeError::MalformedLiteral(e) => TokenizeErrorView::MalformedLiteral(e@),
        }
    }
}

/// A tokenize error together with the line on which it happened.
#[derive(Debug)]
pub struct QualifiedTokenizeError {
    pub tokenize_error: TokenizeError,
    pub line: usize,
}

impl View for QualifiedTokenizeError {
    type V = (TokenizeErrorView, int);

    open spec fn view(&self) -> (TokenizeErrorView, int) {
        (self.tokenize_error@, self.line as int)
    }
}

impl TokenizeError {
    /// Attaches the line on which the error happened.
    pub fn qualify(self, line: usize) -> (r: QualifiedTokenizeError)
        ensures
            r.tokenize_error == self,
            r.line == line,
    {
        QualifiedTokenizeError { tokenize_error: self, line }
    }
}

// ---------------------------------------------------------------------------
// Character classes

/// An ASCII decimal digit.
pub open spec fn is_digit(c: char) -> bool {
    '0' <= c && c <= '9'
}

/// An ASCII letter.
pub open spec fn is_ascii_letter(c: char) -> bool {
    ('a' <= c && c <= 'z') || ('A' <= c && c <= 'Z')
}

/// A character that may continue an identifier.
pub open spec fn is_ident_char(c: char) -> bool {
    is_ascii_letter(c) || is_digit(c) || c == '_'
}

/// One of `( ) { } [ ]`.
pub open spec fn is_bracket(c: char) -> bool {
    c == '(' || c == ')' || c == '{' || c == '}' || c == '[' || c == ']'
}

/// One of the characters `(){}[]&|!=.,;*/%+-:`.
pub open spec fn is_punctuation_char(c: char) -> bool {
    is_bracket(c) || c == '&' || c == '|' || c == '!' || c == '=' || c == '.' || c == ','
        || c == ';' || c == '*' || c == '/' || c == '%' || c == '+' || c == '-' || c == ':'
}

/// An ASCII hexadecimal digit.
pub open spec fn is_hex_digit(c: char) -> bool {
    is_digit(c) || ('a' <= c && c <= 'f') || ('A' <= c && c <= 'F')
}

/// The value of a hexadecimal digit.
pub open spec fn hex_digit_value(c: char) -> nat {
    if is_digit(c) {
        (c as nat - '0' as nat) as nat
    } else if 'a' <= c && c <= 'f' {
        (c as nat - 'a' as nat + 10) as nat
    } else {
        (c as nat - 'A' as nat + 10) as nat
    }
}

/// The number that a sequence of hexadecimal digits spells.
pub open spec fn hex_value(s: Seq<char>) -> nat
    decreases s.len(),
{
    if s.len() == 0 {
        0
    } else {
        hex_value(s.drop_last()) * 16 + hex_digit_value(s.last())
    }
}

// ---------------------------------------------------------------------------
// The tokenizer, stated over the characters of the input.

/// The kind of a number literal: `Float` once it holds a period.
pub open spec fn number_kind(period: bool) -> LiteralKind {
    if period {
        LiteralKind::Float
    } else {
        LiteralKind::Integer
    }
}

/// Reads a number literal from position `p` on, where `acc` holds the text
/// read so far and `period` whether it holds a period. Digits and periods are
/// kept, underscores are skipped, and the literal ends at any other
/// character. A second period is an error. Returns where reading stopped.
pub open spec fn scan_number(cs: Seq<char>, p: int, acc: Seq<char>, period: bool) -> (int, Result<TokenView, MalformedLiteralView>)
    decreases cs.len() - p,
{
    if p >= cs.len() {
        (p, Ok(TokenView::Literal { kind: number_kind(period), value: acc }))
    } else {
        let c = cs[p];
        if is_digit(c) {
            scan_number(cs, p + 1, acc.push(c), period)
        } else if c == '.' {
            if period {
                (p, Err(MalformedLiteralView::InvalidNumber(acc.push('.'))))
            } else {
                scan_number(cs, p + 1, acc.push('.'), true)
            }
        } else if c == '_' {
            scan_number(cs, p + 1, acc, period)
        } else {
            (p, Ok(TokenView::Literal { kind: number_kind(period), value: acc }))
        }
    }
}

/// The character that a one-character escape stands for.
pub open spec fn simple_escape(c: char) -> Option<char> {
    if c == 'n' {
        Some('\n')
    } else if c == 'r' {
        Some('\r')
    } else if c == 't' {
        Some('\t')
    } else if c == '\\' {
        Some('\\')
    } else if c == '\'' {
        Some('\'')
    } else if c == '"' {
        Some('"')
    } else if c == '0' {
        Some('\0')
    } else {
        None
    }
}

/// The text `u{`, the hexadecimal digits, then `last`.
pub open spec fn unicode_escape_text(hex: Seq<char>, last: char) -> Seq<char> {
    seq!['u', '{'] + hex + seq![last]
}

/// The character that the hexadecimal digits of a `\u{..}` escape name.
pub open spec fn unicode_scalar(hex: Seq<char>) -> Result<char, MalformedLiteralView> {
    if hex.len() == 0 || hex_value(hex) > u32::MAX || !is_scalar_value(hex_value(hex)) {
        Err(MalformedLiteralView::InvalidEscapeSequence(unicode_escape_text(hex, '}')))
    } else {
        Ok(hex_value(hex) as char)
    }
}

/// Reads the hexadecimal digits of a `\u{..}` escape from position `p` on,
/// up to a closing `}` or the end of the input.
pub open spec fn scan_unicode_escape(cs: Seq<char>, p: int, hex: Seq<char>) -> (int, Result<char, MalformedLiteralView>)
    decreases cs.len() - p,
{
    if p >= cs.len() {
        (p, unicode_scalar(hex))
    } else {
        let c = cs[p];
        if is_hex_digit(c) {
            scan_unicode_escape(cs, p + 1, hex.push(c))
        } else if c == '}' {
            (p + 1, unicode_scalar(hex))
        } else {
            (p + 1, Err(MalformedLiteralView::InvalidEscapeSequence(unicode_escape_text(hex, c))))
        }
    }
}

/// Reads an escape sequence whose backslash stands just before position `p`.
pub open spec fn scan_escape(cs: Seq<char>, p: int) -> (int, Result<char, MalformedLiteralView>) {
    if p >= cs.len() {
        (p, Err(MalformedLiteralView::UnterminatedCharacter))
    } else {
        let c = cs[p];
        match simple_escape(c) {
            Some(e) => (p + 1, Ok(e)),
            None => if c == 'u' {
                if p + 1 >= cs.len() {
                    (p + 1, Err(MalformedLiteralView::UnterminatedCharacter))
                } else if cs[p + 1] != '{' {
                    (p + 2, Err(MalformedLiteralView::InvalidEscapeSequence(seq![cs[p + 1]])))
                } else {
                    scan_unicode_escape(cs, p + 2, seq![])
                }
            } else {
                (p + 1, Err(MalformedLiteralView::InvalidEscapeSequence(seq![c])))
            },
        }
    }
}

/// Reading a `\u{..}` escape moves forward and stays within the input.
pub proof fn lemma_scan_unicode_escape_bounds(cs: Seq<char>, p: int, hex: Seq<char>)
    requires
        p <= cs.len(),
    ensures
        p <= scan_unicode_escape(cs, p, hex).0 <= cs.len(),
    decreases cs.len() - p,
{
    if p < cs.len() && is_hex_digit(cs[p]) {
        lemma_scan_unicode_escape_bounds(cs, p + 1, hex.push(cs[p]));
    }
}

/// Reading an escape stays within the input, and one that is read
/// successfully consumes at least one character.
pub proof fn lemma_scan_escape_bounds(cs: Seq<char>, p: int)
    requires
        0 <= p <= cs.len(),
    ensures
        p <= scan_escape(cs, p).0 <= cs.len(),
        scan_escape(cs, p).1 is Ok ==> scan_escape(cs, p).0 > p,
{
    if p < cs.len() && simple_escape(cs[p]) is None && cs[p] == 'u' && p + 1 < cs.len()
        && cs[p + 1] == '{' {
        lemma_scan_unicode_escape_bounds(cs, p + 2, seq![]);
    }
}

/// Reads the body of a character literal from position `p` on, up to the
/// closing quote; `acc` holds the characters read so far and `escape` whether
/// a backslash was just read. A line break, or the end of the input, before
/// the closing quote leaves the literal unterminated.
pub open spec fn scan_char_body(cs: Seq<char>, p: int, acc: Seq<char>, escape: bool) -> (int, Result<Seq<char>, MalformedLiteralView>)
    decreases cs.len() - p,
{
    if p < 0 || p >= cs.len() {
        (p, Err(MalformedLiteralView::UnterminatedCharacter))
    } else if escape {
        let (q, r) = scan_escape(cs, p);
        match r {
            Ok(e) => {
                proof {
                    lemma_scan_escape_bounds(cs, p);
                }
                scan_char_body(cs, q, acc.push(e), false)
            },
            Err(err) => (q, Err(err)),
        }
    } else {
        let c = cs[p];
        if c == '\'' {
            (p, Ok(acc))
        } else if c == '\\' {
            scan_char_body(cs, p + 1, acc, true)
        } else if c == '\n' {
            (p, Err(MalformedLiteralView::UnterminatedCharacter))
        } else {
            scan_char_body(cs, p + 1, acc.push(c), false)
        }
    }
}

/// The position just past a closing quote at `q`, if the input has one there.
pub open spec fn past_closing(cs: Seq<char>, q: int) -> int {
    if q < cs.len() {
        q + 1
    } else {
        q
    }
}

/// Reads a character literal whose opening quote is at position `p`. It must
/// hold exactly one character.
pub open spec fn scan_char_literal(cs: Seq<char>, p: int) -> (int, Result<TokenView, MalformedLiteralView>) {
    let (q, r) = scan_char_body(cs, p + 1, seq![], false);
    let end = q + 1;
    match r {
        Err(e) => (q, Err(e)),
        Ok(s) => if s.len() == 0 {
            (end, Err(MalformedLiteralView::EmptyChar))
        } else if s.len() == 1 {
            (end, Ok(TokenView::Literal { kind: LiteralKind::Char, value: s }))
        } else {
            (end, Err(MalformedLiteralView::MulticharLiteral(s)))
        },
    }
}

/// Reads the body of a string literal from position `p` on, up to the
/// closing double quote or the end of the input.
pub open spec fn scan_string_body(cs: Seq<char>, p: int, acc: Seq<char>, escape: bool) -> (int, Result<Seq<char>, MalformedLiteralView>)
    decreases cs.len() - p,
{
    if p < 0 || p >= cs.len() {
        (p, Ok(acc))
    } else {
        let c = cs[p];
        if c == '"' && !escape {
            (p, Ok(acc))
        } else if c == '\\' && !escape {
            scan_string_body(cs, p + 1, acc, true)
        } else if escape {
            let (q, r) = scan_escape(cs, p);
            match r {
                Ok(e) => {
                    proof {
                        lemma_scan_escape_bounds(cs, p);
                    }
                    scan_string_body(cs, q, acc.push(e), false)
                },
                Err(err) => (q, Err(err)),
            }
        } else {
            scan_string_body(cs, p + 1, acc.push(c), false)
        }
    }
}

/// Reads a string literal whose opening double quote is at position `p`.
pub open spec fn scan_string_literal(cs: Seq<char>, p: int) -> (int, Result<TokenView, MalformedLiteralView>) {
    let (q, r) = scan_string_body(cs, p + 1, seq![], false);
    match r {
        Err(e) => (q, Err(e)),
        Ok(s) => (past_closing(cs, q), Ok(TokenView::Literal { kind: LiteralKind::String, value: s })),
    }
}

/// Where a run of identifier characters that starts at `p` ends.
pub open spec fn word_end(cs: Seq<char>, p: int) -> int
    decreases cs.len() - p,
{
    if p < cs.len() && is_ident_char(cs[p]) {
        word_end(cs, p + 1)
    } else {
        p
    }
}

/// The token for a word: a keyword if it spells one, else an identifier.
pub open spec fn word_token(w: Seq<char>) -> TokenView {
    match keyword_of(w) {
        Some(k) => TokenView::Keyword(k),
        None => TokenView::Identifier(w),
    }
}

/// Where a run of punctuation that continues at `p` ends: at the first
/// alphanumeric, whitespace or bracket character, or the end of the input.
pub open spec fn punctuation_end(cs: Seq<char>, p: int) -> int
    decreases cs.len() - p,
{
    if p >= cs.len() || is_unicode_alphanumeric(cs[p]) || is_unicode_whitespace(cs[p]) || is_bracket(
        cs[p],
    ) {
        p
    } else {
        punctuation_end(cs, p + 1)
    }
}

/// Where a line comment whose text starts at `p` ends: just past the next
/// line break, or at the end of the input.
pub open spec fn comment_end(cs: Seq<char>, p: int) -> int
    decreases cs.len() - p,
{
    if p >= cs.len() {
        p
    } else if cs[p] == '\n' {
        p + 1
    } else {
        comment_end(cs, p + 1)
    }
}

/// The token for a bracket.
pub open spec fn bracket_token(c: char) -> TokenView {
    if c == '(' {
        TokenView::LeftParen
    } else if c == ')' {
        TokenView::RightParen
    } else if c == '{' {
        TokenView::LeftCurly
    } else if c == '}' {
        TokenView::RightCurly
    } else if c == '[' {
        TokenView::LeftSquare
    } else {
        TokenView::RightSquare
    }
}

/// The token that a run of punctuation spells, if any.
pub open spec fn punctuation_token(s: Seq<char>) -> Option<TokenView> {
    if s == seq!['&'] {
        Some(TokenView::Amp)
    } else if s == seq!['&', '&'] {
        Some(TokenView::AndAnd)
    } else if s == seq!['|'] {
        Some(TokenView::Pipe)
    } else if s == seq!['|', '|'] {
        Some(TokenView::OrOr)
    } else if s == seq!['!'] {
        Some(TokenView::Bang)
    } else if s == seq!['!', '='] {
        Some(TokenView::BangEq)
    } else if s == seq!['='] {
        Some(TokenView::Eq)
    } else if s == seq!['=', '='] {
        Some(TokenView::EqEq)
    } else if s == seq!['.'] {
        Some(TokenView::Period)
    } else if s == seq![','] {
        Some(TokenView::Comma)
    } else if s == seq![':'] {
        Some(TokenView::Colon)
    } else if s == seq![';'] {
        Some(TokenView::Semicolon)
    } else if s == seq!['*'] {
        Some(TokenView::Asterisk)
    } else if s == seq!['/'] {
        Some(TokenView::Slash)
    } else if s == seq!['%'] {
        Some(TokenView::Percent)
    } else if s == seq!['+'] {
        Some(TokenView::Plus)
    } else if s == seq!['-'] {
        Some(TokenView::Minus)
    } else {
        None
    }
}

/// Reads punctuation that starts at position `p`: a single bracket, or the
/// longest run of characters up to [`punctuation_end`]. The run `//` starts a
/// comment, which yields no token and ends after the next line break.
pub open spec fn scan_punctuation(cs: Seq<char>, p: int) -> (int, Result<Option<TokenView>, TokenizeErrorView>) {
    let c = cs[p];
    if is_bracket(c) {
        (p + 1, Ok(Some(bracket_token(c))))
    } else {
        let q = punctuation_end(cs, p + 1);
        let s = cs.subrange(p, q);
        if s == seq!['/', '/'] {
            (comment_end(cs, q), Ok(None))
        } else {
            match punctuation_token(s) {
                Some(t) => (q, Ok(Some(t))),
                None => (q, Err(TokenizeErrorView::InvalidPunctuation(s))),
            }
        }
    }
}

/// Reading a number moves forward and stays within the input.
pub proof fn lemma_scan_number_bounds(cs: Seq<char>, p: int, acc: Seq<char>, period: bool)
    requires
        p <= cs.len(),
    ensures
        p <= scan_number(cs, p, acc, period).0 <= cs.len(),
    decreases cs.len() - p,
{
    if p < cs.len() {
        let c = cs[p];
        if is_digit(c) {
            lemma_scan_number_bounds(cs, p + 1, acc.push(c), period);
        } else if c == '.' && !period {
            lemma_scan_number_bounds(cs, p + 1, acc.push('.'), true);
        } else if c == '_' {
            lemma_scan_number_bounds(cs, p + 1, acc, period);
        }
    }
}

/// Reading the body of a character literal moves forward and stays within
/// the input.
pub proof fn lemma_scan_char_body_bounds(cs: Seq<char>, p: int, acc: Seq<char>, escape: bool)
    requires
        0 <= p <= cs.len(),
    ensures
        p <= scan_char_body(cs, p, acc, escape).0 <= cs.len(),
        scan_char_body(cs, p, acc, escape).1 is Ok ==> scan_char_body(cs, p, acc, escape).0 < cs.len(),
    decreases cs.len() - p,
{
    if p < cs.len() {
        if escape {
            lemma_scan_escape_bounds(cs, p);
            let (q, r) = scan_escape(cs, p);
            if let Ok(e) = r {
                lemma_scan_char_body_bounds(cs, q, acc.push(e), false);
            }
        } else {
            let c = cs[p];
            if c == '\\' {
                lemma_scan_char_body_bounds(cs, p + 1, acc, true);
            } else if c != '\'' && c != '\n' {
                lemma_scan_char_body_bounds(cs, p + 1, acc.push(c), false);
            }
        }
    }
}

/// Reading the body of a string literal moves forward and stays within the
/// input.
pub proof fn lemma_scan_string_body_bounds(cs: Seq<char>, p: int, acc: Seq<char>, escape: bool)
    requires
        0 <= p <= cs.len(),
    ensures
        p <= scan_string_body(cs, p, acc, escape).0 <= cs.len(),
    decreases cs.len() - p,
{
    if p < cs.len() {
        let c = cs[p];
        if c == '"' && !escape {
        } else if c == '\\' && !escape {
            lemma_scan_string_body_bounds(cs, p + 1, acc, true);
        } else if escape {
            lemma_scan_escape_bounds(cs, p);
            let (q, r) = scan_escape(cs, p);
            if let Ok(e) = r {
                lemma_scan_string_body_bounds(cs, q, acc.push(e), false);
            }
        } else {
            lemma_scan_string_body_bounds(cs, p + 1, acc.push(c), false);
        }
    }
}

/// A run of identifier characters ends within the input.
pub proof fn lemma_word_end_bounds(cs: Seq<char>, p: int)
    requires
        p <= cs.len(),
    ensures
        p <= word_end(cs, p) <= cs.len(),
    decreases cs.len() - p,
{
    if p < cs.len() && is_ident_char(cs[p]) {
        lemma_word_end_bounds(cs, p + 1);
    }
}

/// A run of punctuation ends within the input.
pub proof fn lemma_punctuation_end_bounds(cs: Seq<char>, p: int)
    requires
        p <= cs.len(),
    ensures
        p <= punctuation_end(cs, p) <= cs.len(),
    decreases cs.len() - p,
{
    if !(p >= cs.len() || is_unicode_alphanumeric(cs[p]) || is_unicode_whitespace(cs[p]) || is_bracket(
        cs[p],
    )) {
        lemma_punctuation_end_bounds(cs, p + 1);
    }
}

/// A line comment ends within the input.
pub proof fn lemma_comment_end_bounds(cs: Seq<char>, p: int)
    requires
        p <= cs.len(),
    ensures
        p <= comment_end(cs, p) <= cs.len(),
    decreases cs.len() - p,
{
    if p < cs.len() && cs[p] != '\n' {
        lemma_comment_end_bounds(cs, p + 1);
    }
}

/// The characters from which reading can start: digits, quotes, line breaks
/// and other whitespace, ASCII letters, and punctuation.
pub open spec fn can_start(c: char) -> bool {
    is_digit(c) || c == '\'' || c == '"' || c == '\n' || is_unicode_whitespace(c)
        || is_ascii_letter(c) || c == ';' || is_punctuation_char(c)
}

/// Whether reading punctuation at `p` read a comment up to and including a
/// line break.
pub open spec fn punctuation_newline(cs: Seq<char>, p: int) -> bool {
    match scan_punctuation(cs, p) {
        (q, Ok(None)) => cs[q - 1] == '\n',
        _ => false,
    }
}

/// What reading from one position of the input does.
pub enum Step {
    /// Go on at `next`, having read a line break if `newline`, and yield `token`.
    Advance { next: int, newline: bool, token: Option<TokenView> },
    /// Stop with an error.
    Fail(TokenizeErrorView),
    /// The character cannot start anything.
    Unknown(char),
}

/// Lifts a literal reader's result to a step.
pub open spec fn literal_step(r: (int, Result<TokenView, MalformedLiteralView>)) -> Step {
    match r.1 {
        Ok(t) => Step::Advance { next: r.0, newline: false, token: Some(t) },
        Err(e) => Step::Fail(TokenizeErrorView::MalformedLiteral(e)),
    }
}

/// Reads from position `p`, chosen by the character found there.
pub open spec fn lex_step(cs: Seq<char>, p: int) -> Step {
    let c = cs[p];
    if is_digit(c) {
        literal_step(scan_number(cs, p, seq![], false))
    } else if c == '\'' {
        literal_step(scan_char_literal(cs, p))
    } else if c == '"' {
        literal_step(scan_string_literal(cs, p))
    } else if c == '\n' {
        Step::Advance { next: p + 1, newline: true, token: None }
    } else if is_unicode_whitespace(c) {
        Step::Advance { next: p + 1, newline: false, token: None }
    } else if is_ascii_letter(c) {
        let q = word_end(cs, p);
        Step::Advance { next: q, newline: false, token: Some(word_token(cs.subrange(p, q))) }
    } else if c == ';' {
        Step::Advance { next: p + 1, newline: false, token: Some(TokenView::Semicolon) }
    } else if is_punctuation_char(c) {
        match scan_punctuation(cs, p) {
            (q, Ok(t)) => Step::Advance { next: q, newline: punctuation_newline(cs, p), token: t },
            (_, Err(e)) => Step::Fail(e),
        }
    } else {
        Step::Unknown(c)
    }
}

/// A step that goes on moves forward and stays within the input.
pub proof fn lemma_lex_step_bounds(cs: Seq<char>, p: int)
    requires
        0 <= p < cs.len(),
    ensures
        lex_step(cs, p) matches Step::Advance { next, .. } ==> p < next <= cs.len(),
{
    let c = cs[p];
    lemma_scan_number_bounds(cs, p + 1, seq![].push(c), false);
    lemma_scan_char_body_bounds(cs, p + 1, seq![], false);
    lemma_scan_string_body_bounds(cs, p + 1, seq![], false);
    lemma_word_end_bounds(cs, p + 1);
    lemma_punctuation_end_bounds(cs, p + 1);
    lemma_comment_end_bounds(cs, punctuation_end(cs, p + 1));
}

/// How tokenizing ends.
pub enum LexOutcome {
    /// Every token of the input.
    Tokens(Seq<TokenView>),
    /// The first error, with the line on which it happened.
    Error(TokenizeErrorView, int),
    /// A character that cannot start a token was reached.
    UnknownSymbol(char),
}

/// A token, if any, followed by the tokens of an outcome.
pub open spec fn prepend_tokens(ts: Seq<TokenView>, o: LexOutcome) -> LexOutcome {
    match o {
        LexOutcome::Tokens(rest) => LexOutcome::Tokens(ts + rest),
        other => other,
    }
}

/// An optional token as a sequence of at most one token.
pub open spec fn token_seq(t: Option<TokenView>) -> Seq<TokenView> {
    match t {
        Some(t) => seq![t],
        None => seq![],
    }
}

/// Tokenizes the input from position `p` on, where `line` is the current line.
pub open spec fn lex_from(cs: Seq<char>, p: int, line: int) -> LexOutcome
    decreases cs.len() - p,
{
    if p < 0 || p >= cs.len() {
        LexOutcome::Tokens(seq![])
    } else {
        proof {
            lemma_lex_step_bounds(cs, p);
        }
        match lex_step(cs, p) {
            Step::Unknown(c) => LexOutcome::UnknownSymbol(c),
            Step::Fail(e) => LexOutcome::Error(e, line),
            Step::Advance { next, newline, token } => prepend_tokens(
                token_seq(token),
                lex_from(cs, next, if newline { line + 1 } else { line }),
            ),
        }
    }
}

/// How tokenizing a whole input ends; lines count from 1.
pub open spec fn lex(input: Seq<char>) -> LexOutcome {
    lex_from(input, 0, 1)
}

/// A token, if any, followed by the tokens of an outcome, prepended in two
/// pieces, is the same as prepended at once.
pub proof fn lemma_prepend_tokens_twice(a: Seq<TokenView>, b: Seq<TokenView>, o: LexOutcome)
    ensures
        prepend_tokens(a, prepend_tokens(b, o)) == prepend_tokens(a + b, o),
{
    if let LexOutcome::Tokens(rest) = o {
        assert(a + (b + rest) =~= (a + b) + rest);
    }
}

/// The views of tokens after one more is pushed.
pub proof fn lemma_token_views_push(ts: Seq<Token>, t: Token)
    ensures
        token_views(ts.push(t)) == token_views(ts) + seq![t@],
{
    assert(token_views(ts.push(t)) =~= token_views(ts) + seq![t@]);
}

// ---------------------------------------------------------------------------
// Executable helpers

fn is_digit_char(c: char) -> (b: bool)
    ensures
        b == is_digit(c),
{
    '0' <= c && c <= '9'
}

fn is_ascii_letter_char(c: char) -> (b: bool)
    ensures
        b == is_ascii_letter(c),
{
    ('a' <= c && c <= 'z') || ('A' <= c && c <= 'Z')
}

fn is_ident_char_exec(c: char) -> (b: bool)
    ensures
        b == is_ident_char(c),
{
    is_ascii_letter_char(c) || is_digit_char(c) || c == '_'
}

fn is_number_char(c: char) -> (b: bool)
    ensures
        b == (is_digit(c) || c == '.' || c == '_'),
{
    is_digit_char(c) || c == '.' || c == '_'
}

fn is_bracket_char(c: char) -> (b: bool)
    ensures
        b == is_bracket(c),
{
    c == '(' || c == ')' || c == '{' || c == '}' || c == '[' || c == ']'
}

fn is_punctuation(c: char) -> (b: bool)
    ensures
        b == is_punctuation_char(c),
{
    is_bracket_char(c) || c == '&' || c == '|' || c == '!' || c == '=' || c == '.' || c == ','
        || c == ';' || c == '*' || c == '/' || c == '%' || c == '+' || c == '-' || c == ':'
}

fn is_hex_digit_char(c: char) -> (b: bool)
    ensures
        b == is_hex_digit(c),
{
    is_digit_char(c) || ('a' <= c && c <= 'f') || ('A' <= c && c <= 'F')
}

fn hex_digit(c: char) -> (d: u32)
    requires
        is_hex_digit(c),
    ensures
        d == hex_digit_value(c),
        d < 16,
{
    if is_digit_char(c) {
        (c as u32) - ('0' as u32)
    } else if 'a' <= c && c <= 'f' {
        (c as u32) - ('a' as u32) + 10
    } else {
        (c as u32) - ('A' as u32) + 10
    }
}

/// Whether a character can start something: every character but those
/// for which [`lex_step`] is `Unknown`.
fn is_known_start(c: char) -> (b: bool)
    ensures
        b == can_start(c),
{
    is_digit_char(c) || c == '\'' || c == '"' || c == '\n' || is_whitespace(c)
        || is_ascii_letter_char(c) || c == ';' || is_punctuation(c)
}

fn escape_char(c: char) -> (r: Option<char>)
    ensures
        r == simple_escape(c),
{
    if c == 'n' {
        Some('\n')
    } else if c == 'r' {
        Some('\r')
    } else if c == 't' {
        Some('\t')
    } else if c == '\\' {
        Some('\\')
    } else if c == '\'' {
        Some('\'')
    } else if c == '"' {
        Some('"')
    } else if c == '0' {
        Some('\0')
    } else {
        None
    }
}

fn one_char_string(c: char) -> (s: String)
    ensures
        s@ == seq![c],
{
    let mut s = String::new();
    push_char(&mut s, c);
    assert(s@ =~= seq![c]);
    s
}

fn unicode_text(hex: &String, last: char) -> (s: String)
    ensures
        s@ == unicode_escape_text(hex@, last),
{
    let mut s = String::new();
    push_char(&mut s, 'u');
    push_char(&mut s, '{');
    s.append(hex.as_str());
    push_char(&mut s, last);
    assert(s@ =~= unicode_escape_text(hex@, last));
    s
}

/// The character named by the hexadecimal digits of a `\u{..}` escape, where
/// `value` holds their number unless `overflow` says it exceeds `u32::MAX`.
fn finish_unicode(hex: &String, value: u32, overflow: bool) -> (r: Result<char, MalformedLiteralError>)
    requires
        overflow ==> hex_value(hex@) > u32::MAX,
        !overflow ==> value == hex_value(hex@),
    ensures
        match unicode_scalar(hex@) {
            Ok(c) => r == Ok::<char, MalformedLiteralError>(c),
            Err(e) => r is Err && r->Err_0@ == e,
        },
{
    if hex.as_str().is_empty() || overflow {
        return Err(MalformedLiteralError::InvalidEscapeSequence(unicode_text(hex, '}')));
    }
    match char_from_u32(value) {
        Some(c) => Ok(c),
        None => Err(MalformedLiteralError::InvalidEscapeSequence(unicode_text(hex, '}'))),
    }
}

fn bracket(c: char) -> (t: Token)
    requires
        is_bracket(c),
    ensures
        t@ == bracket_token(c),
{
    if c == '(' {
        Token::LeftParen
    } else if c == ')' {
        Token::RightParen
    } else if c == '{' {
        Token::LeftCurly
    } else if c == '}' {
        Token::RightCurly
    } else if c == '[' {
        Token::LeftSquare
    } else {
        Token::RightSquare
    }
}

fn punctuation(v: &Vec<char>) -> (r: Option<Token>)
    ensures
        match r {
            Some(t) => punctuation_token(v@) == Some(t@),
            None => punctuation_token(v@) is None,
        },
{
    if word1(v, '&') {
        Some(Token::Amp)
    } else if word2(v, '&', '&') {
        Some(Token::AndAnd)
    } else if word1(v, '|') {
        Some(Token::Pipe)
    } else if word2(v, '|', '|') {
        Some(Token::OrOr)
    } else if word1(v, '!') {
        Some(Token::Bang)
    } else if word2(v, '!', '=') {
        Some(Token::BangEq)
    } else if word1(v, '=') {
        Some(Token::Eq)
    } else if word2(v, '=', '=') {
        Some(Token::EqEq)
    } else if word1(v, '.') {
        Some(Token::Period)
    } else if word1(v, ',') {
        Some(Token::Comma)
    } else if word1(v, ':') {
        Some(Token::Colon)
    } else if word1(v, ';') {
        Some(Token::Semicolon)
    } else if word1(v, '*') {
        Some(Token::Asterisk)
    } else if word1(v, '/') {
        Some(Token::Slash)
    } else if word1(v, '%') {
        Some(Token::Percent)
    } else if word1(v, '+') {
        Some(Token::Plus)
    } else if word1(v, '-') {
        Some(Token::Minus)
    } else {
        None
    }
}

// ---------------------------------------------------------------------------
// The lexer

/// Reads tokens from an input, one character at a time.
#[derive(Debug)]
pub struct Lexer {
    chars: Vec<char>,
    pos: usize,
    tokens: Vec<Token>,
    line: usize,
}

/// Why [`Lexer::scan`] stopped without yielding the tokens.
#[derive(Debug)]
pub enum LexHalt {
    /// A tokenize error, with its line.
    Error(QualifiedTokenizeError),
    /// A character that cannot start a token.
    UnknownSymbol(char),
}

impl Lexer {
    /// The characters of the input.
    pub closed spec fn input(&self) -> Seq<char> {
        self.chars@
    }

    /// Where the lexer reads next.
    pub closed spec fn position(&self) -> int {
        self.pos as int
    }

    /// The line the lexer is on.
    pub closed spec fn current_line(&self) -> int {
        self.line as int
    }

    /// The tokens read so far.
    pub closed spec fn tokens_read(&self) -> Seq<TokenView> {
        token_views(self.tokens@)
    }

    /// How tokenizing from the lexer's current state ends, counting the
    /// tokens that it has read already.
    pub closed spec fn outcome(&self) -> LexOutcome {
        prepend_tokens(token_views(self.tokens@), lex_from(self.chars@, self.pos as int, self.line as int))
    }

    /// The lexer's state is consistent: the position lies within the input,
    /// and lines are counted from 1, at most one per character read.
    pub closed spec fn wf(&self) -> bool {
        &&& self.pos <= self.chars.len()
        &&& self.chars.len() < usize::MAX
        &&& 1 <= self.line <= self.pos + 1
    }

    /// Creates a lexer at the start of `input`.
    pub fn new(input: &str) -> (l: Lexer)
        requires
            input@.len() < usize::MAX,
        ensures
            l.wf(),
            l.input() == input@,
            l.position() == 0,
            l.current_line() == 1,
            l.tokens_read() == Seq::<TokenView>::empty(),
            l.outcome() == lex(input@),
    {
        let chars = str_chars(input);
        let l = Lexer { chars, pos: 0, tokens: Vec::new(), line: 1 };
        assert(token_views(l.tokens@) =~= Seq::<TokenView>::empty());
        proof {
            let o = lex_from(l.chars@, 0, 1);
            if let LexOutcome::Tokens(rest) = o {
                assert(token_views(l.tokens@) =~= Seq::<TokenView>::empty());
                assert(token_views(l.tokens@) + rest =~= rest);
            }
        }
        l
    }

    fn tokenize_number(&mut self) -> (r: Result<(), MalformedLiteralError>)
        requires
            old(self).wf(),
        ensures
            final(self).wf(),
            final(self).chars == old(self).chars,
            final(self).line == old(self).line,
            ({
                let (q, res) = scan_number(old(self).chars@, old(self).pos as int, seq![], false);
                match res {
                    Ok(t) => {
                        &&& r is Ok
                        &&& final(self).pos == q
                        &&& token_views(final(self).tokens@) == token_views(old(self).tokens@) + seq![t]
                    },
                    Err(e) => {
                        &&& r is Err
                        &&& r->Err_0@ == e
                        &&& final(self).pos == q
                        &&& final(self).tokens == old(self).tokens
                    },
                }
            }),
    {
        let ghost cs = self.chars@;
        let ghost p0 = self.pos as int;
        let ghost tokens0 = self.tokens@;
        let mut acc = String::new();
        let mut period = false;
        while self.pos < self.chars.len() && is_number_char(self.chars[self.pos])
            invariant
                self.wf(),
                self.chars == old(self).chars,
                self.chars@ == cs,
                self.tokens == old(self).tokens,
                self.line == old(self).line,
                old(self).wf(),
                p0 == old(self).pos as int,
                cs == old(self).chars@,
                p0 <= self.pos <= cs.len(),
                scan_number(cs, p0, seq![], false) == scan_number(cs, self.pos as int, acc@, period),
            decreases cs.len() - self.pos,
        {
            let ch = self.chars[self.pos];
            let ghost acc0 = acc@;
            if is_digit_char(ch) {
                push_char(&mut acc, ch);
                self.pos += 1;
            } else if ch == '.' {
                push_char(&mut acc, '.');
                if period {
                    assert(scan_number(cs, self.pos as int, acc0, period) == (
                        self.pos as int,
                        Err::<TokenView, MalformedLiteralView>(
                            MalformedLiteralView::InvalidNumber(acc@),
                        ),
                    ));
                    return Err(MalformedLiteralError::InvalidNumber(acc));
                }
                period = true;
                self.pos += 1;
            } else {
                self.pos += 1;
            }
        }
        let kind = if period {
            LiteralKind::Float
        } else {
            LiteralKind::Integer
        };
        let t = Token::Literal { kind, value: acc };
        proof {
            lemma_token_views_push(self.tokens@, t);
        }
        self.tokens.push(t);
        Ok(())
    }

    /// Reads the hexadecimal digits of a `\u{..}` escape, after the brace.
    fn unicode_escape(&mut self) -> (r: Result<char, MalformedLiteralError>)
        requires
            old(self).wf(),
        ensures
            final(self).wf(),
            final(self).chars == old(self).chars,
            final(self).line == old(self).line,
            final(self).tokens == old(self).tokens,
            ({
                let (q, res) = scan_unicode_escape(old(self).chars@, old(self).pos as int, seq![]);
                match res {
                    Ok(c) => r == Ok::<char, MalformedLiteralError>(c) && final(self).pos == q,
                    Err(e) => {
                        &&& r is Err
                        &&& r->Err_0@ == e
                        &&& final(self).pos == q
                        &&& final(self).tokens == old(self).tokens
                    },
                }
            }),
    {
        let ghost cs = self.chars@;
        let ghost p0 = self.pos as int;
        let mut hex = String::new();
        let mut value: u32 = 0;
        let mut overflow = false;
        while self.pos < self.chars.len()
            invariant
                self.wf(),
                self.chars == old(self).chars,
                cs == self.chars@,
                self.tokens == old(self).tokens,
                self.line == old(self).line,
                old(self).wf(),
                p0 == old(self).pos as int,
                p0 <= self.pos <= cs.len(),
                scan_unicode_escape(cs, p0, seq![]) == scan_unicode_escape(cs, self.pos as int, hex@),
                overflow ==> hex_value(hex@) > u32::MAX,
                !overflow ==> value == hex_value(hex@),
            decreases cs.len() - self.pos,
        {
            let ch = self.chars[self.pos];
            let ghost p = self.pos as int;
            let ghost hex0 = hex@;
            self.pos += 1;
            if is_hex_digit_char(ch) {
                let d = hex_digit(ch);
                proof {
                    assert(hex@.push(ch).drop_last() =~= hex@);
                }
                if !overflow {
                    let next: u64 = (value as u64) * 16 + (d as u64);
                    if next > 0xFFFF_FFFF {
                        overflow = true;
                    } else {
                        value = next as u32;
                    }
                }
                push_char(&mut hex, ch);
            } else if ch == '}' {
                assert(scan_unicode_escape(cs, p, hex0) == (p + 1, unicode_scalar(hex0)));
                return finish_unicode(&hex, value, overflow);
            } else {
                assert(scan_unicode_escape(cs, p, hex0) == (
                    p + 1,
                    Err::<char, MalformedLiteralView>(
                        MalformedLiteralView::InvalidEscapeSequence(unicode_escape_text(hex0, ch)),
                    ),
                ));
                return Err(MalformedLiteralError::InvalidEscapeSequence(unicode_text(&hex, ch)));
            }
        }
        finish_unicode(&hex, value, overflow)
    }

    fn handle_escaped_seq(&mut self) -> (r: Result<char, MalformedLiteralError>)
        requires
            old(self).wf(),
        ensures
            final(self).wf(),
            final(self).chars == old(self).chars,
            final(self).line == old(self).line,
            final(self).tokens == old(self).tokens,
            ({
                let (q, res) = scan_escape(old(self).chars@, old(self).pos as int);
                match res {
                    Ok(c) => r == Ok::<char, MalformedLiteralError>(c) && final(self).pos == q,
                    Err(e) => {
                        &&& r is Err
                        &&& r->Err_0@ == e
                        &&& final(self).pos == q
                        &&& final(self).tokens == old(self).tokens
                    },
                }
            }),
    {
        if self.pos >= self.chars.len() {
            return Err(MalformedLiteralError::UnterminatedCharacter);
        }
        let ch = self.chars[self.pos];
        self.pos += 1;
        match escape_char(ch) {
            Some(e) => Ok(e),
            None => {
                if ch == 'u' {
                    if self.pos >= self.chars.len() {
                        return Err(MalformedLiteralError::UnterminatedCharacter);
                    }
                    let bracket = self.chars[self.pos];
                    self.pos += 1;
                    if bracket != '{' {
                        return Err(
                            MalformedLiteralError::InvalidEscapeSequence(one_char_string(bracket)),
                        );
                    }
                    self.unicode_escape()
                } else {
                    Err(MalformedLiteralError::InvalidEscapeSequence(one_char_string(ch)))
                }
            },
        }
    }

    fn tokenize_character(&mut self) -> (r: Result<(), MalformedLiteralError>)
        requires
            old(self).wf(),
            old(self).pos < old(self).chars.len(),
        ensures
            final(self).wf(),
            final(self).chars == old(self).chars,
            final(self).line == old(self).line,
            ({
                let (q, res) = scan_char_literal(old(self).chars@, old(self).pos as int);
                match res {
                    Ok(t) => {
                        &&& r is Ok
                        &&& final(self).pos == q
                        &&& token_views(final(self).tokens@) == token_views(old(self).tokens@) + seq![t]
                    },
                    Err(e) => {
                        &&& r is Err
                        &&& r->Err_0@ == e
                        &&& final(self).pos == q
                        &&& final(self).tokens == old(self).tokens
                    },
                }
            }),
    {
        let ghost cs = self.chars@;
        let ghost p0 = self.pos as int;
        self.pos += 1;
        let mut escape = false;
        let mut chars = String::new();
        let mut count: usize = 0;
        while self.pos < self.chars.len() && (escape || self.chars[self.pos] != '\'')
            invariant
                self.wf(),
                self.chars == old(self).chars,
                cs == self.chars@,
                self.tokens == old(self).tokens,
                self.line == old(self).line,
                old(self).wf(),
                p0 == old(self).pos as int,
                p0 < self.pos <= cs.len(),
                count == chars@.len(),
                chars@.len() <= self.pos,
                scan_char_body(cs, p0 + 1, seq![], false) == scan_char_body(
                    cs,
                    self.pos as int,
                    chars@,
                    escape,
                ),
            decreases cs.len() - self.pos,
        {
            let ghost p = self.pos as int;
            let ghost acc0 = chars@;
            if escape {
                proof {
                    lemma_scan_escape_bounds(cs, p);
                }
                match self.handle_escaped_seq() {
                    Ok(c) => {
                        push_char(&mut chars, c);
                        count += 1;
                        escape = false;
                    },
                    Err(e) => {
                        assert(scan_escape(cs, p).1 is Err ==> scan_char_body(cs, p, acc0, true).1 == Err::<Seq<char>, MalformedLiteralView>(scan_escape(cs, p).1->Err_0));
                        return Err(e);
                    },
                }
            } else {
                let ch = self.chars[self.pos];
                if ch == '\\' {
                    escape = true;
                } else if ch == '\n' {
                    assert(scan_char_body(cs, p, acc0, false).1 == Err::<Seq<char>, MalformedLiteralView>(
                        MalformedLiteralView::UnterminatedCharacter,
                    ));
                    return Err(MalformedLiteralError::UnterminatedCharacter);
                } else {
                    push_char(&mut chars, ch);
                    count += 1;
                }
                self.pos += 1;
            }
        }
        if self.pos >= self.chars.len() {
            return Err(MalformedLiteralError::UnterminatedCharacter);
        }
        self.pos += 1;
        if count == 0 {
            Err(MalformedLiteralError::EmptyChar)
        } else if count == 1 {
            let t = Token::Literal { kind: LiteralKind::Char, value: chars };
            proof {
                lemma_token_views_push(self.tokens@, t);
            }
            self.tokens.push(t);
            Ok(())
        } else {
            Err(MalformedLiteralError::MulticharLiteral(chars))
        }
    }

    fn tokenize_string(&mut self) -> (r: Result<(), MalformedLiteralError>)
        requires
            old(self).wf(),
            old(self).pos < old(self).chars.len(),
        ensures
            final(self).wf(),
            final(self).chars == old(self).chars,
            final(self).line == old(self).line,
            ({
                let (q, res) = scan_string_literal(old(self).chars@, old(self).pos as int);
                match res {
                    Ok(t) => {
                        &&& r is Ok
                        &&& final(self).pos == q
                        &&& token_views(final(self).tokens@) == token_views(old(self).tokens@) + seq![t]
                    },
                    Err(e) => {
                        &&& r is Err
                        &&& r->Err_0@ == e
                        &&& final(self).pos == q
                        &&& final(self).tokens == old(self).tokens
                    },
                }
            }),
    {
        let ghost cs = self.chars@;
        let ghost p0 = self.pos as int;
        self.pos += 1;
        let mut accumulator = String::new();
        let mut escape = false;
        while self.pos < self.chars.len() && (escape || self.chars[self.pos] != '"')
            invariant
                self.wf(),
                self.chars == old(self).chars,
                cs == self.chars@,
                self.tokens == old(self).tokens,
                self.line == old(self).line,
                old(self).wf(),
                p0 == old(self).pos as int,
                p0 < self.pos <= cs.len(),
                scan_string_body(cs, p0 + 1, seq![], false) == scan_string_body(
                    cs,
                    self.pos as int,
                    accumulator@,
                    escape,
                ),
            decreases cs.len() - self.pos,
        {
            let ch = self.chars[self.pos];
            if !escape && ch == '\\' {
                escape = true;
                self.pos += 1;
            } else if escape {
                let ghost p = self.pos as int;
                let ghost acc0 = accumulator@;
                proof {
                    lemma_scan_escape_bounds(cs, p);
                }
                match self.handle_escaped_seq() {
                    Ok(c) => {
                        push_char(&mut accumulator, c);
                        escape = false;
                    },
                    Err(e) => {
                        assert(scan_escape(cs, p).1 is Err ==> scan_string_body(cs, p, acc0, true).1 == Err::<Seq<char>, MalformedLiteralView>(scan_escape(cs, p).1->Err_0));
                        return Err(e);
                    },
                }
            } else {
                push_char(&mut accumulator, ch);
                self.pos += 1;
            }
        }
        if self.pos < self.chars.len() {
            self.pos += 1;
        }
        let t = Token::Literal { kind: LiteralKind::String, value: accumulator };
        proof {
            lemma_token_views_push(self.tokens@, t);
        }
        self.tokens.push(t);
        Ok(())
    }

    fn tokenize_identifier_or_keyword(&mut self) -> (r: Result<(), TokenizeError>)
        requires
            old(self).wf(),
        ensures
            final(self).wf(),
            final(self).chars == old(self).chars,
            final(self).line == old(self).line,
            r is Ok,
            ({
                let q = word_end(old(self).chars@, old(self).pos as int);
                &&& final(self).pos == q
                &&& token_views(final(self).tokens@) == token_views(old(self).tokens@) + seq![
                    word_token(old(self).chars@.subrange(old(self).pos as int, q)),
                ]
            }),
    {
        let ghost cs = self.chars@;
        let ghost p0 = self.pos as int;
        let mut accumulator = String::new();
        while self.pos < self.chars.len() && is_ident_char_exec(self.chars[self.pos])
            invariant
                self.wf(),
                self.chars == old(self).chars,
                cs == self.chars@,
                self.tokens == old(self).tokens,
                self.line == old(self).line,
                old(self).wf(),
                p0 == old(self).pos as int,
                p0 <= self.pos <= cs.len(),
                accumulator@ == cs.subrange(p0, self.pos as int),
                word_end(cs, p0) == word_end(cs, self.pos as int),
            decreases cs.len() - self.pos,
        {
            let ch = self.chars[self.pos];
            push_char(&mut accumulator, ch);
            self.pos += 1;
            assert(accumulator@ =~= cs.subrange(p0, self.pos as int));
        }
        let t = match Keyword::from_str(accumulator.as_str()) {
            Ok(keyword) => Token::Keyword(keyword),
            Err(()) => Token::Identifier(accumulator),
        };
        proof {
            lemma_token_views_push(self.tokens@, t);
        }
        self.tokens.push(t);
        Ok(())
    }

    fn tokenize_punctuation(&mut self) -> (r: Result<(), TokenizeError>)
        requires
            old(self).wf(),
            old(self).pos < old(self).chars.len(),
        ensures
            final(self).wf(),
            final(self).chars == old(self).chars,
            final(self).line == old(self).line + if punctuation_newline(
                old(self).chars@,
                old(self).pos as int,
            ) {
                1int
            } else {
                0int
            },
            ({
                let (q, res) = scan_punctuation(old(self).chars@, old(self).pos as int);
                match res {
                    Ok(t) => {
                        &&& r is Ok
                        &&& final(self).pos == q
                        &&& token_views(final(self).tokens@) == token_views(old(self).tokens@) + token_seq(t)
                    },
                    Err(e) => {
                        &&& r is Err
                        &&& r->Err_0@ == e
                        &&& final(self).pos == q
                        &&& final(self).tokens == old(self).tokens
                    },
                }
            }),
    {
        let ghost cs = self.chars@;
        let ghost p0 = self.pos as int;
        let first_char = self.chars[self.pos];
        self.pos += 1;
        if is_bracket_char(first_char) {
            let t = bracket(first_char);
            proof {
                lemma_token_views_push(self.tokens@, t);
            }
            self.tokens.push(t);
            return Ok(());
        }
        let mut punct: Vec<char> = Vec::new();
        punct.push(first_char);
        assert(punct@ =~= cs.subrange(p0, self.pos as int));
        while self.pos < self.chars.len() && !is_alphanumeric(self.chars[self.pos])
            && !is_whitespace(self.chars[self.pos]) && !is_bracket_char(self.chars[self.pos])
            invariant
                self.wf(),
                self.chars == old(self).chars,
                cs == self.chars@,
                self.tokens == old(self).tokens,
                self.line == old(self).line,
                old(self).wf(),
                p0 == old(self).pos as int,
                p0 < self.pos <= cs.len(),
                punct@ == cs.subrange(p0, self.pos as int),
                punctuation_end(cs, p0 + 1) == punctuation_end(cs, self.pos as int),
            decreases cs.len() - self.pos,
        {
            punct.push(self.chars[self.pos]);
            self.pos += 1;
            assert(punct@ =~= cs.subrange(p0, self.pos as int));
        }
        if word2(&punct, '/', '/') {
            let ghost q = self.pos as int;
            while self.pos < self.chars.len()
                invariant
                    self.wf(),
                    self.chars == old(self).chars,
                    cs == self.chars@,
                    self.tokens == old(self).tokens,
                    self.line == old(self).line,
                    old(self).wf(),
                    p0 == old(self).pos as int,
                    q <= self.pos <= cs.len(),
                    forall|j: int| q <= j < self.pos ==> cs[j] != '\n',
                    p0 < q,
                    q == punctuation_end(cs, p0 + 1),
                    cs.subrange(p0, q) == seq!['/', '/'],
                    !is_bracket(cs[p0]),
                    comment_end(cs, q) == comment_end(cs, self.pos as int),
                decreases cs.len() - self.pos,
            {
                let ch = self.chars[self.pos];
                let ghost p = self.pos as int;
                self.pos += 1;
                if ch == '\n' {
                    assert(comment_end(cs, p) == p + 1);
                    self.line += 1;
                    proof {
                        assert(token_views(self.tokens@) + token_seq(None) =~= token_views(self.tokens@));
                    }
                    return Ok(());
                }
            }
            proof {
                assert(token_views(self.tokens@) + token_seq(None) =~= token_views(self.tokens@));
                assert(cs[q - 1] == cs.subrange(p0, q)[1]);
            }
            return Ok(());
        }
        match punctuation(&punct) {
            Some(t) => {
                proof {
                    lemma_token_views_push(self.tokens@, t);
                }
                self.tokens.push(t);
                Ok(())
            },
            None => Err(TokenizeError::InvalidPunctuation(string_from_chars(&punct))),
        }
    }

    /// Reads from the current position, chosen by the character `ch` found
    /// there, which must be one that can start something.
    fn match_char(&mut self, ch: char) -> (r: Result<(), TokenizeError>)
        requires
            old(self).wf(),
            old(self).pos < old(self).chars.len(),
            ch == old(self).chars@[old(self).pos as int],
            !(lex_step(old(self).chars@, old(self).pos as int) is Unknown),
        ensures
            final(self).wf(),
            final(self).chars == old(self).chars,
            match lex_step(old(self).chars@, old(self).pos as int) {
                Step::Advance { next, newline, token } => {
                    &&& r is Ok
                    &&& final(self).pos == next
                    &&& final(self).line == old(self).line + if newline { 1int } else { 0int }
                    &&& token_views(final(self).tokens@) == token_views(old(self).tokens@) + token_seq(token)
                },
                Step::Fail(e) => r is Err && r->Err_0@ == e && final(self).line == old(self).line,
                Step::Unknown(_) => false,
            },
    {
        if is_digit_char(ch) {
            match self.tokenize_number() {
                Ok(()) => Ok(()),
                Err(e) => Err(TokenizeError::MalformedLiteral(e)),
            }
        } else if ch == '\'' {
            match self.tokenize_character() {
                Ok(()) => Ok(()),
                Err(e) => Err(TokenizeError::MalformedLiteral(e)),
            }
        } else if ch == '"' {
            match self.tokenize_string() {
                Ok(()) => Ok(()),
                Err(e) => Err(TokenizeError::MalformedLiteral(e)),
            }
        } else if ch == '\n' {
            self.pos += 1;
            self.line += 1;
            proof {
                assert(token_views(self.tokens@) + token_seq(None) =~= token_views(self.tokens@));
            }
            Ok(())
        } else if is_whitespace(ch) {
            self.pos += 1;
            proof {
                assert(token_views(self.tokens@) + token_seq(None) =~= token_views(self.tokens@));
            }
            Ok(())
        } else if is_ascii_letter_char(ch) {
            self.tokenize_identifier_or_keyword()
        } else if ch == ';' {
            proof {
                lemma_token_views_push(self.tokens@, Token::Semicolon);
            }
            self.tokens.push(Token::Semicolon);
            self.pos += 1;
            Ok(())
        } else {
            self.tokenize_punctuation()
        }
    }

    /// Tokenizes the rest of the input. Unlike [`Lexer::tokenize`] it accepts
    /// every input: it also reports a character that cannot start a token.
    pub fn scan(self) -> (r: Result<Vec<Token>, LexHalt>)
        requires
            self.wf(),
        ensures
            match self.outcome() {
                LexOutcome::Tokens(ts) => r is Ok && token_views(r->Ok_0@) == ts,
                LexOutcome::Error(e, line) => r matches Err(LexHalt::Error(q)) && q@ == (e, line),
                LexOutcome::UnknownSymbol(c) => r matches Err(LexHalt::UnknownSymbol(d)) && d == c,
            },
    {
        let mut lexer = self;
        let ghost cs = lexer.chars@;
        let ghost outcome0 = lexer.outcome();
        while lexer.pos < lexer.chars.len()
            invariant
                lexer.wf(),
                lexer.chars@ == cs,
                lexer.outcome() == outcome0,
                outcome0 == self.outcome(),
            decreases cs.len() - lexer.pos,
        {
            let ch = lexer.chars[lexer.pos];
            if !is_known_start(ch) {
                assert(lex_step(cs, lexer.pos as int) == Step::Unknown(ch));
                assert(lex_from(cs, lexer.pos as int, lexer.line as int) == LexOutcome::UnknownSymbol(
                    ch,
                ));
                return Err(LexHalt::UnknownSymbol(ch));
            }
            let ghost before = lexer;
            let start = lexer.pos;
            match lexer.match_char(ch) {
                Ok(()) => {},
                Err(e) => {
                    let line = lexer.line;
                    assert(lex_from(cs, start as int, line as int) == LexOutcome::Error(e@, line as int));
                    return Err(LexHalt::Error(e.qualify(line)));
                },
            }
            proof {
                lemma_lex_step_bounds(cs, start as int);
                if let Step::Advance { next, newline, token } = lex_step(cs, start as int) {
                    lemma_prepend_tokens_twice(
                        token_views(before.tokens@),
                        token_seq(token),
                        lex_from(cs, next, if newline { before.line + 1 } else { before.line as int }),
                    );
                }
            }
        }
        proof {
            assert(token_views(lexer.tokens@) + Seq::<TokenView>::empty() =~= token_views(lexer.tokens@));
        }
        Ok(lexer.tokens)
    }

    /// Tokenizes the rest of the input: every token, or the first error with
    /// the line on which it happened. The input must not reach a character
    /// that cannot start a token.
    pub fn tokenize(self) -> (r: Result<Vec<Token>, QualifiedTokenizeError>)
        requires
            self.wf(),
            !(self.outcome() is UnknownSymbol),
        ensures
            match self.outcome() {
                LexOutcome::Tokens(ts) => r is Ok && token_views(r->Ok_0@) == ts,
                LexOutcome::Error(e, line) => r is Err && r->Err_0@ == (e, line),
                _ => false,
            },
    {
        match self.scan() {
            Ok(tokens) => Ok(tokens),
            Err(LexHalt::Error(e)) => Err(e),
            Err(_) => {
                proof {
                    assert(false);
                }
                Ok(Vec::new())
            },
        }
    }
}

} // verus!
