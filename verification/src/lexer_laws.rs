//! Properties that hold of every input the lexer reads.
use vstd::prelude::*;
use crate::lexer::{
    LexOutcome, MalformedLiteralView, Step, TokenView, can_start, comment_end, is_ascii_letter, is_bracket, is_digit,
    is_hex_digit, is_ident_char, lex, lex_from, lemma_scan_unicode_escape_bounds, prepend_tokens, lex_step, lemma_comment_end_bounds, lemma_lex_step_bounds,
    lemma_punctuation_end_bounds, lemma_scan_char_body_bounds, lemma_scan_escape_bounds,
    lemma_scan_number_bounds, lemma_scan_string_body_bounds, lemma_word_end_bounds,
    punctuation_end, scan_char_body, scan_char_literal, scan_escape, scan_number, scan_punctuation,
    scan_string_body, scan_string_literal, scan_unicode_escape, simple_escape, token_seq, word_end,
    word_token,
};
use crate::text::{is_unicode_alphanumeric, is_unicode_whitespace};
use crate::syntax::{Keyword, LiteralKind, keyword_of, keyword_spelling, lemma_keyword_exact_spelling};

verus! {

/// The number of periods in a text.
pub open spec fn period_count(s: Seq<char>) -> nat
    decreases s.len(),
{
    if s.len() == 0 {
        0
    } else {
        period_count(s.drop_last()) + if s.last() == '.' {
            1nat
        } else {
            0nat
        }
    }
}

/// The number of line breaks in a text.
pub open spec fn newline_count(s: Seq<char>) -> nat
    decreases s.len(),
{
    if s.len() == 0 {
        0
    } else {
        newline_count(s.drop_last()) + if s.last() == '\n' {
            1nat
        } else {
            0nat
        }
    }
}

/// What each kind of token that the lexer yields looks like. An identifier
/// is an ASCII letter followed by letters, digits and underscores, and never
/// spells a keyword. `const` is never read as a keyword. A character literal
/// holds one character. An integer literal is one or more digits; a float
/// literal is digits with exactly one period.
pub open spec fn token_well_formed(t: TokenView) -> bool {
    match t {
        TokenView::Identifier(w) => {
            &&& w.len() > 0
            &&& is_ascii_letter(w[0])
            &&& forall|i: int| 0 <= i < w.len() ==> is_ident_char(#[trigger] w[i])
            &&& keyword_of(w) is None
        },
        TokenView::Keyword(k) => k != Keyword::Const,
        TokenView::Literal { kind, value } => match kind {
            LiteralKind::Char => value.len() == 1,
            LiteralKind::Integer => value.len() > 0 && forall|i: int|
                0 <= i < value.len() ==> is_digit(#[trigger] value[i]),
            LiteralKind::Float => (forall|i: int|
                0 <= i < value.len() ==> is_digit(#[trigger] value[i]) || value[i] == '.')
                && period_count(value) == 1,
            LiteralKind::String => true,
        },
        _ => true,
    }
}

/// The text a number literal has read so far: digits and periods, with one
/// period exactly when `period` says so.
spec fn number_text(acc: Seq<char>, period: bool) -> bool {
    &&& acc.len() > 0
    &&& forall|i: int| 0 <= i < acc.len() ==> is_digit(#[trigger] acc[i]) || acc[i] == '.'
    &&& period_count(acc) == if period {
        1nat
    } else {
        0nat
    }
}

proof fn lemma_no_period(s: Seq<char>)
    requires
        period_count(s) == 0,
    ensures
        forall|i: int| 0 <= i < s.len() ==> #[trigger] s[i] != '.',
    decreases s.len(),
{
    if s.len() > 0 {
        lemma_no_period(s.drop_last());
        assert forall|i: int| 0 <= i < s.len() implies #[trigger] s[i] != '.' by {
            if i < s.len() - 1 {
                assert(s[i] == s.drop_last()[i]);
            }
        }
    }
}

proof fn lemma_scan_number_well_formed(cs: Seq<char>, p: int, acc: Seq<char>, period: bool)
    requires
        0 <= p,
        number_text(acc, period),
    ensures
        scan_number(cs, p, acc, period).1 matches Ok(t) ==> token_well_formed(t),
    decreases cs.len() - p,
{
    if !period {
        lemma_no_period(acc);
    }
    if p < cs.len() {
        let c = cs[p];
        if is_digit(c) || (c == '.' && !period) {
            let next = acc.push(c);
            assert(next.drop_last() =~= acc);
            assert(number_text(next, period || c == '.'));
            lemma_scan_number_well_formed(cs, p + 1, next, period || c == '.');
        } else if c == '_' {
            lemma_scan_number_well_formed(cs, p + 1, acc, period);
        }
    }
}

proof fn lemma_word_chars(cs: Seq<char>, p: int)
    requires
        0 <= p <= cs.len(),
    ensures
        forall|i: int| p <= i < word_end(cs, p) ==> is_ident_char(#[trigger] cs[i]),
    decreases cs.len() - p,
{
    if p < cs.len() && is_ident_char(cs[p]) {
        lemma_word_chars(cs, p + 1);
    }
}

/// A step yields a well-formed token, if any.
proof fn lemma_step_token_well_formed(cs: Seq<char>, p: int)
    requires
        0 <= p < cs.len(),
    ensures
        lex_step(cs, p) matches Step::Advance { token: Some(t), .. } ==> token_well_formed(t),
{
    let c = cs[p];
    if is_digit(c) {
        let acc = seq![c];
        assert(acc.drop_last() =~= Seq::<char>::empty());
        assert(acc[0] == c);
        assert(period_count(acc) == period_count(acc.drop_last()));
        assert(number_text(acc, false));
        lemma_scan_number_well_formed(cs, p + 1, acc, false);
        assert(scan_number(cs, p, seq![], false) == scan_number(cs, p + 1, seq![].push(c), false));
        assert(seq![].push(c) =~= acc);
    } else if is_ascii_letter(c) && !(c == '\'' || c == '"' || c == '\n' || is_unicode_whitespace(c)) {
        lemma_word_end_bounds(cs, p + 1);
        lemma_word_chars(cs, p);
        let q = word_end(cs, p);
        let w = cs.subrange(p, q);
        assert forall|i: int| 0 <= i < w.len() implies is_ident_char(#[trigger] w[i]) by {
            assert(w[i] == cs[p + i]);
        }
    }
}

/// Tokenizing from position `p`: the tokens are well formed, and there are
/// no more of them than characters left.
proof fn lemma_lex_from_tokens(cs: Seq<char>, p: int, line: int)
    requires
        0 <= p <= cs.len(),
    ensures
        lex_from(cs, p, line) matches LexOutcome::Tokens(ts) ==> {
            &&& ts.len() <= cs.len() - p
            &&& forall|i: int| 0 <= i < ts.len() ==> token_well_formed(#[trigger] ts[i])
        },
    decreases cs.len() - p,
{
    if p < cs.len() {
        lemma_lex_step_bounds(cs, p);
        lemma_step_token_well_formed(cs, p);
        if let Step::Advance { next, newline, token } = lex_step(cs, p) {
            let line2 = if newline {
                line + 1
            } else {
                line
            };
            lemma_lex_from_tokens(cs, next, line2);
            if let LexOutcome::Tokens(rest) = lex_from(cs, next, line2) {
                let ts = token_seq(token) + rest;
                assert forall|i: int| 0 <= i < ts.len() implies token_well_formed(
                    #[trigger] ts[i],
                ) by {
                    if i >= token_seq(token).len() {
                        assert(ts[i] == rest[i - token_seq(token).len()]);
                    }
                }
            }
        }
    }
}

/// Every token that tokenizing yields is well formed (see
/// [`token_well_formed`]), and each takes at least one character of the
/// input, so there are no more tokens than characters.
pub proof fn lemma_lex_tokens_well_formed(input: Seq<char>)
    ensures
        lex(input) matches LexOutcome::Tokens(ts) ==> {
            &&& ts.len() <= input.len()
            &&& forall|i: int| 0 <= i < ts.len() ==> token_well_formed(#[trigger] ts[i])
        },
{
    lemma_lex_from_tokens(input, 0, 1);
}

proof fn lemma_newline_count_take(cs: Seq<char>, a: int, b: int)
    requires
        0 <= a <= b <= cs.len(),
    ensures
        newline_count(cs.take(a)) <= newline_count(cs.take(b)),
    decreases b - a,
{
    if a < b {
        assert(cs.take(b).drop_last() =~= cs.take(b - 1));
        lemma_newline_count_take(cs, a, b - 1);
    }
}

/// A step that reads a line break ends just after it.
proof fn lemma_step_newline(cs: Seq<char>, p: int)
    requires
        0 <= p < cs.len(),
    ensures
        lex_step(cs, p) matches Step::Advance { next, newline, .. } ==> newline ==> cs[next - 1]
            == '\n',
{
}

proof fn lemma_lex_from_error_line(cs: Seq<char>, p: int, line: int)
    requires
        0 <= p <= cs.len(),
        1 <= line <= 1 + newline_count(cs.take(p)),
    ensures
        lex_from(cs, p, line) matches LexOutcome::Error(_, l) ==> 1 <= l <= 1 + newline_count(cs),
    decreases cs.len() - p,
{
    if p < cs.len() {
        lemma_lex_step_bounds(cs, p);
        lemma_newline_count_take(cs, p, cs.len() as int);
        assert(cs.take(cs.len() as int) =~= cs);
        if let Step::Advance { next, newline, token } = lex_step(cs, p) {
            if newline {
                lemma_step_newline(cs, p);
                assert(cs.take(next).drop_last() =~= cs.take(next - 1));
                lemma_newline_count_take(cs, p, next - 1);
            } else {
                lemma_newline_count_take(cs, p, next);
            }
            lemma_lex_from_error_line(cs, next, if newline { line + 1 } else { line });
        }
    }
}

/// Lines are counted from 1, one per line break read outside literals and
/// comments, so the line of an error lies between 1 and one more than the
/// number of line breaks in the input.
pub proof fn lemma_lex_error_line(input: Seq<char>)
    ensures
        lex(input) matches LexOutcome::Error(_, line) ==> 1 <= line <= 1 + newline_count(input),
{
    assert(input.take(0) =~= Seq::<char>::empty());
    lemma_lex_from_error_line(input, 0, 1);
}

proof fn lemma_lex_from_stops(cs: Seq<char>, p: int, line: int)
    requires
        0 <= p <= cs.len(),
    ensures
        lex_from(cs, p, line) matches LexOutcome::UnknownSymbol(c) ==> cs.contains(c) && !can_start(c),
    decreases cs.len() - p,
{
    if p < cs.len() {
        lemma_lex_step_bounds(cs, p);
        match lex_step(cs, p) {
            Step::Unknown(c) => {
                assert(cs[p] == c);
            },
            Step::Fail(_) => {},
            Step::Advance { next, newline, token } => {
                lemma_lex_from_stops(cs, next, if newline { line + 1 } else { line });
            },
        }
    }
}

/// Tokenizing stops at a character that cannot start a token only if the
/// input holds one. So an input whose every character can start a token
/// always yields its tokens or an error.
pub proof fn lemma_lex_stops(input: Seq<char>)
    ensures
        lex(input) matches LexOutcome::UnknownSymbol(c) ==> input.contains(c) && !can_start(c),
{
    lemma_lex_from_stops(input, 0, 1);
}

// ---------------------------------------------------------------------------
// Reading does not look back: what lies before a position does not change
// what is read from it.

proof fn lemma_shift_number(a: Seq<char>, cs: Seq<char>, p: int, acc: Seq<char>, period: bool)
    requires
        0 <= p,
    ensures
        scan_number(a + cs, p + a.len(), acc, period) == (
            scan_number(cs, p, acc, period).0 + a.len(),
            scan_number(cs, p, acc, period).1,
        ),
    decreases cs.len() - p,
{
    if p < cs.len() {
        assert((a + cs)[p + a.len()] == cs[p]);
        let c = cs[p];
        if is_digit(c) {
            lemma_shift_number(a, cs, p + 1, acc.push(c), period);
        } else if c == '.' && !period {
            lemma_shift_number(a, cs, p + 1, acc.push('.'), true);
        } else if c == '_' {
            lemma_shift_number(a, cs, p + 1, acc, period);
        }
    }
}

proof fn lemma_shift_unicode_escape(a: Seq<char>, cs: Seq<char>, p: int, hex: Seq<char>)
    requires
        0 <= p,
    ensures
        scan_unicode_escape(a + cs, p + a.len(), hex) == (
            scan_unicode_escape(cs, p, hex).0 + a.len(),
            scan_unicode_escape(cs, p, hex).1,
        ),
    decreases cs.len() - p,
{
    if p < cs.len() {
        assert((a + cs)[p + a.len()] == cs[p]);
        if is_hex_digit(cs[p]) {
            lemma_shift_unicode_escape(a, cs, p + 1, hex.push(cs[p]));
        }
    }
}

proof fn lemma_shift_escape(a: Seq<char>, cs: Seq<char>, p: int)
    requires
        0 <= p,
    ensures
        scan_escape(a + cs, p + a.len()) == (scan_escape(cs, p).0 + a.len(), scan_escape(cs, p).1),
{
    if p < cs.len() {
        assert((a + cs)[p + a.len()] == cs[p]);
        if p + 1 < cs.len() {
            assert((a + cs)[p + 1 + a.len()] == cs[p + 1]);
        }
        lemma_shift_unicode_escape(a, cs, p + 2, seq![]);
    }
}

proof fn lemma_shift_char_body(a: Seq<char>, cs: Seq<char>, p: int, acc: Seq<char>, escape: bool)
    requires
        0 <= p <= cs.len(),
    ensures
        scan_char_body(a + cs, p + a.len(), acc, escape) == (
            scan_char_body(cs, p, acc, escape).0 + a.len(),
            scan_char_body(cs, p, acc, escape).1,
        ),
    decreases cs.len() - p,
{
    if p < cs.len() {
        assert((a + cs)[p + a.len()] == cs[p]);
        if escape {
            lemma_shift_escape(a, cs, p);
            lemma_scan_escape_bounds(cs, p);
            let (q, r) = scan_escape(cs, p);
            if let Ok(e) = r {
                lemma_shift_char_body(a, cs, q, acc.push(e), false);
            }
        } else {
            let c = cs[p];
            if c == '\\' {
                lemma_shift_char_body(a, cs, p + 1, acc, true);
            } else if c != '\'' && c != '\n' {
                lemma_shift_char_body(a, cs, p + 1, acc.push(c), false);
            }
        }
    }
}

proof fn lemma_shift_string_body(a: Seq<char>, cs: Seq<char>, p: int, acc: Seq<char>, escape: bool)
    requires
        0 <= p <= cs.len(),
    ensures
        scan_string_body(a + cs, p + a.len(), acc, escape) == (
            scan_string_body(cs, p, acc, escape).0 + a.len(),
            scan_string_body(cs, p, acc, escape).1,
        ),
    decreases cs.len() - p,
{
    if p < cs.len() {
        assert((a + cs)[p + a.len()] == cs[p]);
        let c = cs[p];
        if c == '"' && !escape {
        } else if c == '\\' && !escape {
            lemma_shift_string_body(a, cs, p + 1, acc, true);
        } else if escape {
            lemma_shift_escape(a, cs, p);
            lemma_scan_escape_bounds(cs, p);
            let (q, r) = scan_escape(cs, p);
            if let Ok(e) = r {
                lemma_shift_string_body(a, cs, q, acc.push(e), false);
            }
        } else {
            lemma_shift_string_body(a, cs, p + 1, acc.push(c), false);
        }
    }
}

proof fn lemma_shift_word_end(a: Seq<char>, cs: Seq<char>, p: int)
    requires
        0 <= p,
    ensures
        word_end(a + cs, p + a.len()) == word_end(cs, p) + a.len(),
    decreases cs.len() - p,
{
    if p < cs.len() {
        assert((a + cs)[p + a.len()] == cs[p]);
        if is_ident_char(cs[p]) {
            lemma_shift_word_end(a, cs, p + 1);
        }
    }
}

proof fn lemma_shift_punctuation_end(a: Seq<char>, cs: Seq<char>, p: int)
    requires
        0 <= p,
    ensures
        punctuation_end(a + cs, p + a.len()) == punctuation_end(cs, p) + a.len(),
    decreases cs.len() - p,
{
    if p < cs.len() {
        assert((a + cs)[p + a.len()] == cs[p]);
        lemma_shift_punctuation_end(a, cs, p + 1);
    }
}

proof fn lemma_shift_comment_end(a: Seq<char>, cs: Seq<char>, p: int)
    requires
        0 <= p,
    ensures
        comment_end(a + cs, p + a.len()) == comment_end(cs, p) + a.len(),
    decreases cs.len() - p,
{
    if p < cs.len() {
        assert((a + cs)[p + a.len()] == cs[p]);
        lemma_shift_comment_end(a, cs, p + 1);
    }
}

proof fn lemma_shift_subrange(a: Seq<char>, cs: Seq<char>, p: int, q: int)
    requires
        0 <= p <= q <= cs.len(),
    ensures
        (a + cs).subrange(p + a.len(), q + a.len()) == cs.subrange(p, q),
{
    assert((a + cs).subrange(p + a.len(), q + a.len()) =~= cs.subrange(p, q));
}

/// What one step reads from position `p` of `cs` it reads the same from the
/// same place in `a + cs`.
proof fn lemma_shift_step(a: Seq<char>, cs: Seq<char>, p: int)
    requires
        0 <= p < cs.len(),
    ensures
        lex_step(a + cs, p + a.len()) == match lex_step(cs, p) {
            Step::Advance { next, newline, token } => Step::Advance {
                next: next + a.len(),
                newline,
                token,
            },
            other => other,
        },
{
    let d = a.len() as int;
    assert((a + cs)[p + d] == cs[p]);
    let c = cs[p];
    lemma_shift_number(a, cs, p, seq![], false);
    lemma_shift_char_body(a, cs, p + 1, seq![], false);
    lemma_scan_char_body_bounds(cs, p + 1, seq![], false);
    lemma_shift_string_body(a, cs, p + 1, seq![], false);
    lemma_scan_string_body_bounds(cs, p + 1, seq![], false);
    assert(scan_char_literal(a + cs, p + d) == (scan_char_literal(cs, p).0 + d, scan_char_literal(cs, p).1));
    assert(scan_string_literal(a + cs, p + d) == (scan_string_literal(cs, p).0 + d, scan_string_literal(cs, p).1));
    lemma_shift_word_end(a, cs, p);
    lemma_word_end_bounds(cs, p);
    lemma_shift_subrange(a, cs, p, word_end(cs, p));
    lemma_shift_punctuation_end(a, cs, p + 1);
    lemma_punctuation_end_bounds(cs, p + 1);
    lemma_shift_subrange(a, cs, p, punctuation_end(cs, p + 1));
    lemma_shift_comment_end(a, cs, punctuation_end(cs, p + 1));
    lemma_comment_end_bounds(cs, punctuation_end(cs, p + 1));
    let q = scan_punctuation(cs, p).0;
    if 1 <= q <= cs.len() {
        assert((a + cs)[q + d - 1] == cs[q - 1]);
    }
    assert(scan_punctuation(a + cs, p + d) == match scan_punctuation(cs, p) {
        (q, r) => (q + d, r),
    });
}

/// Tokenizing from position `p` of `cs`, and from the same place in `a + cs`,
/// ends the same way.
pub proof fn lemma_lex_from_shift(a: Seq<char>, cs: Seq<char>, p: int, line: int)
    requires
        0 <= p <= cs.len(),
    ensures
        lex_from(a + cs, p + a.len(), line) == lex_from(cs, p, line),
    decreases cs.len() - p,
{
    if p < cs.len() {
        lemma_shift_step(a, cs, p);
        lemma_lex_step_bounds(cs, p);
        if let Step::Advance { next, newline, token } = lex_step(cs, p) {
            if next > p {
                lemma_lex_from_shift(a, cs, next, if newline { line + 1 } else { line });
            }
        }
    }
}

/// A character that is skipped as blank: whitespace other than a line break.
pub open spec fn is_blank(c: char) -> bool {
    is_unicode_whitespace(c) && c != '\n'
}

/// Blanks before the input change nothing: neither the tokens, nor an
/// error, nor the line on which it happens.
pub proof fn lemma_blank_prefix(blanks: Seq<char>, input: Seq<char>)
    requires
        forall|i: int| 0 <= i < blanks.len() ==> is_blank(#[trigger] blanks[i]),
    ensures
        lex(blanks + input) == lex(input),
    decreases blanks.len(),
{
    if blanks.len() > 0 {
        let rest = blanks.drop_first();
        assert(blanks + input =~= seq![blanks[0]] + (rest + input));
        assert(is_blank(blanks[0]));
        assert((blanks + input)[0] == blanks[0]);
        lemma_lex_from_shift(seq![blanks[0]], rest + input, 0, 1);
        assert(lex_from(blanks + input, 0, 1) == lex_from(blanks + input, 1, 1));
        assert forall|i: int| 0 <= i < rest.len() implies is_blank(#[trigger] rest[i]) by {
            assert(rest[i] == blanks[i + 1]);
        }
        lemma_blank_prefix(rest, input);
    }
}

/// The outcome with the line of an error one further on.
pub open spec fn next_line(o: LexOutcome) -> LexOutcome {
    match o {
        LexOutcome::Error(e, line) => LexOutcome::Error(e, line + 1),
        other => other,
    }
}

proof fn lemma_lex_from_line(cs: Seq<char>, p: int, line: int)
    requires
        0 <= p <= cs.len(),
    ensures
        lex_from(cs, p, line + 1) == next_line(lex_from(cs, p, line)),
    decreases cs.len() - p,
{
    if p < cs.len() {
        lemma_lex_step_bounds(cs, p);
        if let Step::Advance { next, newline, token } = lex_step(cs, p) {
            if next > p {
                lemma_lex_from_line(cs, next, if newline { line + 1 } else { line });
            }
        }
    }
}

/// A line break before the input yields the same tokens, and moves an error
/// one line further on.
pub proof fn lemma_newline_prefix(input: Seq<char>)
    ensures
        lex(seq!['\n'] + input) == next_line(lex(input)),
{
    let cs = seq!['\n'] + input;
    assert(cs[0] == '\n');
    assert(lex_from(cs, 0, 1) == lex_from(cs, 1, 2));
    lemma_lex_from_shift(seq!['\n'], input, 0, 2);
    lemma_lex_from_line(input, 0, 1);
}

// ---------------------------------------------------------------------------
// Blanks between tokens change nothing.

/// Reading from `p` on stops, step after step, exactly at `q`: every step in
/// between goes on, and none jumps past `q`.
pub open spec fn lex_reaches(cs: Seq<char>, p: int, q: int) -> bool
    decreases cs.len() - p,
{
    if p == q {
        true
    } else if p < 0 || p > q || p >= cs.len() {
        false
    } else {
        proof {
            lemma_lex_step_bounds(cs, p);
        }
        match lex_step(cs, p) {
            Step::Advance { next, .. } => next <= q && lex_reaches(cs, next, q),
            _ => false,
        }
    }
}

/// `cs2` has the characters of `cs` before `q`, and a blank at `q`.
spec fn agree_before(cs: Seq<char>, cs2: Seq<char>, q: int) -> bool {
    &&& 0 <= q < cs.len()
    &&& q < cs2.len()
    &&& forall|i: int| 0 <= i < q ==> #[trigger] cs2[i] == cs[i]
    &&& is_blank(cs2[q])
}

proof fn lemma_agree_number(cs: Seq<char>, cs2: Seq<char>, q: int, p: int, acc: Seq<char>, period: bool)
    requires
        agree_before(cs, cs2, q),
        0 <= p <= q,
        scan_number(cs, p, acc, period).1 is Ok,
        scan_number(cs, p, acc, period).0 <= q,
    ensures
        scan_number(cs2, p, acc, period) == scan_number(cs, p, acc, period),
    decreases q - p,
{
    let c = cs[p];
    if p < q {
        assert(cs2[p] == c);
        if is_digit(c) {
            lemma_agree_number(cs, cs2, q, p + 1, acc.push(c), period);
        } else if c == '.' && !period {
            lemma_agree_number(cs, cs2, q, p + 1, acc.push('.'), true);
        } else if c == '_' {
            lemma_agree_number(cs, cs2, q, p + 1, acc, period);
        }
    } else {
        lemma_scan_number_bounds(cs, p + 1, acc.push(c), period);
        lemma_scan_number_bounds(cs, p + 1, acc.push('.'), true);
        lemma_scan_number_bounds(cs, p + 1, acc, period);
    }
}

proof fn lemma_agree_word_end(cs: Seq<char>, cs2: Seq<char>, q: int, p: int)
    requires
        agree_before(cs, cs2, q),
        0 <= p <= q,
        word_end(cs, p) <= q,
    ensures
        word_end(cs2, p) == word_end(cs, p),
    decreases q - p,
{
    if p < q {
        assert(cs2[p] == cs[p]);
        if is_ident_char(cs[p]) {
            lemma_agree_word_end(cs, cs2, q, p + 1);
        }
    } else {
        lemma_word_end_bounds(cs, p + 1);
    }
}

proof fn lemma_agree_punctuation_end(cs: Seq<char>, cs2: Seq<char>, q: int, p: int)
    requires
        agree_before(cs, cs2, q),
        0 <= p <= q,
        punctuation_end(cs, p) <= q,
    ensures
        punctuation_end(cs2, p) == punctuation_end(cs, p),
    decreases q - p,
{
    if p < q {
        assert(cs2[p] == cs[p]);
        if !(is_unicode_alphanumeric(cs[p]) || is_unicode_whitespace(cs[p]) || is_bracket(cs[p])) {
            lemma_agree_punctuation_end(cs, cs2, q, p + 1);
        }
    } else {
        lemma_punctuation_end_bounds(cs, p + 1);
    }
}

proof fn lemma_agree_comment_end(cs: Seq<char>, cs2: Seq<char>, q: int, p: int)
    requires
        agree_before(cs, cs2, q),
        0 <= p <= q,
        comment_end(cs, p) <= q,
    ensures
        comment_end(cs2, p) == comment_end(cs, p),
    decreases q - p,
{
    if p < q {
        assert(cs2[p] == cs[p]);
        if cs[p] != '\n' {
            lemma_agree_comment_end(cs, cs2, q, p + 1);
        }
    } else {
        lemma_comment_end_bounds(cs, p + 1);
    }
}

proof fn lemma_agree_unicode_escape(cs: Seq<char>, cs2: Seq<char>, q: int, p: int, hex: Seq<char>)
    requires
        agree_before(cs, cs2, q),
        0 <= p <= q,
        scan_unicode_escape(cs, p, hex).0 <= q,
        scan_unicode_escape(cs, p, hex).1 is Ok,
    ensures
        scan_unicode_escape(cs2, p, hex) == scan_unicode_escape(cs, p, hex),
    decreases q - p,
{
    if p < q {
        assert(cs2[p] == cs[p]);
        if is_hex_digit(cs[p]) {
            lemma_agree_unicode_escape(cs, cs2, q, p + 1, hex.push(cs[p]));
        }
    } else {
        lemma_scan_unicode_escape_bounds(cs, p + 1, hex.push(cs[p]));
    }
}

proof fn lemma_agree_escape(cs: Seq<char>, cs2: Seq<char>, q: int, p: int)
    requires
        agree_before(cs, cs2, q),
        0 <= p <= q,
        scan_escape(cs, p).0 <= q,
        scan_escape(cs, p).1 is Ok,
    ensures
        scan_escape(cs2, p) == scan_escape(cs, p),
{
    lemma_scan_escape_bounds(cs, p);
    assert(p < q);
    assert(cs2[p] == cs[p]);
    if cs[p] == 'u' && p + 1 < cs.len() {
        if p + 1 < q {
            assert(cs2[p + 1] == cs[p + 1]);
        }
        if cs[p + 1] == '{' {
            lemma_scan_unicode_escape_bounds(cs, p + 2, seq![]);
            lemma_agree_unicode_escape(cs, cs2, q, p + 2, seq![]);
        }
    }
}

proof fn lemma_agree_char_body(cs: Seq<char>, cs2: Seq<char>, q: int, p: int, acc: Seq<char>, escape: bool)
    requires
        agree_before(cs, cs2, q),
        0 <= p <= q,
        scan_char_body(cs, p, acc, escape).0 < q,
        scan_char_body(cs, p, acc, escape).1 is Ok,
    ensures
        scan_char_body(cs2, p, acc, escape) == scan_char_body(cs, p, acc, escape),
    decreases q - p,
{
    lemma_scan_char_body_bounds(cs, p, acc, escape);
    assert(p < q);
    assert(cs2[p] == cs[p]);
    if escape {
        lemma_scan_escape_bounds(cs, p);
        let (e, r) = scan_escape(cs, p);
        if let Ok(c) = r {
            lemma_scan_char_body_bounds(cs, e, acc.push(c), false);
            lemma_agree_escape(cs, cs2, q, p);
            lemma_agree_char_body(cs, cs2, q, e, acc.push(c), false);
        }
    } else {
        let c = cs[p];
        if c == '\\' {
            lemma_scan_char_body_bounds(cs, p + 1, acc, true);
            lemma_agree_char_body(cs, cs2, q, p + 1, acc, true);
        } else if c != '\'' && c != '\n' {
            lemma_scan_char_body_bounds(cs, p + 1, acc.push(c), false);
            lemma_agree_char_body(cs, cs2, q, p + 1, acc.push(c), false);
        }
    }
}

proof fn lemma_agree_string_body(cs: Seq<char>, cs2: Seq<char>, q: int, p: int, acc: Seq<char>, escape: bool)
    requires
        agree_before(cs, cs2, q),
        0 <= p <= q,
        scan_string_body(cs, p, acc, escape).0 < q,
        scan_string_body(cs, p, acc, escape).1 is Ok,
    ensures
        scan_string_body(cs2, p, acc, escape) == scan_string_body(cs, p, acc, escape),
    decreases q - p,
{
    lemma_scan_string_body_bounds(cs, p, acc, escape);
    assert(p < q);
    assert(cs2[p] == cs[p]);
    let c = cs[p];
    if c == '"' && !escape {
    } else if c == '\\' && !escape {
        lemma_scan_string_body_bounds(cs, p + 1, acc, true);
        lemma_agree_string_body(cs, cs2, q, p + 1, acc, true);
    } else if escape {
        lemma_scan_escape_bounds(cs, p);
        let (e, r) = scan_escape(cs, p);
        if let Ok(x) = r {
            lemma_scan_string_body_bounds(cs, e, acc.push(x), false);
            lemma_agree_escape(cs, cs2, q, p);
            lemma_agree_string_body(cs, cs2, q, e, acc.push(x), false);
        }
    } else {
        lemma_scan_string_body_bounds(cs, p + 1, acc.push(c), false);
        lemma_agree_string_body(cs, cs2, q, p + 1, acc.push(c), false);
    }
}

/// A step that goes on and stops at or before `q` reads the same from `cs2`.
proof fn lemma_agree_step(cs: Seq<char>, cs2: Seq<char>, q: int, p: int)
    requires
        agree_before(cs, cs2, q),
        0 <= p < q,
        lex_step(cs, p) matches Step::Advance { next, .. } && next <= q,
    ensures
        lex_step(cs2, p) == lex_step(cs, p),
{
    let c = cs[p];
    assert(cs2[p] == c);
    lemma_lex_step_bounds(cs, p);
    if is_digit(c) {
        lemma_agree_number(cs, cs2, q, p, seq![], false);
    } else if c == '\'' {
        lemma_scan_char_body_bounds(cs, p + 1, seq![], false);
        lemma_agree_char_body(cs, cs2, q, p + 1, seq![], false);
    } else if c == '"' {
        lemma_scan_string_body_bounds(cs, p + 1, seq![], false);
        lemma_agree_string_body(cs, cs2, q, p + 1, seq![], false);
    } else if c == '\n' || is_unicode_whitespace(c) {
    } else if is_ascii_letter(c) {
        lemma_agree_word_end(cs, cs2, q, p);
        let e = word_end(cs, p);
        assert(cs2.subrange(p, e) =~= cs.subrange(p, e));
    } else if c == ';' {
    } else if is_bracket(c) {
    } else {
        lemma_punctuation_end_bounds(cs, p + 1);
        let e = punctuation_end(cs, p + 1);
        lemma_comment_end_bounds(cs, e);
        lemma_agree_punctuation_end(cs, cs2, q, p + 1);
        assert(cs2.subrange(p, e) =~= cs.subrange(p, e));
        if cs.subrange(p, e) == seq!['/', '/'] {
            lemma_agree_comment_end(cs, cs2, q, e);
            let f = comment_end(cs, e);
            assert(cs2[f - 1] == cs[f - 1]);
        }
    }
}

/// Characters that are all blank are skipped without a trace.
proof fn lemma_skip_blanks(cs: Seq<char>, p: int, k: int, line: int)
    requires
        0 <= p,
        0 <= k,
        p + k <= cs.len(),
        forall|i: int| p <= i < p + k ==> is_blank(#[trigger] cs[i]),
    ensures
        lex_from(cs, p, line) == lex_from(cs, p + k, line),
    decreases k,
{
    if k > 0 {
        assert(is_blank(cs[p]));
        lemma_skip_blanks(cs, p + 1, k - 1, line);
        if let LexOutcome::Tokens(rest) = lex_from(cs, p + 1, line) {
            assert(Seq::<TokenView>::empty() + rest =~= rest);
        }
    }
}

proof fn lemma_blanks_between_from(cs: Seq<char>, blanks: Seq<char>, q: int, p: int, line: int)
    requires
        0 <= p <= q < cs.len(),
        blanks.len() > 0,
        forall|i: int| 0 <= i < blanks.len() ==> is_blank(#[trigger] blanks[i]),
        lex_reaches(cs, p, q),
    ensures
        lex_from(cs.take(q) + blanks + cs.skip(q), p, line) == lex_from(cs, p, line),
    decreases q - p,
{
    let cs2 = cs.take(q) + blanks + cs.skip(q);
    let b = blanks.len() as int;
    if p == q {
        assert forall|i: int| q <= i < q + b implies is_blank(#[trigger] cs2[i]) by {
            assert(cs2[i] == blanks[i - q]);
        }
        lemma_skip_blanks(cs2, q, b, line);
        assert(cs2 =~= (cs.take(q) + blanks) + cs.skip(q));
        lemma_lex_from_shift(cs.take(q) + blanks, cs.skip(q), 0, line);
        assert(cs =~= cs.take(q) + cs.skip(q));
        lemma_lex_from_shift(cs.take(q), cs.skip(q), 0, line);
    } else {
        assert forall|i: int| 0 <= i < q implies #[trigger] cs2[i] == cs[i] by {}
        assert(cs2[q] == blanks[0]);
        assert(agree_before(cs, cs2, q));
        lemma_lex_step_bounds(cs, p);
        lemma_agree_step(cs, cs2, q, p);
        if let Step::Advance { next, newline, token } = lex_step(cs, p) {
            lemma_blanks_between_from(cs, blanks, q, next, if newline { line + 1 } else { line });
        }
    }
}

/// Where reading stops between two tokens, before the end of the input,
/// blanks put there change nothing: neither the tokens, nor an error, nor the
/// line on which it happens. (At the very end of the input they could: an
/// unterminated string literal would take them in.)
pub proof fn lemma_blanks_between_tokens(input: Seq<char>, q: int, blanks: Seq<char>)
    requires
        0 <= q < input.len(),
        lex_reaches(input, 0, q),
        forall|i: int| 0 <= i < blanks.len() ==> is_blank(#[trigger] blanks[i]),
    ensures
        lex(input.take(q) + blanks + input.skip(q)) == lex(input),
{
    if blanks.len() == 0 {
        assert(input.take(q) + blanks + input.skip(q) =~= input);
    } else {
        lemma_blanks_between_from(input, blanks, q, 0, 1);
    }
}


// ---------------------------------------------------------------------------
// Escapes and words

/// The letter that writes a character as a one-character escape, found by
/// the character's code: line feed (10) as `n`, carriage return (13) as `r`,
/// tab (9) as `t`, NUL (0) as `0`, and backslash (92), single quote (39) and
/// double quote (34) as themselves.
pub open spec fn escape_letter(code: u32) -> Option<char> {
    if code == 10 {
        Some('n')
    } else if code == 13 {
        Some('r')
    } else if code == 9 {
        Some('t')
    } else if code == 0 {
        Some('0')
    } else if code == 92 {
        Some('\\')
    } else if code == 39 {
        Some('\'')
    } else if code == 34 {
        Some('"')
    } else {
        None
    }
}

/// A one-character escape stands for the character that its letter names,
/// and a letter names a character only through its own escape: `\r` is the
/// carriage return, `\n` the line feed, and no two escapes stand for the same
/// character.
pub proof fn lemma_simple_escape_names_its_character(c: char, e: char)
    ensures
        simple_escape(c) == Some(e) <==> escape_letter(e as u32) == Some(c),
{
    assert('\n' as u32 == 10);
    assert('\r' as u32 == 13);
    assert('\t' as u32 == 9);
    assert('\0' as u32 == 0);
    assert('\\' as u32 == 92);
    assert('\'' as u32 == 39);
    assert('"' as u32 == 34);
}

/// Two letters whose escapes stand for the same character are the same letter.
pub proof fn lemma_simple_escapes_distinct(c1: char, c2: char)
    requires
        simple_escape(c1) is Some,
        simple_escape(c1) == simple_escape(c2),
    ensures
        c1 == c2,
{
    let e = simple_escape(c1)->0;
    lemma_simple_escape_names_its_character(c1, e);
    lemma_simple_escape_names_its_character(c2, e);
}

/// A character literal written as a one-character escape, `'\c'`, reads as
/// the single character that the escape stands for.
pub proof fn lemma_escaped_char_literal(c: char, e: char)
    requires
        simple_escape(c) == Some(e),
    ensures
        lex(seq!['\'', '\\', c, '\'']) == LexOutcome::Tokens(
            seq![TokenView::Literal { kind: LiteralKind::Char, value: seq![e] }],
        ),
{
    let cs = seq!['\'', '\\', c, '\''];
    assert(scan_escape(cs, 2) == (3int, Ok::<char, MalformedLiteralView>(e)));
    assert(scan_char_body(cs, 3, seq![e], false) == (3int, Ok::<Seq<char>, MalformedLiteralView>(seq![e])));
    assert(scan_char_body(cs, 2, seq![], true) == scan_char_body(cs, 3, seq![e], false));
    assert(scan_char_body(cs, 1, seq![], false) == scan_char_body(cs, 2, seq![], true));
    assert(scan_char_literal(cs, 0).0 == 4);
    assert(lex_from(cs, 4, 1) == LexOutcome::Tokens(seq![]));
    assert(seq![TokenView::Literal { kind: LiteralKind::Char, value: seq![e] }] + Seq::<TokenView>::empty()
        =~= seq![TokenView::Literal { kind: LiteralKind::Char, value: seq![e] }]);
}

/// A string literal that holds one escape, `"\c"`, reads as the single
/// character that the escape stands for.
pub proof fn lemma_escaped_string_literal(c: char, e: char)
    requires
        simple_escape(c) == Some(e),
    ensures
        lex(seq!['"', '\\', c, '"']) == LexOutcome::Tokens(
            seq![TokenView::Literal { kind: LiteralKind::String, value: seq![e] }],
        ),
{
    let cs = seq!['"', '\\', c, '"'];
    assert(scan_escape(cs, 2) == (3int, Ok::<char, MalformedLiteralView>(e)));
    assert(scan_string_body(cs, 3, seq![e], false) == (3int, Ok::<Seq<char>, MalformedLiteralView>(seq![e])));
    assert(scan_string_body(cs, 2, seq![], true) == scan_string_body(cs, 3, seq![e], false));
    assert(scan_string_body(cs, 1, seq![], false) == scan_string_body(cs, 2, seq![], true));
    assert(scan_string_literal(cs, 0).0 == 4);
    assert(lex_from(cs, 4, 1) == LexOutcome::Tokens(seq![]));
    assert(seq![TokenView::Literal { kind: LiteralKind::String, value: seq![e] }] + Seq::<TokenView>::empty()
        =~= seq![TokenView::Literal { kind: LiteralKind::String, value: seq![e] }]);
}

/// A run of identifier characters reaches to the end of the input.
proof fn lemma_word_end_all(cs: Seq<char>, p: int)
    requires
        0 <= p <= cs.len(),
        forall|i: int| p <= i < cs.len() ==> is_ident_char(#[trigger] cs[i]),
    ensures
        word_end(cs, p) == cs.len(),
    decreases cs.len() - p,
{
    if p < cs.len() {
        lemma_word_end_all(cs, p + 1);
    }
}

/// A word on its own reads as the keyword it spells, if it is exactly the
/// spelling of one (but `const`), and otherwise as an identifier with the
/// whole word as its name: `function` is an identifier, not `func`.
pub proof fn lemma_word_reads_as_keyword_or_identifier(w: Seq<char>)
    requires
        w.len() > 0,
        is_ascii_letter(w[0]),
        forall|i: int| 0 <= i < w.len() ==> is_ident_char(#[trigger] w[i]),
    ensures
        lex(w) == LexOutcome::Tokens(seq![
            if exists|k: Keyword| k != Keyword::Const && w == #[trigger] keyword_spelling(k) {
                TokenView::Keyword(choose|k: Keyword| k != Keyword::Const && w == #[trigger] keyword_spelling(k))
            } else {
                TokenView::Identifier(w)
            },
        ]),
{
    lemma_word_end_all(w, 0);
    assert(w.subrange(0, w.len() as int) =~= w);
    assert(lex_from(w, w.len() as int, 1) == LexOutcome::Tokens(seq![]));
    assert(seq![word_token(w)] + Seq::<TokenView>::empty() =~= seq![word_token(w)]);
    if exists|k: Keyword| k != Keyword::Const && w == #[trigger] keyword_spelling(k) {
        let k = choose|k: Keyword| k != Keyword::Const && w == #[trigger] keyword_spelling(k);
        lemma_keyword_exact_spelling(w, k);
    } else {
        match keyword_of(w) {
            Some(k) => {
                lemma_keyword_exact_spelling(w, k);
            },
            None => {},
        }
    }
}

} // verus!
