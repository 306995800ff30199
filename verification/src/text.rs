//! Small helpers for building and inspecting strings and characters.
use vstd::prelude::*;

verus! {

/// Appends one character to a `String` (std's `String::push`).
/// Trusted: the new contents are the old contents followed by `c`.
#[verifier::external_body]
pub(crate) fn push_char(s: &mut String, c: char)
    ensures
        final(s)@ == old(s)@.push(c),
{
    s.push(c);
}

/// The characters of a string slice, in order.
pub(crate) fn str_chars(s: &str) -> (v: Vec<char>)
    ensures
        v@ == s@,
{
    let mut v: Vec<char> = Vec::new();
    for c in it: s.chars()
        invariant
            v@ == it.seq().take(it.index() as int),
    {
        v.push(c);
    }
    v
}

/// A `String` holding exactly the given characters.
pub(crate) fn string_from_chars(v: &Vec<char>) -> (s: String)
    ensures
        s@ == v@,
{
    let mut s = String::new();
    let mut i: usize = 0;
    while i < v.len()
        invariant
            i <= v.len(),
            s@ == v@.take(i as int),
        decreases v.len() - i,
    {
        push_char(&mut s, v[i]);
        i += 1;
        assert(s@ =~= v@.take(i as int));
    }
    assert(v@.take(v.len() as int) =~= v@);
    s
}

/// Whether the characters in `v` spell exactly the word `w`.
pub(crate) fn word_eq(v: &Vec<char>, w: &[char]) -> (b: bool)
    ensures
        b == (v@ == w@),
{
    if v.len() != w.len() {
        return false;
    }
    let mut i: usize = 0;
    while i < v.len()
        invariant
            v.len() == w.len(),
            i <= v.len(),
            forall|j: int| 0 <= j < i ==> v@[j] == w@[j],
        decreases v.len() - i,
    {
        if v[i] != w[i] {
            return false;
        }
        i += 1;
    }
    assert(v@ =~= w@);
    true
}

/// Whether `v` is the one-character word `a`.
pub(crate) fn word1(v: &Vec<char>, a: char) -> (b: bool)
    ensures
        b == (v@ == seq![a]),
{
    if v.len() == 1 && v[0] == a {
        assert(v@ =~= seq![a]);
        true
    } else {
        false
    }
}

/// Whether `v` is the two-character word `a` `b`.
pub(crate) fn word2(v: &Vec<char>, a: char, c: char) -> (b: bool)
    ensures
        b == (v@ == seq![a, c]),
{
    if v.len() == 2 && v[0] == a && v[1] == c {
        assert(v@ =~= seq![a, c]);
        true
    } else {
        false
    }
}

/// Whether a character is alphabetic or numeric in Unicode's sense, as
/// `char::is_alphanumeric` reports it.
pub uninterp spec fn char_is_alphanumeric(c: char) -> bool;

/// std's `char::is_whitespace`. Trusted: the result is the character's
/// Unicode `White_Space` property, which [`is_unicode_whitespace`] lists.
#[verifier::external_body]
pub(crate) fn is_whitespace(c: char) -> (b: bool)
    ensures
        b == is_unicode_whitespace(c),
{
    c.is_whitespace()
}

/// std's `char::is_alphanumeric`. Trusted: the result is named
/// `char_is_alphanumeric`; among ASCII characters exactly the letters and the
/// decimal digits are alphanumeric. Which other characters are is left to
/// the name.
#[verifier::external_body]
pub(crate) fn is_alphanumeric(c: char) -> (b: bool)
    ensures
        b == char_is_alphanumeric(c),
        (c as u32) < 128 ==> (b <==> (('a' <= c && c <= 'z') || ('A' <= c && c <= 'Z') || (
        '0' <= c && c <= '9'))),
{
    c.is_alphanumeric()
}

/// Whether a character has Unicode's `White_Space` property: tab, line
/// feed, vertical tab, form feed, carriage return, space, next line,
/// no-break space, ogham space mark, the spaces from en quad to hair space,
/// line separator, paragraph separator, narrow no-break space, medium
/// mathematical space and ideographic space.
pub open spec fn is_unicode_whitespace(c: char) -> bool {
    let n = c as u32;
    (0x09 <= n && n <= 0x0D) || n == 0x20 || n == 0x85 || n == 0xA0 || n == 0x1680 || (0x2000
        <= n && n <= 0x200A) || n == 0x2028 || n == 0x2029 || n == 0x202F || n == 0x205F || n
        == 0x3000
}

/// Whether a character is alphanumeric: among ASCII characters, the letters
/// and the decimal digits; beyond ASCII, those that Unicode counts as
/// alphabetic or numeric.
pub open spec fn is_unicode_alphanumeric(c: char) -> bool {
    if (c as u32) < 128 {
        ('a' <= c && c <= 'z') || ('A' <= c && c <= 'Z') || ('0' <= c && c <= '9')
    } else {
        char_is_alphanumeric(c)
    }
}

/// Whether a number is a Unicode scalar value, that is, the code of a `char`.
pub open spec fn is_scalar_value(n: nat) -> bool {
    n <= 0x10FFFF && !(0xD800 <= n && n <= 0xDFFF)
}

/// std's `char::from_u32`. Trusted: it returns the character with code `n`
/// when `n` is a Unicode scalar value, and `None` otherwise.
#[verifier::external_body]
pub(crate) fn char_from_u32(n: u32) -> (r: Option<char>)
    ensures
        r == (if is_scalar_value(n as nat) {
            Some(n as char)
        } else {
            None::<char>
        }),
{
    char::from_u32(n)
}

} // verus!
