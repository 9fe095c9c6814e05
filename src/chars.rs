use vstd::prelude::*;

verus! {

/// Whether `char::is_whitespace` holds of a character.
pub uninterp spec fn whitespace(c: char) -> bool;

/// Whether `char::is_alphabetic` holds of a character.
pub uninterp spec fn alphabetic(c: char) -> bool;

/// What `str::to_uppercase` makes of a text.
pub uninterp spec fn upper_of(s: Seq<char>) -> Seq<char>;

/// Relies on `char::is_whitespace`: a test of the character alone.
#[verifier::external_body]
pub(crate) fn is_whitespace(c: char) -> (r: bool)
    ensures
        r == whitespace(c),
{
    c.is_whitespace()
}

/// Relies on `char::is_alphabetic`: a test of the character alone.
#[verifier::external_body]
pub(crate) fn is_alphabetic(c: char) -> (r: bool)
    ensures
        r == alphabetic(c),
{
    c.is_alphabetic()
}

/// Relies on `str::to_uppercase`: the result depends on the text alone.
#[verifier::external_body]
pub(crate) fn to_upper(s: &str) -> (r: String)
    ensures
        r@ == upper_of(s@),
{
    s.to_uppercase()
}

/// Relies on `Iterator::collect` into a `String`: the characters in order.
#[verifier::external_body]
pub(crate) fn string_of(v: &Vec<char>) -> (r: String)
    ensures
        r@ == v@,
{
    v.iter().collect()
}

/// Relies on `Iterator::collect` over `str::chars`: the characters in order.
#[verifier::external_body]
pub(crate) fn chars_of(s: &str) -> (r: Vec<char>)
    ensures
        r@ == s@,
{
    s.chars().collect()
}

/// A decimal digit, `0` to `9`.
pub open spec fn is_digit_char(c: char) -> bool {
    '0' <= c && c <= '9'
}

/// The value of a decimal digit.
pub open spec fn digit_value(c: char) -> int {
    (c as u32) as int - ('0' as u32) as int
}

/// The character runs that the lexer scans.
#[derive(Clone, Copy, PartialEq, Eq, Debug)]
pub enum Run {
    /// Whitespace between lexemes.
    Blank,
    /// Decimal digits of an integer literal.
    Digits,
    /// Letters, digits and underscores after an identifier's first letter.
    Word,
    /// Anything up to a closing single quote.
    Quoted,
}

/// Whether a run of kind `k` takes character `c`.
pub open spec fn in_run(k: Run, c: char) -> bool {
    match k {
        Run::Blank => whitespace(c),
        Run::Digits => is_digit_char(c),
        Run::Word => alphabetic(c) || is_digit_char(c) || c == '_',
        Run::Quoted => c != '\'',
    }
}

/// Decides `in_run`.
pub fn run_accepts(k: Run, c: char) -> (r: bool)
    ensures
        r == in_run(k, c),
{
    match k {
        Run::Blank => is_whitespace(c),
        Run::Digits => '0' <= c && c <= '9',
        Run::Word => is_alphabetic(c) || ('0' <= c && c <= '9') || c == '_',
        Run::Quoted => c != '\'',
    }
}

/// The first position at or after `i` whose character a run of kind `k` does not take.
pub open spec fn scan_end(s: Seq<char>, k: Run, i: int) -> int
    decreases s.len() - i,
{
    if 0 <= i < s.len() && in_run(k, s[i]) {
        scan_end(s, k, i + 1)
    } else {
        i
    }
}

/// A run never ends before it starts, nor past the end of the text.
pub proof fn lemma_scan_end_bounds(s: Seq<char>, k: Run, i: int)
    requires
        0 <= i <= s.len(),
    ensures
        i <= scan_end(s, k, i) <= s.len(),
        forall|j: int| i <= j < scan_end(s, k, i) ==> in_run(k, #[trigger] s[j]),
        scan_end(s, k, i) < s.len() ==> !in_run(k, s[scan_end(s, k, i)]),
    decreases s.len() - i,
{
    if i < s.len() && in_run(k, s[i]) {
        lemma_scan_end_bounds(s, k, i + 1);
    }
}

} // verus!
