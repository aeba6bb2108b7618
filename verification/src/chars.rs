//! Regex character classes used by the vault's reference grammar, and runs of them.

use vstd::prelude::*;

verus! {

/// The regex class `\w`: Unicode word characters (`Alphabetic`, `Join_Control`,
/// `Decimal_Number`, `Mark`, `Connector_Punctuation`).
pub uninterp spec fn unicode_word_char(c: char) -> bool;

/// The ASCII word characters `[0-9A-Za-z_]`.
pub open spec fn ascii_word(c: char) -> bool {
    ('0' <= c <= '9') || ('A' <= c <= 'Z') || ('a' <= c <= 'z') || c == '_'
}

/// The regex class `\d`: Unicode `Decimal_Number` characters.
pub uninterp spec fn unicode_decimal_digit(c: char) -> bool;

/// Calls `regex_syntax::try_is_word_character`, which decides the Unicode word class
/// that the regex `\w` matches; the contract claims only that the answer is that
/// class's membership (the crate's `unicode-perl` feature, on by default, makes the
/// call succeed). Among ASCII characters, exactly `[0-9A-Za-z_]` are word characters.
#[verifier::external_body]
fn word_char(c: char) -> (b: bool)
    ensures
        b == unicode_word_char(c),
        (c as u32) < 128 ==> (b == ascii_word(c)),
{
    match regex_syntax::try_is_word_character(c) {
        Ok(b) => b,
        Err(_) => false,
    }
}

/// Calls `regex::Regex::is_match` with the pattern `\A\d\z` on the one-character text
/// `c`; the contract claims that the answer is membership in the class `\d`, which among
/// ASCII characters holds exactly `0`..`9`.
#[verifier::external_body]
fn decimal_digit(c: char) -> (b: bool)
    ensures
        b == unicode_decimal_digit(c),
        (c as u32) < 128 ==> (b == ('0' <= c <= '9')),
{
    let mut buf = [0u8; 4];
    match regex::Regex::new("\\A\\d\\z") {
        Ok(re) => re.is_match(c.encode_utf8(&mut buf)),
        Err(_) => false,
    }
}

/// The character classes of the reference grammar.
#[derive(Debug, Clone, Copy, PartialEq, Eq)]
pub enum CharClass {
    /// `\w`
    Word,
    /// `\d`
    Digit,
    /// `[\w\-\.:]`: a relative reference's target
    Target,
    /// `[\w\-\.]`: a plain event reference
    EventId,
    /// `[\w\-]`: a project reference
    ProjectId,
}

pub open spec fn in_class(k: CharClass, c: char) -> bool {
    match k {
        CharClass::Word => unicode_word_char(c),
        CharClass::Digit => unicode_decimal_digit(c),
        CharClass::Target => unicode_word_char(c) || c == '-' || c == '.' || c == ':',
        CharClass::EventId => unicode_word_char(c) || c == '-' || c == '.',
        CharClass::ProjectId => unicode_word_char(c) || c == '-',
    }
}

/// Class membership among ASCII characters, where `\w` is `[0-9A-Za-z_]` and `\d` is
/// `[0-9]`.
pub open spec fn ascii_in_class(k: CharClass, c: char) -> bool {
    match k {
        CharClass::Word => ascii_word(c),
        CharClass::Digit => '0' <= c <= '9',
        CharClass::Target => ascii_word(c) || c == '-' || c == '.' || c == ':',
        CharClass::EventId => ascii_word(c) || c == '-' || c == '.',
        CharClass::ProjectId => ascii_word(c) || c == '-',
    }
}

pub fn class_has(k: CharClass, c: char) -> (b: bool)
    ensures
        b == in_class(k, c),
        (c as u32) < 128 ==> (b == ascii_in_class(k, c)),
{
    match k {
        CharClass::Word => word_char(c),
        CharClass::Digit => decimal_digit(c),
        CharClass::Target => c == '-' || c == '.' || c == ':' || word_char(c),
        CharClass::EventId => c == '-' || c == '.' || word_char(c),
        CharClass::ProjectId => c == '-' || word_char(c),
    }
}

/// The end of the longest run of class `k` in `t` that starts at `j`.
pub open spec fn run_end(t: Seq<char>, j: int, k: CharClass) -> int
    decreases t.len() - j,
{
    if 0 <= j < t.len() && in_class(k, t[j]) {
        run_end(t, j + 1, k)
    } else {
        j
    }
}

pub proof fn lemma_run_end_bounds(t: Seq<char>, j: int, k: CharClass)
    requires
        0 <= j <= t.len(),
    ensures
        j <= run_end(t, j, k) <= t.len(),
        forall|i: int| j <= i < run_end(t, j, k) ==> in_class(k, #[trigger] t[i]),
        run_end(t, j, k) < t.len() ==> !in_class(k, t[run_end(t, j, k)]),
    decreases t.len() - j,
{
    if j < t.len() && in_class(k, t[j]) {
        lemma_run_end_bounds(t, j + 1, k);
    }
}

pub fn run_end_of(t: &Vec<char>, j: usize, k: CharClass) -> (e: usize)
    requires
        j <= t.len(),
    ensures
        e == run_end(t@, j as int, k),
        j <= e <= t.len(),
{
    let mut e = j;
    while e < t.len() && class_has(k, t[e])
        invariant
            j <= e <= t.len(),
            run_end(t@, j as int, k) == run_end(t@, e as int, k),
        decreases t.len() - e,
    {
        e = e + 1;
    }
    proof {
        lemma_run_end_bounds(t@, j as int, k);
    }
    e
}

} // verus!
