//! Splitting log lines into tokens, and telling numeric tokens apart.

use vstd::prelude::*;

verus! {

/// The tokens that `str::split_whitespace` yields for a line, as character
/// sequences, in order.
pub uninterp spec fn whitespace_tokens(line: Seq<char>) -> Seq<Seq<char>>;

/// Whether `char::is_numeric` holds of a character.
pub uninterp spec fn numeric_char(c: char) -> bool;

/// The character views of a vector of strings.
pub open spec fn token_views(v: Seq<String>) -> Seq<Seq<char>> {
    v.map_values(|s: String| s@)
}

/// A token holds a digit when one of its characters is numeric.
pub open spec fn holds_number(t: Seq<char>) -> bool {
    exists|i: int| 0 <= i < t.len() && numeric_char(#[trigger] t[i])
}

/// Relies on `char::is_numeric`: whether the character belongs to one of
/// Unicode's number categories, a function of the character alone.
#[verifier::external_body]
fn char_is_numeric(c: char) -> (r: bool)
    ensures
        r == numeric_char(c),
{
    c.is_numeric()
}

/// Relies on `str::split_whitespace`: the non-empty runs of non-whitespace
/// characters of the line, in order, as owned strings.
#[verifier::external_body]
fn split_whitespace_owned(line: &str) -> (r: Vec<String>)
    ensures
        token_views(r@) == whitespace_tokens(line@),
{
    line.split_whitespace().map(|s| s.to_string()).collect()
}

/// Whether the token has a numeric character.
pub fn has_number(s: &str) -> (r: bool)
    ensures
        r == holds_number(s@),
{
    let mut found = false;
    for c in it: s.chars()
        invariant
            it.seq() == s@,
            found == (exists|i: int| 0 <= i < it.index() && numeric_char(#[trigger] s@[i])),
    {
        if char_is_numeric(c) {
            found = true;
        }
    }
    found
}

/// Splits a line into its whitespace-separated tokens.
pub fn tokenize(log_message: &str) -> (r: Vec<String>)
    ensures
        token_views(r@) == whitespace_tokens(log_message@),
{
    split_whitespace_owned(log_message)
}

} // verus!
