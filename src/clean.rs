//! Cleaning raw log text into lines worth mining: a leading timestamp and
//! ANSI color codes are stripped, and lines left blank are dropped.

use vstd::prelude::*;
use crate::text::token_views;

verus! {

/// An optional leading timestamp, then the rest of the line as group 1.
pub const TIMESTAMP_PATTERN: &'static str = "(?:\\d{4}-\\d{2}-\\d{2}T\\d{2}:\\d{2}:\\d{2}.\\d{7}Z ?)?(.*)";

/// An ANSI color escape sequence.
pub const ANSI_COLOR_PATTERN: &'static str = "\\x1b?\\[(?:\\d+)?(?:;\\d+)*m";

/// The lines that `str::lines` yields for a text.
pub uninterp spec fn text_lines(s: Seq<char>) -> Seq<Seq<char>>;

/// What capture group 1 of the regular expression `pattern` holds in its
/// first match in `s`; `None` where the pattern does not compile, does not
/// match, or group 1 takes no part.
pub uninterp spec fn regex_group(pattern: Seq<char>, s: Seq<char>) -> Option<Seq<char>>;

/// `s` with every match of `pattern` replaced by `rep`; `None` where the
/// pattern does not compile.
pub uninterp spec fn regex_replaced(pattern: Seq<char>, s: Seq<char>, rep: Seq<char>) -> Option<Seq<char>>;

/// Whether `char::is_whitespace` holds of a character.
pub uninterp spec fn whitespace_char(c: char) -> bool;

/// Relies on `str::lines`: the text split at line endings, as owned strings.
#[verifier::external_body]
fn split_lines(s: &str) -> (r: Vec<String>)
    ensures
        token_views(r@) == text_lines(s@),
{
    s.lines().map(|l| l.to_string()).collect()
}

/// Relies on `regex::Regex::new`, `Regex::captures` and `Captures::get`:
/// the text of capture group 1 in the first match.
#[verifier::external_body]
fn first_group(pattern: &str, s: &str) -> (r: Option<String>)
    ensures
        match r {
            Some(g) => regex_group(pattern@, s@) == Some(g@),
            None => regex_group(pattern@, s@) is None,
        },
{
    match regex::Regex::new(pattern) {
        Ok(re) => re.captures(s).and_then(|c| c.get(1)).map(|m| m.as_str().to_string()),
        Err(_) => None,
    }
}

/// Relies on `regex::Regex::new` and `Regex::replace_all`: every match
/// replaced.
#[verifier::external_body]
fn replace_matches(pattern: &str, s: &str, rep: &str) -> (r: Option<String>)
    ensures
        match r {
            Some(t) => regex_replaced(pattern@, s@, rep@) == Some(t@),
            None => regex_replaced(pattern@, s@, rep@) is None,
        },
{
    match regex::Regex::new(pattern) {
        Ok(re) => Some(re.replace_all(s, rep).into_owned()),
        Err(_) => None,
    }
}

/// Relies on `char::is_whitespace`: the Unicode White_Space property.
#[verifier::external_body]
fn char_is_whitespace(c: char) -> (r: bool)
    ensures
        r == whitespace_char(c),
{
    c.is_whitespace()
}

/// A line is blank when all its characters are whitespace.
pub open spec fn blank(s: Seq<char>) -> bool {
    forall|i: int| 0 <= i < s.len() ==> whitespace_char(#[trigger] s[i])
}

/// A line without its leading timestamp and its color codes.
pub open spec fn cleaned(line: Seq<char>) -> Seq<char> {
    let content = match regex_group(TIMESTAMP_PATTERN@, line) {
        Some(c) => c,
        None => line,
    };
    match regex_replaced(ANSI_COLOR_PATTERN@, content, ""@) {
        Some(c) => c,
        None => content,
    }
}

/// The lines that are not blank, in order.
pub open spec fn non_blank(lines: Seq<Seq<char>>) -> Seq<Seq<char>> {
    lines.filter(|l: Seq<char>| !blank(l))
}

/// Whether every character of the line is whitespace.
pub fn is_blank(s: &str) -> (r: bool)
    ensures
        r == blank(s@),
{
    let mut all = true;
    for c in it: s.chars()
        invariant
            it.seq() == s@,
            all == (forall|i: int| 0 <= i < it.index() ==> whitespace_char(#[trigger] s@[i])),
    {
        if !char_is_whitespace(c) {
            all = false;
        }
    }
    all
}

/// A line without its leading timestamp and its ANSI color codes.
pub fn strip_line(line: &str) -> (r: String)
    ensures
        r@ == cleaned(line@),
{
    let content = match first_group(TIMESTAMP_PATTERN, line) {
        Some(c) => c,
        None => line.to_string(),
    };
    match replace_matches(ANSI_COLOR_PATTERN, content.as_str(), "") {
        Some(c) => c,
        None => content,
    }
}

/// The lines that are not blank, in order.
pub fn drop_blank(lines: Vec<String>) -> (r: Vec<String>)
    ensures
        token_views(r@) == non_blank(token_views(lines@)),
{
    let ghost lv = token_views(lines@);
    let mut out: Vec<String> = Vec::new();
    let mut i: usize = 0;
    while i < lines.len()
        invariant
            i <= lines.len(),
            lv == token_views(lines@),
            token_views(out@) == lv.take(i as int).filter(|l: Seq<char>| !blank(l)),
        decreases lines.len() - i,
    {
        proof {
            assert(lv.take(i as int + 1) =~= lv.take(i as int).push(lv[i as int]));
            lv.take(i as int).lemma_filter_push(lv[i as int], |l: Seq<char>| !blank(l));
            assert(lv[i as int] == lines@[i as int]@);
        }
        if !is_blank(lines[i].as_str()) {
            let ghost before = out@;
            out.push(lines[i].clone());
            assert(token_views(out@) =~= token_views(before).push(lines@[i as int]@));
        }
        i += 1;
    }
    assert(lv.take(lines.len() as int) =~= lv);
    out
}

/// The cleaned, non-blank lines of a log file's content.
pub fn parse_file(file_content: String) -> (r: Vec<String>)
    ensures
        token_views(r@) == non_blank(text_lines(file_content@).map_values(|l: Seq<char>| cleaned(l))),
{
    let raw = split_lines(file_content.as_str());
    let ghost rv = token_views(raw@);
    let mut stripped: Vec<String> = Vec::new();
    let mut i: usize = 0;
    while i < raw.len()
        invariant
            i <= raw.len(),
            rv == token_views(raw@),
            rv == text_lines(file_content@),
            stripped@.len() == i,
            forall|j: int| 0 <= j < i ==> #[trigger] stripped@[j]@ == cleaned(rv[j]),
        decreases raw.len() - i,
    {
        assert(rv[i as int] == raw@[i as int]@);
        stripped.push(strip_line(raw[i].as_str()));
        i += 1;
    }
    assert(token_views(stripped@) =~= rv.map_values(|l: Seq<char>| cleaned(l)));
    drop_blank(stripped)
}

} // verus!
