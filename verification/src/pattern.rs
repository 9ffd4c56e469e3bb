//! Whitespace-flexible pattern search, backed by the regex crate.
//!
//! The whitespace-normalized replacer builds a pattern from the search
//! string's tokens, each escaped, joined by a whitespace run, and takes the
//! first match of that pattern in a raw line. Both outside calls are named
//! here, so contracts elsewhere can speak of their results exactly.

use vstd::prelude::*;

use crate::text::occurs_in;

verus! {

/// What `regex::escape` returns for the given characters.
pub uninterp spec fn regex_escaped(s: Seq<char>) -> Seq<char>;

/// What the first match of the given pattern is in the given haystack:
/// `None` when the pattern does not compile or does not match.
pub uninterp spec fn regex_first_match(pattern: Seq<char>, hay: Seq<char>) -> Option<Seq<char>>;

/// Relies on `regex::escape`: escapes every regular-expression metacharacter;
/// the result is a pure function of the input characters.
#[verifier::external_body]
pub(crate) fn escape_pattern(s: &str) -> (r: String)
    ensures
        r@ == regex_escaped(s@),
{
    regex::escape(s)
}

/// Relies on `regex::Regex::new` and `regex::Regex::find`: the first match of
/// the pattern in `hay`, if the pattern compiles and matches. The matched
/// text is a substring of the haystack (`Match::as_str` returns the matched
/// range of the haystack), and the result depends on the pattern and the
/// haystack alone.
#[verifier::external_body]
pub(crate) fn find_pattern(pattern: &str, hay: &str) -> (r: Option<String>)
    ensures
        match r {
            Some(m) => regex_first_match(pattern@, hay@) == Some(m@) && occurs_in(hay@, m@),
            None => regex_first_match(pattern@, hay@) is None,
        },
{
    match regex::Regex::new(pattern) {
        Ok(re) => re.find(hay).map(|m| m.as_str().to_string()),
        Err(_) => None,
    }
}

} // verus!
