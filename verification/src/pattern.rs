//! Text tests applied to decoded strings: substring search and compiled
//! regular expressions.

use vstd::prelude::*;

verus! {

/// `regex::Regex`, a compiled expression. Nothing is known of it but what
/// `regex_source` and `regex_accepts` name.
#[verifier::external_type_specification]
#[verifier::external_body]
pub struct ExRegex(regex::Regex);

/// `regex::Error`, carried through without a look inside.
#[verifier::external_type_specification]
#[verifier::external_body]
pub struct ExRegexError(regex::Error);

/// The pattern text that a compiled expression holds: the text it was
/// built from, which `regex::Regex::as_str` gives back.
pub uninterp spec fn regex_source(re: regex::Regex) -> Seq<char>;

/// Whether a compiled expression finds a match anywhere in `text`: the answer
/// of `regex::Regex::is_match`.
pub uninterp spec fn regex_accepts(re: regex::Regex, text: Seq<char>) -> bool;

/// `needle` occurs in `hay` as a contiguous run of characters.
pub open spec fn is_substring(needle: Seq<char>, hay: Seq<char>) -> bool {
    exists|i: int|
        0 <= i && i + needle.len() <= hay.len() && #[trigger] hay.subrange(
            i,
            i + needle.len(),
        ) == needle
}

/// Calls `regex::Regex::new`. Not proved: that an expression which compiles
/// keeps `pattern` as its source text. Nothing is claimed about which
/// patterns compile.
#[verifier::external_body]
pub(crate) fn compile_pattern(pattern: &str) -> (r: Result<regex::Regex, regex::Error>)
    ensures
        r matches Ok(re) ==> regex_source(re) == pattern@,
{
    regex::Regex::new(pattern)
}

/// Calls `regex::Regex::is_match`. Not proved: that the answer depends on
/// the expression and the text alone, which is what giving it a name claims.
#[verifier::external_body]
pub(crate) fn pattern_is_match(re: &regex::Regex, text: &str) -> (r: bool)
    ensures
        r == regex_accepts(*re, text@),
{
    re.is_match(text)
}

/// Calls `str::contains` with a string pattern. Not proved: that it answers
/// whether `needle` occurs in `hay` as a contiguous run of characters.
#[verifier::external_body]
pub(crate) fn str_contains(hay: &str, needle: &str) -> (r: bool)
    ensures
        r == is_substring(needle@, hay@),
{
    hay.contains(needle)
}

} // verus!
