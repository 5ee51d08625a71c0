//! Regular expressions, by the `regex` crate.
use vstd::prelude::*;

verus! {

/// A compiled pattern of the `regex` crate.
#[verifier::external_type_specification]
#[verifier::external_body]
pub struct ExRegex(regex::Regex);

/// The `regex` crate's account of why a pattern does not compile.
#[verifier::external_type_specification]
#[verifier::external_body]
pub struct ExRegexError(regex::Error);

/// A text that stands for a compiled expression in what it matches: where
/// `Regex::new` made it, the pattern that it was made from.
pub uninterp spec fn regex_pattern(re: regex::Regex) -> Seq<char>;

/// Why `Regex::new` refuses a pattern, if it does: its syntax, or the size of the
/// compiled form, which is counted in bytes and so goes with the width of a word.
pub uninterp spec fn regex_failure(pattern: Seq<char>, word_bits: u32) -> Option<regex::Error>;

/// Whether a pattern matches somewhere in a text: `Regex::is_match`.
pub uninterp spec fn regex_matches(pattern: Seq<char>, text: Seq<char>) -> bool;

/// `Regex::new`: whether a pattern compiles, and the error if it does not, is
/// decided by the pattern; a compiled pattern keeps the text that it was made
/// from.
pub assume_specification[ regex::Regex::new ](re: &str) -> (r: Result<regex::Regex, regex::Error>)
    ensures
        match r {
            Ok(compiled) => regex_failure(re@, usize::BITS) is None && regex_pattern(compiled)
                == re@,
            Err(e) => regex_failure(re@, usize::BITS) == Some(e),
        },
;

/// `Regex::is_match`: the answer is decided by the pattern and the text.
pub assume_specification[ regex::Regex::is_match ](re: &regex::Regex, haystack: &str) -> (r: bool)
    ensures
        r == regex_matches(regex_pattern(*re), haystack@),
;

} // verus!
