//! Regular expressions, through the `regex` crate.

use vstd::prelude::*;

verus! {

#[verifier::external_type_specification]
#[verifier::external_body]
pub struct ExRegexError(regex::Error);

/// Whether `regex::Regex::new` accepts the pattern (it is valid and within the
/// default size limit).
pub uninterp spec fn regex_compiles(pattern: Seq<char>) -> bool;

/// Whether the regex compiled from the pattern matches somewhere in the text
/// (`regex::Regex::is_match`).
pub uninterp spec fn regex_matches(pattern: Seq<char>, text: Seq<char>) -> bool;

/// The leftmost-first match of the regex compiled from the pattern in the text
/// (`regex::Regex::find`): the byte offset where it starts and the characters
/// it matched.
pub uninterp spec fn regex_first_match(pattern: Seq<char>, text: Seq<char>) -> Option<(usize, Seq<char>)>;

/// Compiles `pattern` with `regex::Regex::new` and, when that succeeds, finds
/// its leftmost-first match in the text with `Regex::find`, taking the match's
/// start and matched text. The contract claims that the call fails exactly
/// when the pattern does not compile, and that the match otherwise is the
/// named one; which error value comes back is left unsaid.
#[verifier::external_body]
pub(crate) fn regex_find(pattern: &str, text: &str) -> (r: Result<Option<(usize, String)>, regex::Error>)
    ensures
        r is Ok <==> regex_compiles(pattern@),
        r matches Ok(found) ==> match found {
            Some((start, matched)) => regex_first_match(pattern@, text@) == Some((start, matched@)),
            None => regex_first_match(pattern@, text@) is None,
        },
{
    match regex::Regex::new(pattern) {
        Ok(re) => Ok(re.find(text).map(|m| (m.start(), m.as_str().to_owned()))),
        Err(err) => Err(err),
    }
}

/// Compiles `pattern` with `regex::Regex::new` and, when that succeeds, tests
/// the text with `Regex::is_match`. The contract claims that the call fails
/// exactly when the pattern does not compile, and that the answer otherwise is
/// the named match of the pattern on the text; which error value comes back is
/// left unsaid.
#[verifier::external_body]
pub(crate) fn regex_test(pattern: &str, text: &str) -> (r: Result<bool, regex::Error>)
    ensures
        r is Ok <==> regex_compiles(pattern@),
        r matches Ok(b) ==> b == regex_matches(pattern@, text@),
{
    match regex::Regex::new(pattern) {
        Ok(re) => Ok(re.is_match(text)),
        Err(err) => Err(err),
    }
}

/// The message of a regex error, as its `Display` writes it; nothing is
/// claimed of the text.
#[verifier::external_body]
pub(crate) fn regex_error_message(err: &regex::Error) -> String {
    format!("{}", err)
}

} // verus!
