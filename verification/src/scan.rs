//! Searching a text with the regular-expression engines.
//!
//! The engines are outside crates: what they find is named here and believed,
//! not proved. Everything that is done with an answer is verified, and starts
//! with a test that the reported match lies on whole characters of the text.

use crate::text::is_span;
use crate::text::spans;
use vstd::prelude::*;
use vstd::string::*;
use vstd::utf8::*;

verus! {

/// Why a search gave no answer.
#[derive(Clone, Copy, Debug, PartialEq, Eq, Structural)]
pub enum ScanError {
    /// The pattern is not a regular expression that the engine accepts.
    Pattern,
    /// The engine gave the search up.
    Search,
    /// The engine reported a match that does not fit the text.
    Range,
}

/// What protects URLs: `http` or `https`, `://`, and the characters that a
/// URL is written with.
pub const URL_PATTERN: &'static str = "https?://[A-Za-z0-9\\-._~:/?#\\[\\]@!$&'()*+,;=%]+";

/// What protects hashtags: `#`, then the tag, which runs up to the next white
/// space or `#`.
pub const HASHTAG_PATTERN: &'static str = "#([^\\s#]+)";

/// What protects emoji: a pictograph or a flag letter, with the modifiers,
/// joiners and further pictographs that follow it.
pub const EMOJI_PATTERN: &'static str =
    "(?:\\p{Extended_Pictographic}|\\p{Regional_Indicator})(?:[\\p{Emoji_Modifier}\\x{FE0F}\\x{200D}\\x{20E3}]|\\p{Extended_Pictographic}|\\p{Regional_Indicator})*";

/// Whether `fancy_regex::Regex::new` accepts `pattern`.
pub uninterp spec fn fancy_accepts(pattern: Seq<char>) -> bool;

/// What `fancy_regex::Regex::find` reports for `text`, with the regular
/// expression that `fancy_regex::Regex::new` makes of `pattern`: the byte
/// offsets at which the first match starts and ends.
pub uninterp spec fn fancy_find(pattern: Seq<char>, text: Seq<char>) -> Result<
    Option<(usize, usize)>,
    ScanError,
>;

/// What `regex::Regex::find` reports for `text`, with the regular expression
/// that `regex::Regex::new` makes of `pattern`: the byte offsets at which the
/// first match starts and ends.
pub uninterp spec fn regex_find(pattern: Seq<char>, text: Seq<char>) -> Result<
    Option<(usize, usize)>,
    ScanError,
>;

/// What `regex::Regex::captures` reports for `text`, with the regular
/// expression that `regex::Regex::new` makes of `pattern`: the byte offsets of
/// the first match, and those of its first capture group.
pub uninterp spec fn regex_captures(pattern: Seq<char>, text: Seq<char>) -> Result<
    Option<(Option<(usize, usize)>, Option<(usize, usize)>)>,
    ScanError,
>;

/// Calls `fancy_regex::Regex::new`.
///
/// Believed: the answer depends on the pattern alone.
#[verifier::external_body]
pub(crate) fn fancy_regex_accepts(pattern: &str) -> (accepted: bool)
    ensures
        accepted == fancy_accepts(pattern@),
{
    fancy_regex::Regex::new(pattern).is_ok()
}

/// Calls `fancy_regex::Regex::new` on the pattern and `fancy_regex::Regex::find`
/// on the text.
///
/// Believed: the answer depends on the pattern and the text alone. A pattern
/// that is refused gives `ScanError::Pattern`, a search that the engine gives
/// up gives `ScanError::Search`. Nothing is claimed of the offsets.
#[verifier::external_body]
pub(crate) fn fancy_regex_find(pattern: &str, text: &str) -> (found: Result<
    Option<(usize, usize)>,
    ScanError,
>)
    ensures
        found == fancy_find(pattern@, text@),
{
    match fancy_regex::Regex::new(pattern) {
        Err(_) => Err(ScanError::Pattern),
        Ok(regex) => match regex.find(text) {
            Err(_) => Err(ScanError::Search),
            Ok(None) => Ok(None),
            Ok(Some(found)) => Ok(Some((found.start(), found.end()))),
        },
    }
}

/// Calls `regex::Regex::new` on the pattern and `regex::Regex::find` on the
/// text.
///
/// Believed: the answer depends on the pattern and the text alone. A pattern
/// that is refused gives `ScanError::Pattern`. Nothing is claimed of the
/// offsets.
#[verifier::external_body]
pub(crate) fn plain_regex_find(pattern: &str, text: &str) -> (found: Result<
    Option<(usize, usize)>,
    ScanError,
>)
    ensures
        found == regex_find(pattern@, text@),
{
    match regex::Regex::new(pattern) {
        Err(_) => Err(ScanError::Pattern),
        Ok(regex) => match regex.find(text) {
            None => Ok(None),
            Some(found) => Ok(Some((found.start(), found.end()))),
        },
    }
}

/// Calls `regex::Regex::new` on the pattern and `regex::Regex::captures` on
/// the text, and reads the groups 0 and 1 with `regex::Captures::get`.
///
/// Believed: the answer depends on the pattern and the text alone. A pattern
/// that is refused gives `ScanError::Pattern`. Nothing is claimed of the
/// offsets.
#[verifier::external_body]
pub(crate) fn plain_regex_captures(pattern: &str, text: &str) -> (found: Result<
    Option<(Option<(usize, usize)>, Option<(usize, usize)>)>,
    ScanError,
>)
    ensures
        found == regex_captures(pattern@, text@),
{
    match regex::Regex::new(pattern) {
        Err(_) => Err(ScanError::Pattern),
        Ok(regex) => match regex.captures(text) {
            None => Ok(None),
            Some(groups) => Ok(Some((
                groups.get(0).map(|found| (found.start(), found.end())),
                groups.get(1).map(|found| (found.start(), found.end())),
            ))),
        },
    }
}

/// An engine's answer, with a match that does not lie on whole characters
/// of the text turned into `ScanError::Range`.
pub open spec fn fitting(text: Seq<char>, found: Result<Option<(usize, usize)>, ScanError>) -> Result<
    Option<(usize, usize)>,
    ScanError,
> {
    match found {
        Ok(Some((start, end))) => if is_span(text, start as int, end as int) {
            found
        } else {
            Err(ScanError::Range)
        },
        _ => found,
    }
}

/// The first match of a user's pattern in `text`.
pub open spec fn user_match(pattern: Seq<char>, text: Seq<char>) -> Result<
    Option<(usize, usize)>,
    ScanError,
> {
    fitting(text, fancy_find(pattern, text))
}

/// The first match of a built-in pattern in `text`.
pub open spec fn plain_match(pattern: Seq<char>, text: Seq<char>) -> Result<
    Option<(usize, usize)>,
    ScanError,
> {
    fitting(text, regex_find(pattern, text))
}

/// The first match of a built-in pattern whose first group is the match
/// without its first byte, a `#`.
pub open spec fn tagged_match(pattern: Seq<char>, text: Seq<char>) -> Result<
    Option<(usize, usize)>,
    ScanError,
> {
    match regex_captures(pattern, text) {
        Err(e) => Err(e),
        Ok(None) => Ok(None),
        Ok(Some((Some((start, end)), Some((from, to))))) => if from == start + 1 && to == end
            && is_span(text, start as int, end as int) && is_span(text, from as int, to as int)
            && encode_utf8(text)[start as int] == 0x23 {
            Ok(Some((start, end)))
        } else {
            Err(ScanError::Range)
        },
        Ok(Some(_)) => Err(ScanError::Range),
    }
}

/// Turns a match that does not lie on whole characters of the text into
/// `ScanError::Range`.
pub fn fit(text: &str, found: Result<Option<(usize, usize)>, ScanError>) -> (checked: Result<
    Option<(usize, usize)>,
    ScanError,
>)
    ensures
        checked == fitting(text@, found),
{
    match found {
        Ok(Some((start, end))) => if spans(text, start, end) {
            found
        } else {
            Err(ScanError::Range)
        },
        _ => found,
    }
}

/// Whether a user's pattern is a regular expression.
pub fn accepts(pattern: &str) -> (accepted: bool)
    ensures
        accepted == fancy_accepts(pattern@),
{
    fancy_regex_accepts(pattern)
}

/// Searches `text` for the first match of a user's pattern.
pub fn find_user(pattern: &str, text: &str) -> (found: Result<Option<(usize, usize)>, ScanError>)
    ensures
        found == user_match(pattern@, text@),
{
    fit(text, fancy_regex_find(pattern, text))
}

/// Searches `text` for the first match of a built-in pattern.
pub fn find_plain(pattern: &str, text: &str) -> (found: Result<Option<(usize, usize)>, ScanError>)
    ensures
        found == plain_match(pattern@, text@),
{
    fit(text, plain_regex_find(pattern, text))
}

/// Searches `text` for the first match of a built-in pattern that is a `#`
/// and then its first group.
pub fn find_tagged(pattern: &str, text: &str) -> (found: Result<Option<(usize, usize)>, ScanError>)
    ensures
        found == tagged_match(pattern@, text@),
{
    match plain_regex_captures(pattern, text) {
        Err(e) => Err(e),
        Ok(None) => Ok(None),
        Ok(Some((Some((start, end)), Some((from, to))))) => {
            if start < usize::MAX && from == start + 1 && to == end && spans(text, start, end)
                && spans(text, from, to) {
                let bytes = text.as_bytes();
                proof {
                    broadcast use group_utf8_lib;

                }
                if bytes[start] == 0x23 {
                    return Ok(Some((start, end)));
                }
            }
            Err(ScanError::Range)
        },
        Ok(Some(_)) => Err(ScanError::Range),
    }
}

} // verus!
