//! The regular-expression engine behind the include scanner.

use vstd::prelude::*;
use vstd::string::*;

verus! {

/// The capture groups of the first match of `pattern` in `haystack` that
/// starts at byte offset `start` or later: one entry per group of the
/// pattern, the whole match first, each the byte offsets of what the group
/// matched, or `None` for a group that took no part. `None` where nothing
/// matches or the pattern does not compile.
pub uninterp spec fn regex_captures(pattern: Seq<char>, haystack: Seq<char>, start: int) -> Option<Seq<Option<(usize, usize)>>>;

/// Compiles `pattern` with `regex_lite::Regex::new`, searches `haystack`
/// from `start` on with `Regex::captures_at`, and reads the offsets of
/// every group off the match with `Captures::get`.
///
/// Trusted: the result is the one named by [`regex_captures`], that is,
/// the same pattern, text and offset give the same groups. Nothing is
/// claimed of what the groups are; the scanner tests all it relies on.
/// `captures_at` panics for an offset behind the end of the text.
#[verifier::external_body]
pub(crate) fn captures_at(pattern: &str, haystack: &str, start: usize) -> (r: Option<Vec<Option<(usize, usize)>>>)
    requires
        start <= haystack.spec_bytes().len(),
    ensures
        match r {
            Some(groups) => regex_captures(pattern@, haystack@, start as int) == Some(groups@),
            None => regex_captures(pattern@, haystack@, start as int) is None,
        },
{
    let regex = regex_lite::Regex::new(pattern).ok()?;
    let found = regex.captures_at(haystack, start)?;
    Some((0..found.len()).map(|i| found.get(i).map(|m| (m.start(), m.end()))).collect())
}

} // verus!
