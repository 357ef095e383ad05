//! Regular-expression queries, answered by the `regex` crate.

use vstd::prelude::*;

verus! {

/// The text of capture group `group` in the leftmost-first match of the
/// regular expression `pattern` in `haystack`, as `regex::Regex::captures`
/// finds it; `None` when nothing matches, the group took no part in the
/// match, or `pattern` is not a valid expression.
pub uninterp spec fn regex_group(pattern: Seq<char>, haystack: Seq<char>, group: nat) -> Option<
    Seq<char>,
>;

/// Whether the regular expression `pattern` matches somewhere in
/// `haystack`, as `regex::Regex::is_match` decides (false for an invalid
/// expression).
pub uninterp spec fn regex_is_match(pattern: Seq<char>, haystack: Seq<char>) -> bool;

/// The view of an optional string.
pub open spec fn opt_view(o: Option<String>) -> Option<Seq<char>> {
    match o {
        Some(s) => Some(s@),
        None => None,
    }
}

/// Compiles `pattern` with `regex::Regex::new` and returns the text of
/// capture group `group` of `Regex::captures` on `haystack`. Trusted: the
/// result is what `regex` computes, named `regex_group`; nothing more is
/// claimed of it.
#[verifier::external_body]
pub(crate) fn capture_group(pattern: &str, haystack: &str, group: usize) -> (res: Option<String>)
    ensures
        opt_view(res) == regex_group(pattern@, haystack@, group as nat),
{
    let re = match regex::Regex::new(pattern) {
        Ok(re) => re,
        Err(_) => return None,
    };
    let captures = re.captures(haystack)?;
    let matched = captures.get(group)?;
    Some(matched.as_str().to_owned())
}

/// Compiles `pattern` with `regex::Regex::new` and asks `Regex::is_match`
/// on `haystack`. Trusted: the answer is what `regex` computes, named
/// `regex_is_match`.
#[verifier::external_body]
pub(crate) fn is_match(pattern: &str, haystack: &str) -> (res: bool)
    ensures
        res == regex_is_match(pattern@, haystack@),
{
    match regex::Regex::new(pattern) {
        Ok(re) => re.is_match(haystack),
        Err(_) => false,
    }
}

} // verus!
