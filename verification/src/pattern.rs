//! Regular expressions over the names of functions and source files.

use vstd::prelude::*;
use regex::RegexBuilder;

verus! {

/// Whether `text` holds a match of the regular expression `pattern`, or
/// `None` where `pattern` is not a regular expression.
pub uninterp spec fn regex_matches(pattern: Seq<char>, text: Seq<char>) -> Option<bool>;

/// Whether `pattern` is a regular expression: it compiles, which is
/// decided before any text is looked at.
pub open spec fn pattern_compiles(pattern: Seq<char>) -> bool {
    regex_matches(pattern, Seq::empty()) is Some
}

/// `RegexBuilder::build`, then `Regex::is_match`: whether `text` holds a
/// match of `pattern`, or `None` where the pattern does not compile. The
/// limit on the size of a compiled pattern is lifted, so that its syntax
/// alone decides whether it compiles; the result is then a function of the
/// pattern and the text, which this item names and does not state. Since
/// the pattern is built before the text is read, whether a result comes
/// back at all does not depend on the text.
#[verifier::external_body]
pub(crate) fn pattern_matches(pattern: &str, text: &str) -> (matched: Option<bool>)
    ensures
        matched == regex_matches(pattern@, text@),
        matched is Some <==> pattern_compiles(pattern@),
{
    match RegexBuilder::new(pattern).size_limit(usize::MAX).build() {
        Ok(regex) => Some(regex.is_match(text)),
        Err(_) => None,
    }
}

} // verus!
