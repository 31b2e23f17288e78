//! Finding head-word tags in a line of dictionary text.
//!
//! The tags are located by the `regex` crate. What a pattern matches is not
//! restated here: the result of a search is taken as a function of the
//! pattern, the group asked for and the haystack, and only the shape of the
//! result is assumed.

use vstd::prelude::*;

verus! {

/// `regex::bytes::Regex`, a compiled expression. Nothing inside it is seen
/// here; it is made by `compile` and handed to `captures`.
#[verifier::external_type_specification]
#[verifier::external_body]
pub struct ExRegex(regex::bytes::Regex);

/// One match: where it starts, where it ends, and, if the group asked for
/// took part in it, where that group starts and ends. All are byte offsets
/// into the haystack.
pub type Span = (usize, usize, Option<(usize, usize)>);

/// Whether `regex::bytes::Regex::new` accepts `pattern`.
pub uninterp spec fn compiles(pattern: Seq<char>) -> bool;

/// The pattern from which `regex::bytes::Regex::new` made a compiled
/// expression.
pub uninterp spec fn pattern_of(re: regex::bytes::Regex) -> Seq<char>;

/// The matches of `pattern` that `regex::bytes::Regex::captures_iter`
/// yields on `haystack`, each with the span of the group named `group`.
pub uninterp spec fn captures_of(pattern: Seq<char>, group: Seq<char>, haystack: Seq<u8>) -> Seq<
    Span,
>;

/// Matches follow one another without overlap inside a text of `len` bytes,
/// and a group lies inside its match.
pub open spec fn in_order(spans: Seq<Span>, len: nat) -> bool {
    &&& forall|i: int| 0 <= i < spans.len() ==> (#[trigger] spans[i]).0 <= spans[i].1 <= len
    &&& forall|i: int|
        0 <= i < spans.len() ==> ((#[trigger] spans[i]).2 matches Some(g) ==> spans[i].0 <= g.0
            <= g.1 <= spans[i].1)
    &&& forall|i: int, j: int|
        0 <= i < j < spans.len() ==> (#[trigger] spans[i]).1 <= (#[trigger] spans[j]).0
}

/// Calls `regex::bytes::Regex::new`.
///
/// Assumed: whether a pattern compiles depends on the pattern alone, and a
/// compiled expression stands for the pattern it was made from.
#[verifier::external_body]
pub(crate) fn compile(pattern: &str) -> (r: Option<regex::bytes::Regex>)
    ensures
        r is Some <==> compiles(pattern@),
        r matches Some(re) ==> pattern_of(re) == pattern@,
{
    regex::bytes::Regex::new(pattern).ok()
}

/// Calls `regex::bytes::Regex::captures_iter` and, on each match, reads the
/// whole match and the group named `group`.
///
/// Assumed: the result depends on the pattern, the group name and the
/// haystack alone; matches come in the order in which they lie in the
/// haystack and do not overlap; a match lies inside the haystack and a group
/// inside its match.
#[verifier::external_body]
pub(crate) fn captures(re: &regex::bytes::Regex, group: &str, haystack: &[u8]) -> (r: Vec<Span>)
    ensures
        r@ == captures_of(pattern_of(*re), group@, haystack@),
        in_order(r@, haystack@.len()),
{
    re.captures_iter(haystack).map(
        |c| {
            let m = c.get_match();
            (m.start(), m.end(), c.name(group).map(|g| (g.start(), g.end())))
        },
    ).collect()
}

/// The pattern of a head-word tag: `<k>`, an optional entity reference that
/// is dropped, the head-word, `</k>`.
pub const TAG_PATTERN: &'static str = "<k>(&.+?;)?(?P<word>.+?)</k>";

/// The group of `TAG_PATTERN` that holds the head-word.
pub const WORD_GROUP: &'static str = "word";

} // verus!
