//! Trusted boundary to the two string facilities the ranker leans on:
//! Unicode lowercasing from std and the skim fuzzy matcher from the
//! fuzzy-matcher crate. Only the items in this module are taken on trust;
//! everything that consumes their results is verified against the contracts
//! stated here.

use vstd::prelude::*;

use fuzzy_matcher::skim::SkimMatcherV2;
use fuzzy_matcher::FuzzyMatcher;

use crate::search_mode::SearchResult;
use crate::text::folding_of;
use crate::text::is_ascii_upper;
use crate::text::smart_subseq;

verus! {

/// The characters `str::to_lowercase` yields for `s`: a function of the
/// characters alone.
pub uninterp spec fn lower_of(s: Seq<char>) -> Seq<char>;

/// The score `SkimMatcherV2::default().fuzzy_match(choice, pattern)` yields,
/// `None` when the pattern cannot match: a function of the two character
/// sequences alone.
pub uninterp spec fn fuzzy_score(choice: Seq<char>, pattern: Seq<char>) -> Option<i64>;

/// The results whose name scores exactly `score` against `query`, in order.
pub open spec fn with_result_score(rs: Seq<SearchResult>, query: Seq<char>, score: i64) -> Seq<
    SearchResult,
> {
    rs.filter(|x: SearchResult| fuzzy_score(x.name@, query) == Some(score))
}

/// Relies on `str::to_lowercase`: the result depends on the characters
/// alone; an empty string stays empty; an ASCII string is folded character
/// by character, capitals to their small forms; and since every Unicode
/// lowercase mapping yields lowercase (or uncased) characters, the result
/// never holds an ASCII capital.
#[verifier::external_body]
pub(crate) fn lowercase(s: &str) -> (r: String)
    ensures
        r@ == lower_of(s@),
        s@.len() == 0 ==> r@.len() == 0,
        s.is_ascii() ==> folding_of(s@, r@),
        forall|i: int| 0 <= i < r@.len() ==> !is_ascii_upper(#[trigger] r@[i]),
{
    s.to_lowercase()
}

/// Relies on `FuzzyMatcher::fuzzy_match` of a `SkimMatcherV2`. The body
/// builds a fresh default matcher for every call: the type's thread-local
/// score-matrix caches make scores from a shared instance depend on earlier
/// calls, while a fresh instance makes the score a function of the two
/// strings alone — do not hoist the matcher out of this body. An empty
/// pattern scores zero. A score exists if and only if the pattern embeds in
/// order into the choice under smart case (`fuzzy` in the crate's source
/// decides case by `contains_upper`; `cheap_matches` is a greedy, complete
/// search for an embedding under `char_equal`, which compares exactly or by
/// `eq_ignore_ascii_case`, and once it succeeds a score is always
/// returned).
#[verifier::external_body]
pub(crate) fn skim_score(choice: &str, pattern: &str) -> (r: Option<i64>)
    ensures
        r == fuzzy_score(choice@, pattern@),
        pattern@.len() == 0 ==> r == Some(0i64),
        r is Some <==> smart_subseq(pattern@, choice@),
{
    SkimMatcherV2::default().fuzzy_match(choice, pattern)
}

} // verus!
