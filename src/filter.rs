//! Narrowing a list of application names by what the user types.

use fuzzy_matcher::skim::SkimMatcherV2;
use fuzzy_matcher::FuzzyMatcher;
use vstd::prelude::*;

verus! {

/// The score of `pattern` against `choice` under the skim fuzzy matcher with
/// its default settings, or `None` where it does not match.
pub uninterp spec fn skim_match(choice: Seq<char>, pattern: Seq<char>) -> Option<i64>;

/// The pattern has an ASCII capital letter.
pub open spec fn has_ascii_upper(s: Seq<char>) -> bool {
    exists|i: int| 0 <= i < s.len() && 'A' <= #[trigger] s[i] && s[i] <= 'Z'
}

/// The code of `c` with an ASCII capital taken to its small letter.
pub open spec fn ascii_lower_code(c: char) -> u32 {
    if 'A' <= c && c <= 'Z' {
        (c as u32 + 32) as u32
    } else {
        c as u32
    }
}

/// Two characters are equal, exactly or ignoring ASCII case.
pub open spec fn chars_equal(a: char, b: char, exact: bool) -> bool {
    if exact {
        a == b
    } else {
        ascii_lower_code(a) == ascii_lower_code(b)
    }
}

/// The characters of `pattern` occur in `choice` in order.
pub open spec fn in_order(choice: Seq<char>, pattern: Seq<char>, exact: bool) -> bool
    decreases choice.len(),
{
    if pattern.len() == 0 {
        true
    } else if choice.len() == 0 {
        false
    } else if chars_equal(choice[0], pattern[0], exact) {
        in_order(choice.drop_first(), pattern.drop_first(), exact)
    } else {
        in_order(choice.drop_first(), pattern, exact)
    }
}

/// The skim matcher with its default settings matches `pattern` against
/// `choice`: an empty pattern always; otherwise where its characters occur
/// in order, compared exactly when it has an ASCII capital and ignoring ASCII
/// case when it has none.
pub open spec fn skim_finds(choice: Seq<char>, pattern: Seq<char>) -> bool {
    in_order(choice, pattern, has_ascii_upper(pattern))
}

/// Relies on `fuzzy_matcher::skim::SkimMatcherV2::fuzzy_match`, with the
/// matcher's default settings: the score depends on the two strings alone,
/// and there is one exactly where the pattern's characters occur in order
/// (`fuzzy` and `util::cheap_matches`).
#[verifier::external_body]
fn skim_score(choice: &str, pattern: &str) -> (r: Option<i64>)
    ensures
        r == skim_match(choice@, pattern@),
        r is Some <==> skim_finds(choice@, pattern@),
{
    SkimMatcherV2::default().fuzzy_match(choice, pattern)
}

/// Whether a row is shown under the given score of the filter text: shown
/// where the text matched.
pub fn shown_for_score(score: Option<i64>) -> (r: bool)
    ensures
        r == score is Some,
{
    score.is_some()
}

/// Whether the application named `app_name` is shown under `filter_text`:
/// every name is shown under an empty filter, otherwise the names that the
/// text matches fuzzily.
pub fn name_matches_filter(app_name: &str, filter_text: &str) -> (r: bool)
    ensures
        r == (filter_text@.len() == 0 || skim_match(app_name@, filter_text@) is Some),
        r == (filter_text@.len() == 0 || skim_finds(app_name@, filter_text@)),
{
    if filter_text.is_empty() {
        return true;
    }
    shown_for_score(skim_score(app_name, filter_text))
}

} // verus!
