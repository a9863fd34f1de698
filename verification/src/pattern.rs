//! Regular-expression matching, through the `regex` crate.

use vstd::prelude::*;

verus! {

/// Whether `pattern` matches somewhere in `text`, as `regex::Regex` decides
/// it; `None` when `pattern` is not a valid expression.
pub uninterp spec fn regex_match_of(pattern: Seq<char>, text: Seq<char>) -> Option<bool>;

/// `regex::Regex::new(pattern)` then `Regex::is_match(text)`. The result is
/// the named value `regex_match_of(pattern, text)`; the regex semantics are
/// not restated here.
#[verifier::external_body]
pub(crate) fn regex_is_match(pattern: &str, text: &str) -> (r: Option<bool>)
    ensures
        r == regex_match_of(pattern@, text@),
{
    regex::Regex::new(pattern).ok().map(|re| re.is_match(text))
}

/// The text of capture group 1 in the leftmost match of `pattern` in `text`,
/// as `regex::Regex::captures` finds it: `None` when the pattern is invalid,
/// nothing matches, or group 1 did not take part in the match.
pub uninterp spec fn regex_group1_of(pattern: Seq<char>, text: Seq<char>) -> Option<Seq<char>>;

/// `regex::Regex::new(pattern)` then `Regex::captures(text)` and group 1.
/// The result is the named value `regex_group1_of(pattern, text)`.
#[verifier::external_body]
pub(crate) fn regex_group1(pattern: &str, text: &str) -> (r: Option<String>)
    ensures
        match r {
            Some(g) => regex_group1_of(pattern@, text@) == Some(g@),
            None => regex_group1_of(pattern@, text@) is None,
        },
{
    let re = regex::Regex::new(pattern).ok()?;
    re.captures(text)?.get(1).map(|m| m.as_str().to_string())
}

/// `text` with every match of `pattern` removed, as
/// `regex::Regex::replace_all(text, "")` computes it; `None` when the
/// pattern is invalid.
pub uninterp spec fn regex_removed_of(pattern: Seq<char>, text: Seq<char>) -> Option<Seq<char>>;

/// `regex::Regex::new(pattern)` then `Regex::replace_all(text, "")`. The
/// result is the named value `regex_removed_of(pattern, text)`.
#[verifier::external_body]
pub(crate) fn regex_remove_all(pattern: &str, text: &str) -> (r: Option<String>)
    ensures
        match r {
            Some(t) => regex_removed_of(pattern@, text@) == Some(t@),
            None => regex_removed_of(pattern@, text@) is None,
        },
{
    let re = regex::Regex::new(pattern).ok()?;
    Some(re.replace_all(text, "").into_owned())
}

/// The pieces of `text` between the matches of `pattern`, as
/// `regex::Regex::split` yields them; `None` when the pattern is invalid.
pub uninterp spec fn regex_split_of(pattern: Seq<char>, text: Seq<char>) -> Option<Seq<Seq<char>>>;

/// `regex::Regex::new(pattern)` then `Regex::split(text)`, each piece
/// copied into a `String`. The result is the named value
/// `regex_split_of(pattern, text)`.
#[verifier::external_body]
pub(crate) fn regex_split(pattern: &str, text: &str) -> (r: Option<Vec<String>>)
    ensures
        match r {
            Some(v) => regex_split_of(pattern@, text@) == Some(v@.map_values(|s: String| s@)),
            None => regex_split_of(pattern@, text@) is None,
        },
{
    let re = regex::Regex::new(pattern).ok()?;
    Some(re.split(text).map(|s| s.to_string()).collect())
}

/// The texts of capture groups 1 and 2 in the leftmost match of `pattern`
/// in `text`, as `regex::Regex::captures` finds them: `None` when the
/// pattern is invalid, nothing matches, or either group did not take part.
pub uninterp spec fn regex_groups2_of(pattern: Seq<char>, text: Seq<char>) -> Option<(Seq<char>, Seq<char>)>;

/// `regex::Regex::new(pattern)` then `Regex::captures(text)` and groups 1
/// and 2. The result is the named value `regex_groups2_of(pattern, text)`.
#[verifier::external_body]
pub(crate) fn regex_groups2(pattern: &str, text: &str) -> (r: Option<(String, String)>)
    ensures
        match r {
            Some(g) => regex_groups2_of(pattern@, text@) == Some((g.0@, g.1@)),
            None => regex_groups2_of(pattern@, text@) is None,
        },
{
    let re = regex::Regex::new(pattern).ok()?;
    let caps = re.captures(text)?;
    Some((caps.get(1)?.as_str().to_string(), caps.get(2)?.as_str().to_string()))
}

/// The texts of capture groups 1 to 4 in the leftmost match of `pattern`
/// in `text`, as `regex::Regex::captures` finds them: `None` when the
/// pattern is invalid, nothing matches, or a group did not take part.
pub uninterp spec fn regex_groups4_of(pattern: Seq<char>, text: Seq<char>) -> Option<
    (Seq<char>, Seq<char>, Seq<char>, Seq<char>),
>;

/// `regex::Regex::new(pattern)` then `Regex::captures(text)` and groups 1
/// to 4. The result is the named value `regex_groups4_of(pattern, text)`.
#[verifier::external_body]
pub(crate) fn regex_groups4(pattern: &str, text: &str) -> (r: Option<(String, String, String, String)>)
    ensures
        match r {
            Some(g) => regex_groups4_of(pattern@, text@) == Some((g.0@, g.1@, g.2@, g.3@)),
            None => regex_groups4_of(pattern@, text@) is None,
        },
{
    let re = regex::Regex::new(pattern).ok()?;
    let caps = re.captures(text)?;
    Some((
        caps.get(1)?.as_str().to_string(),
        caps.get(2)?.as_str().to_string(),
        caps.get(3)?.as_str().to_string(),
        caps.get(4)?.as_str().to_string(),
    ))
}

} // verus!
