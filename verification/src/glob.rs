//! Glob matching, by `globset`.
//!
//! `globset` treats a backslash differently on Windows (a separator, not an
//! escape), so what a pattern means is only stated for patterns and
//! candidates without one.

use vstd::prelude::*;

use crate::text::concat;

verus! {

/// Whether `globset::Glob::new` accepts `pattern`.
pub uninterp spec fn glob_compiles(pattern: Seq<char>) -> bool;

/// Whether a one-pattern `globset::GlobSet` built from `pattern` (by
/// `GlobSetBuilder::build`, which also compiles the pattern's regular
/// expression) exists and matches the path `candidate`, per
/// `GlobSet::is_match`.
pub uninterp spec fn glob_match(pattern: Seq<char>, candidate: Seq<char>) -> bool;

/// The error `globset::Glob::new` reports for `pattern`, as text, or `None`
/// when the pattern compiles. What the text says is not stated.
#[verifier::external_body]
pub(crate) fn glob_error(pattern: &str) -> (r: Option<String>)
    ensures
        !pattern@.contains('\\') ==> (r is None <==> glob_compiles(pattern@)),
{
    match globset::Glob::new(pattern) {
        Ok(_) => None,
        Err(error) => Some(error.to_string()),
    }
}

/// Whether `pattern` compiles and a `GlobSet` of it alone matches
/// `candidate`. The set is built with `GlobSetBuilder::build`, which returns
/// an error (answered here as no match) where the pattern's regular
/// expression cannot be built, rather than panicking as
/// `Glob::compile_matcher` does.
#[verifier::external_body]
pub(crate) fn glob_matches(pattern: &str, candidate: &str) -> (r: bool)
    ensures
        !pattern@.contains('\\') && !candidate@.contains('\\') ==> r == (glob_compiles(pattern@)
            && glob_match(pattern@, candidate@)),
{
    match globset::Glob::new(pattern) {
        Ok(glob) => match globset::GlobSetBuilder::new().add(glob).build() {
            Ok(set) => set.is_match(candidate),
            Err(_) => false,
        },
        Err(_) => false,
    }
}

/// What `glob_matches` answers, where it is stated.
pub open spec fn glob_hit(pattern: Seq<char>, candidate: Seq<char>) -> bool {
    glob_compiles(pattern) && glob_match(pattern, candidate)
}

/// No entry holds a backslash.
pub open spec fn all_plain(items: Seq<Seq<char>>) -> bool {
    forall|i: int| 0 <= i < items.len() ==> !(#[trigger] items[i]).contains('\\')
}

/// Every pattern compiles.
pub open spec fn all_compile(patterns: Seq<Seq<char>>) -> bool {
    forall|i: int| 0 <= i < patterns.len() ==> glob_compiles(#[trigger] patterns[i])
}

/// Some pattern of the set matches `candidate`, as a `GlobSet` built from
/// them answers.
pub open spec fn any_hit(patterns: Seq<Seq<char>>, candidate: Seq<char>) -> bool {
    exists|i: int| 0 <= i < patterns.len() && glob_hit(#[trigger] patterns[i], candidate)
}

/// Whether any of `patterns` matches `candidate`.
pub fn matches_any(patterns: &[String], candidate: &str) -> (b: bool)
    ensures
        all_plain(crate::text::views(patterns@)) && !candidate@.contains('\\') ==> b == any_hit(
            crate::text::views(patterns@),
            candidate@,
        ),
{
    let ghost ps = crate::text::views(patterns@);
    let mut i: usize = 0;
    while i < patterns.len()
        invariant
            i <= patterns@.len(),
            ps == crate::text::views(patterns@),
            all_plain(ps) && !candidate@.contains('\\') ==> forall|j: int| 0 <= j < i ==> !glob_hit(#[trigger] ps[j], candidate@),
        decreases patterns@.len() - i,
    {
        proof {
            assert(ps[i as int] == patterns@[i as int]@);
        }
        if glob_matches(patterns[i].as_str(), candidate) {
            proof {
                if all_plain(ps) && !candidate@.contains('\\') {
                    assert(glob_hit(ps[i as int], candidate@));
                }
            }
            return true;
        }
        i = i + 1;
    }
    false
}

/// The first pattern that does not compile, described, or `None` when all
/// of them do.
pub fn first_error(patterns: &[String]) -> (r: Option<String>)
    ensures
        all_plain(crate::text::views(patterns@)) ==> (r is None <==> all_compile(crate::text::views(patterns@))),
{
    let ghost ps = crate::text::views(patterns@);
    let mut i: usize = 0;
    while i < patterns.len()
        invariant
            i <= patterns@.len(),
            ps == crate::text::views(patterns@),
            all_plain(ps) ==> forall|j: int| 0 <= j < i ==> glob_compiles(#[trigger] ps[j]),
        decreases patterns@.len() - i,
    {
        proof {
            assert(ps[i as int] == patterns@[i as int]@);
        }
        match glob_error(patterns[i].as_str()) {
            Some(error) => {
                let mut message = concat("invalid pattern \"", patterns[i].as_str());
                message.append("\": ");
                message.append(error.as_str());
                return Some(message);
            },
            None => {},
        }
        i = i + 1;
    }
    None
}

} // verus!
