//! Shell-style glob patterns.
use crate::error::BundleError;
use vstd::prelude::*;

verus! {

/// Why `pattern` is no glob pattern; `None` for a pattern.
pub uninterp spec fn glob_complaint(pattern: Seq<char>) -> Option<Seq<char>>;

/// Whether the glob pattern `pattern` matches all of `s`.
pub uninterp spec fn glob_matches(pattern: Seq<char>, s: Seq<char>) -> bool;

/// Checks the syntax of a pattern, by `glob::Pattern::new`.
///
/// Trusted: whether the text is a pattern, and the wording of the error where
/// it is none, depend on the text alone, where `/` is the only separator of
/// paths; on Windows the crate takes a backslash for one as well. Which texts are
/// patterns is left to the crate.
#[verifier::external_body]
fn check_glob(pattern: &str) -> (r: Result<(), String>)
    ensures
        glob_complaint(pattern@) == (match r {
            Ok(_) => None,
            Err(e) => Some(e@),
        }),
{
    glob::Pattern::new(pattern).map(|_| ()).map_err(|e| e.to_string())
}

/// Matches a text against a pattern, by `glob::Pattern::matches`.
///
/// Trusted: the answer depends on the pattern's text and on `s` alone, where `/`
/// is the only separator of paths; on Windows the crate takes a backslash for
/// one as well. What a pattern means is left to the crate. The conversion of the
/// text panics on a text that is no pattern, which `requires` leaves out.
#[verifier::external_body]
fn match_glob(pattern: &str, s: &str) -> (r: bool)
    requires
        glob_complaint(pattern@) is None,
    ensures
        r == glob_matches(pattern@, s@),
{
    glob::Pattern::new(pattern).unwrap().matches(s)
}

/// A glob pattern whose syntax was checked.
#[derive(Debug)]
pub struct Pattern {
    text: String,
}

impl View for Pattern {
    type V = Seq<char>;

    closed spec fn view(&self) -> Seq<char> {
        self.text@
    }
}

impl Pattern {
    #[verifier::type_invariant]
    closed spec fn checked(self) -> bool {
        glob_complaint(self.text@) is None
    }

    /// A pattern from its text; an error where the text is no pattern.
    pub fn new(text: &str) -> (r: Result<Self, BundleError>)
        ensures
            match r {
                Ok(p) => glob_complaint(text@) is None && p@ == text@,
                Err(e) => glob_complaint(text@) is Some && e@ == crate::error::single(
                    glob_complaint(text@)->0,
                ),
            },
    {
        match check_glob(text) {
            Ok(_) => Ok(Pattern { text: text.to_owned() }),
            Err(e) => Err(BundleError::new(e)),
        }
    }

    /// The text of the pattern.
    pub fn as_str(&self) -> (r: &str)
        ensures
            r@ == self@,
    {
        self.text.as_str()
    }

    /// Whether the pattern matches all of `s`.
    pub fn matches(&self, s: &str) -> (r: bool)
        ensures
            r == glob_matches(self@, s@),
    {
        proof {
            use_type_invariant(self);
        }
        match_glob(self.text.as_str(), s)
    }
}

impl Clone for Pattern {
    fn clone(&self) -> (r: Self)
        ensures
            r@ == self@,
    {
        proof {
            use_type_invariant(self);
        }
        Pattern { text: self.text.clone() }
    }
}

/// Some pattern of the list matches `s`.
pub open spec fn any_matches(patterns: Seq<Pattern>, s: Seq<char>) -> bool {
    exists|i: int| 0 <= i < patterns.len() && glob_matches(#[trigger] patterns[i]@, s)
}

/// The list selects `s`: an empty list selects everything.
pub open spec fn selects(patterns: Seq<Pattern>, s: Seq<char>) -> bool {
    patterns.len() == 0 || any_matches(patterns, s)
}

/// Whether a list of patterns with these verdicts selects: some pattern
/// matches, or there are none.
pub open spec fn verdict(verdicts: Seq<bool>) -> bool {
    verdicts.len() == 0 || verdicts.contains(true)
}

/// Whether a list of patterns with these verdicts selects.
pub fn decide(verdicts: &Vec<bool>) -> (r: bool)
    ensures
        r == verdict(verdicts@),
{
    if verdicts.len() == 0 {
        return true;
    }
    let mut i: usize = 0;
    while i < verdicts.len()
        invariant
            i <= verdicts.len(),
            forall|j: int| 0 <= j < i ==> !#[trigger] verdicts@[j],
        decreases verdicts.len() - i,
    {
        if verdicts[i] {
            assert(verdicts@[i as int] == true);
            return true;
        }
        i = i + 1;
    }
    false
}

/// Whether a list of patterns selects `s`. No patterns select everything.
pub fn matches_patterns(patterns: &[Pattern], s: &str) -> (r: bool)
    ensures
        r == selects(patterns@, s@),
{
    let mut verdicts: Vec<bool> = Vec::new();
    let mut i: usize = 0;
    while i < patterns.len()
        invariant
            i <= patterns.len(),
            verdicts.len() == i,
            forall|j: int|
                0 <= j < i ==> #[trigger] verdicts@[j] == glob_matches(patterns@[j]@, s@),
        decreases patterns.len() - i,
    {
        verdicts.push(patterns[i].matches(s));
        i = i + 1;
    }
    proof {
        if verdicts@.contains(true) {
            let j = choose|j: int| 0 <= j < verdicts@.len() && verdicts@[j] == true;
            assert(glob_matches(patterns@[j]@, s@));
        }
        if any_matches(patterns@, s@) {
            let j = choose|j: int|
                0 <= j < patterns@.len() && glob_matches(#[trigger] patterns@[j]@, s@);
            assert(verdicts@[j] == true);
        }
    }
    decide(&verdicts)
}

/// The list selects an optional text: only an empty list selects a missing
/// one.
pub open spec fn selects_optional(patterns: Seq<Pattern>, s: Option<Seq<char>>) -> bool {
    patterns.len() == 0 || (s matches Some(t) && any_matches(patterns, t))
}

} // verus!
