//! Regular-expression matching for the ignore and restore commands,
//! through the `regex` crate.
//!
//! A compiled pattern keeps the text it was compiled from, so contracts
//! can speak of `regex_match(pattern, text)` — a name for the crate's
//! matching relation, which depends on the pattern and the text alone.

use vstd::prelude::*;

verus! {

/// Whether `regex::Regex::new` accepts the pattern: a function of the
/// pattern text alone.
pub uninterp spec fn pattern_ok(pattern: Seq<char>) -> bool;

/// Whether the compiled pattern matches anywhere in the text: a
/// function of the pattern and the text alone.
pub uninterp spec fn regex_match(pattern: Seq<char>, text: Seq<char>) -> bool;

/// The compiled matcher of the `regex` crate, declared so it can sit
/// in a field; its inside stays opaque.
#[verifier::external_type_specification]
#[verifier::external_body]
pub struct ExRegex(regex::Regex);

/// A compiled pattern together with the text it came from. The fields
/// stay private so the two can never drift apart.
pub struct CompiledPattern {
    re: regex::Regex,
    pattern: String,
}

impl CompiledPattern {
    /// The text this matcher was compiled from.
    pub closed spec fn pattern_view(&self) -> Seq<char> {
        self.pattern@
    }

    /// Relies on regex::Regex::new: compilation succeeds or fails on
    /// the pattern text alone, and the compiled matcher is a function
    /// of it.
    #[verifier::external_body]
    pub fn compile(pattern: &str) -> (r: Option<CompiledPattern>)
        ensures
            r is Some <==> pattern_ok(pattern@),
            r matches Some(c) ==> c.pattern_view() == pattern@,
    {
        match regex::Regex::new(pattern) {
            Ok(re) => Some(CompiledPattern { re, pattern: pattern.to_owned() }),
            Err(_) => None,
        }
    }

    /// The pattern text, as given to `compile`.
    pub fn pattern_text(&self) -> (r: String)
        ensures
            r@ == self.pattern_view(),
    {
        self.pattern.clone()
    }

    /// Relies on regex::Regex::is_match: whether the pattern matches
    /// somewhere in the text depends on the pattern and text alone.
    #[verifier::external_body]
    pub fn is_match(&self, text: &str) -> (r: bool)
        ensures
            r == regex_match(self.pattern_view(), text@),
    {
        self.re.is_match(text)
    }
}

} // verus!
