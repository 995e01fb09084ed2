//! Regular expressions, by the `regex` crate.
//!
//! What a pattern accepts and matches is the crate's business; the library
//! names those results and never states them itself.
use vstd::prelude::*;

verus! {

#[verifier::external_type_specification]
#[verifier::external_body]
pub struct ExRegex(regex::Regex);

/// Whether `regex::Regex::new` accepts the pattern (it is valid and within
/// the default size limit).
pub uninterp spec fn regex_accepts(pattern: Seq<char>) -> bool;

/// Whether `regex::Regex::is_match` finds a match of the pattern in the text.
pub uninterp spec fn regex_finds(pattern: Seq<char>, text: Seq<char>) -> bool;

/// The capture groups of each successive match of the pattern in the text,
/// as `regex::Regex::captures_iter` yields them: for each match, the text of
/// each group in order (group 0 being the whole match), `None` for a group
/// that did not take part.
pub uninterp spec fn regex_groups(pattern: Seq<char>, text: Seq<char>) -> Seq<
    Seq<Option<Seq<char>>>,
>;

/// A compiled regular expression and the pattern it was compiled from.
pub struct Pattern {
    source: String,
    compiled: regex::Regex,
}

impl Pattern {
    /// The pattern text.
    pub closed spec fn source_view(&self) -> Seq<char> {
        self.source@
    }

    /// `regex::Regex::new`: `Some` exactly when the crate accepts the pattern.
    #[verifier::external_body]
    pub fn compile(source: &str) -> (r: Option<Pattern>)
        ensures
            r is Some <==> regex_accepts(source@),
            r matches Some(p) ==> p.source_view() == source@,
    {
        match regex::Regex::new(source) {
            Ok(compiled) => Some(Pattern { source: source.to_string(), compiled }),
            Err(_) => None,
        }
    }

    /// `regex::Regex::is_match`: whether the pattern matches somewhere in the text.
    #[verifier::external_body]
    pub fn is_match(&self, text: &str) -> (r: bool)
        ensures
            r == regex_finds(self.source_view(), text@),
    {
        self.compiled.is_match(text)
    }

    /// `regex::Regex::captures_iter`, each match given as its groups' texts.
    #[verifier::external_body]
    pub fn captures(&self, text: &str) -> (r: Vec<Vec<Option<String>>>)
        ensures
            r.deep_view() == regex_groups(self.source_view(), text@),
    {
        self.compiled
            .captures_iter(text)
            .map(|c| c.iter().map(|m| m.map(|m| m.as_str().to_string())).collect())
            .collect()
    }
}

} // verus!
