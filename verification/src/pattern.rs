//! Pattern matching on names, through the `regex` crate.
//!
//! A session in pattern mode compiles the typed input once per change and
//! then asks, per item, whether the pattern matches anywhere in the name.

use vstd::prelude::*;

verus! {

#[verifier::external_type_specification]
#[verifier::external_body]
pub struct ExRegex(regex::Regex);

/// Whether the `regex` crate, with its default settings, accepts `pat` as
/// a pattern; a function of the pattern alone.
pub uninterp spec fn regex_ok(pat: Seq<char>) -> bool;

/// Whether the pattern `pat` matches anywhere in `text`; a function of the
/// pattern source and the text alone.
pub uninterp spec fn regex_match(pat: Seq<char>, text: Seq<char>) -> bool;

/// A compiled pattern, kept beside the source it was compiled from.
pub struct Matcher {
    src: String,
    re: regex::Regex,
}

impl View for Matcher {
    type V = Seq<char>;

    closed spec fn view(&self) -> Seq<char> {
        self.src@
    }
}

impl Matcher {
    /// Relies on `regex::Regex::new`: whether a pattern compiles depends on
    /// the pattern text alone.  Both fields are set here and nowhere else,
    /// so `re` is always the automaton built from `src`.
    #[verifier::external_body]
    pub(crate) fn compile(pat: &str) -> (r: Option<Matcher>)
        ensures
            r is Some <==> regex_ok(pat@),
            r matches Some(m) ==> m@ == pat@,
    {
        match regex::Regex::new(pat) {
            Ok(re) => Some(Matcher { src: pat.to_owned(), re }),
            Err(_) => None,
        }
    }

    /// Relies on `regex::Regex::is_match`: whether a pattern matches
    /// somewhere in a text depends on the pattern source and the text
    /// alone.  `self.re` is the automaton `compile` built from `self.src`.
    #[verifier::external_body]
    pub(crate) fn is_match(&self, text: &str) -> (r: bool)
        ensures
            r == regex_match(self@, text@),
    {
        self.re.is_match(text)
    }
}

} // verus!
