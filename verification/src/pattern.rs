//! Regular expressions of the `regex` crate.

use vstd::prelude::*;

verus! {

/// A compiled regular expression of the `regex` crate.
#[verifier::external_type_specification]
#[verifier::external_body]
pub struct ExRegex(regex::Regex);

/// The pattern that a regular expression was compiled from, as `Regex::as_str`
/// returns it.
pub uninterp spec fn regex_source(re: regex::Regex) -> Seq<char>;

/// What `Regex::new` says of a pattern: nothing where it compiles, else the text
/// of the error.
pub uninterp spec fn regex_error(pattern: Seq<char>) -> Option<Seq<char>>;

/// What `Regex::is_match` returns for the expression that `Regex::new` makes of that
/// pattern: whether it matches anywhere in the text.
pub uninterp spec fn regex_finds(pattern: Seq<char>, text: Seq<char>) -> bool;

/// A pattern with the expression that `Regex::new` made of it. The field is private
/// and nothing but [`compile`] fills it, so no expression gets in that was built with
/// other settings, such as one that ignores case.
#[derive(Debug)]
pub struct Pattern {
    re: regex::Regex,
}

impl View for Pattern {
    type V = Seq<char>;

    /// The text of the pattern.
    closed spec fn view(&self) -> Seq<char> {
        regex_source(self.re)
    }
}

/// `regex::Regex::new` compiles a pattern, and keeps the pattern's text; or it
/// refuses the pattern with an error, of which the text is handed on.
#[verifier::external_body]
fn compile(pattern: &str) -> (r: Result<Pattern, String>)
    ensures
        match r {
            Ok(p) => regex_error(pattern@) is None && p@ == pattern@,
            Err(m) => regex_error(pattern@) == Some(m@),
        },
{
    regex::Regex::new(pattern).map(|re| Pattern { re }).map_err(|e| e.to_string())
}

/// `regex::Regex::is_match` tells whether the expression that `Regex::new` made of the
/// pattern matches anywhere in the text.
#[verifier::external_body]
fn finds(pattern: &Pattern, text: &str) -> (r: bool)
    ensures
        r == regex_finds(pattern@, text@),
{
    pattern.re.is_match(text)
}

/// `regex::Regex::as_str` gives the pattern that the expression was compiled from.
#[verifier::external_body]
fn source(re: &regex::Regex) -> (r: &str)
    ensures
        r@ == regex_source(*re),
{
    re.as_str()
}

impl Pattern {
    /// Compiles a pattern, or hands on the text of the error.
    pub fn new(pattern: &str) -> (r: Result<Pattern, String>)
        ensures
            match r {
                Ok(p) => regex_error(pattern@) is None && p@ == pattern@,
                Err(m) => regex_error(pattern@) == Some(m@),
            },
    {
        compile(pattern)
    }

    /// Does the pattern match anywhere in the text?
    pub fn is_match(&self, text: &str) -> (r: bool)
        ensures
            r == regex_finds(self@, text@),
    {
        finds(self, text)
    }

    /// The text of the pattern.
    pub fn as_str(&self) -> (r: &str)
        ensures
            r@ == self@,
    {
        source(&self.re)
    }
}

} // verus!
