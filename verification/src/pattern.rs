//! Compiled text patterns, backed by the `regex` crate.
//!
//! A [`Matcher`] pairs the pattern string with the engine compiled from it.
//! The two are tied together by construction: `inner` is only ever the
//! compilation of `pattern`, because the only way to build a `Matcher` is
//! [`Matcher::compile`], so the contracts of the matching calls may speak of
//! the pattern string alone.

use vstd::prelude::*;

verus! {

/// `regex::Regex`, declared so it can stand in fields and signatures; its
/// values are opaque here.
#[verifier::external_type_specification]
#[verifier::external_body]
pub struct ExRegex(regex::Regex);

/// `regex::Error`, the error returned by regex compilation; opaque here.
#[verifier::external_type_specification]
#[verifier::external_body]
pub struct ExRegexError(regex::Error);

/// Whether `regex::Regex::new` accepts `pattern`: compilation either
/// succeeds or fails as a function of the pattern string alone.
pub uninterp spec fn regex_accepts(pattern: Seq<char>) -> bool;

/// Whether the regex compiled from `pattern` matches anywhere in `text`;
/// a function of the two strings alone.
pub uninterp spec fn regex_match(pattern: Seq<char>, text: Seq<char>) -> bool;

/// The text of the first match of the regex compiled from `pattern` within
/// `text`, or `None` if there is no match; a function of the two strings
/// alone.
pub uninterp spec fn regex_first_find(pattern: Seq<char>, text: Seq<char>) -> Option<Seq<char>>;

/// A pattern together with the engine compiled from it.
pub struct Matcher {
    /// The pattern string the engine was compiled from.
    pattern: String,
    /// The compiled engine; by construction always the compilation of
    /// `pattern`.
    inner: regex::Regex,
}

impl Matcher {
    /// The pattern string this matcher was compiled from.
    pub closed spec fn pattern_view(&self) -> Seq<char> {
        self.pattern@
    }
}

/// Relies on `regex::Regex::new`: it returns `Ok` exactly when the pattern
/// is a valid regex that compiles within the default size limit, which
/// depends on the pattern string alone.
#[verifier::external_body]
fn compile_regex(pattern: &str) -> (r: Result<Matcher, regex::Error>)
    ensures
        r is Ok <==> regex_accepts(pattern@),
        r matches Ok(m) ==> m.pattern_view() == pattern@,
{
    match regex::Regex::new(pattern) {
        Ok(inner) => Ok(Matcher { pattern: pattern.to_owned(), inner }),
        Err(e) => Err(e),
    }
}

/// Relies on `regex::Regex::is_match`: true if and only if the regex matches
/// anywhere in the haystack, a function of the pattern and the haystack.
#[verifier::external_body]
fn regex_is_match(m: &Matcher, text: &str) -> (r: bool)
    ensures
        r == regex_match(m.pattern_view(), text@),
{
    m.inner.is_match(text)
}

/// Relies on `regex::Regex::find`: it returns the first match of the regex
/// in the haystack, or `None` if there is none, a function of the pattern
/// and the haystack.
#[verifier::external_body]
fn regex_find_first(m: &Matcher, text: &str) -> (r: Option<String>)
    ensures
        match r {
            Some(found) => regex_first_find(m.pattern_view(), text@) == Some(found@),
            None => regex_first_find(m.pattern_view(), text@) is None,
        },
{
    m.inner.find(text).map(|mt| mt.as_str().to_owned())
}

impl Matcher {
    /// Compiles `pattern`; returns `None` exactly when the pattern is not a
    /// valid regex.
    pub fn compile(pattern: &str) -> (r: Option<Matcher>)
        ensures
            r is Some <==> regex_accepts(pattern@),
            r matches Some(m) ==> m.pattern_view() == pattern@,
    {
        match compile_regex(pattern) {
            Ok(m) => Some(m),
            Err(_) => None,
        }
    }

    /// Whether this pattern matches anywhere in `text`.
    pub fn is_match(&self, text: &str) -> (r: bool)
        ensures
            r == regex_match(self.pattern_view(), text@),
    {
        regex_is_match(self, text)
    }

    /// The text of the first match of this pattern in `text`, if any.
    pub fn find_first(&self, text: &str) -> (r: Option<String>)
        ensures
            match r {
                Some(found) => regex_first_find(self.pattern_view(), text@) == Some(found@),
                None => regex_first_find(self.pattern_view(), text@) is None,
            },
    {
        regex_find_first(self, text)
    }
}

} // verus!
