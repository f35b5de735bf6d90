//! Regular-expression route patterns, compiled and matched by the `regex` crate.

use vstd::prelude::*;

verus! {

#[verifier::external_type_specification]
#[verifier::external_body]
pub struct ExRegex(regex::Regex);

/// What `regex::Regex::new` reports for a pattern: `None` when it compiles,
/// otherwise the display text of its error. It depends on the pattern alone.
pub uninterp spec fn regex_compile_error(pattern: Seq<char>) -> Option<Seq<char>>;

/// Whether `regex::Regex::is_match` finds a match of the regex compiled from
/// `pattern` anywhere in `haystack`. It depends on the two texts alone.
pub uninterp spec fn regex_is_match(pattern: Seq<char>, haystack: Seq<char>) -> bool;

/// Calls `regex::Regex::new`. Trusted: it succeeds exactly when
/// `regex_compile_error` is `None`, and otherwise hands back the error's
/// display text, which is what that name gives.
#[verifier::external_body]
fn regex_new(pattern: &str) -> (res: Result<regex::Regex, String>)
    ensures
        res is Ok <==> regex_compile_error(pattern@) is None,
        res matches Err(m) ==> regex_compile_error(pattern@) == Some(m@),
{
    match regex::Regex::new(pattern) {
        Ok(re) => Ok(re),
        Err(e) => Err(e.to_string()),
    }
}

/// A compiled regular expression together with the pattern it was compiled
/// from. Only [`CompiledRegex::compile`] builds one, so the two always agree.
#[derive(Debug)]
pub struct CompiledRegex {
    source: String,
    compiled: regex::Regex,
}

impl View for CompiledRegex {
    type V = Seq<char>;

    /// The pattern the regex was compiled from.
    closed spec fn view(&self) -> Seq<char> {
        self.source@
    }
}

impl CompiledRegex {
    /// Compiles `pattern`; on failure the error's display text comes back.
    pub fn compile(pattern: &str) -> (res: Result<CompiledRegex, String>)
        ensures
            res is Ok <==> regex_compile_error(pattern@) is None,
            res matches Ok(r) ==> r@ == pattern@,
            res matches Err(m) ==> regex_compile_error(pattern@) == Some(m@),
    {
        match regex_new(pattern) {
            Ok(re) => Ok(CompiledRegex { source: pattern.to_owned(), compiled: re }),
            Err(m) => Err(m),
        }
    }

    /// Calls `regex::Regex::is_match` on the compiled regex. Trusted: the
    /// answer is `regex_is_match` of the pattern this regex was compiled from
    /// (which `compile` keeps beside it) and the haystack.
    #[verifier::external_body]
    pub(crate) fn is_match(&self, haystack: &str) -> (b: bool)
        ensures
            b == regex_is_match(self@, haystack@),
    {
        self.compiled.is_match(haystack)
    }
}

} // verus!
