//! Name-strip patterns, backed by the regex crate.

use vstd::prelude::*;

verus! {

#[verifier::external_type_specification]
#[verifier::external_body]
pub struct ExRegex(regex::Regex);

#[verifier::external_type_specification]
#[verifier::external_body]
pub struct ExRegexError(regex::Error);

/// The text left after every match of the pattern (given by its source
/// text) in `text` is replaced with the empty string.
///
/// This names the result of `regex::Regex::replace_all` with an empty
/// replacement: the result depends on the pattern's source and the text
/// alone.
pub uninterp spec fn replaced(pattern: Seq<char>, text: Seq<char>) -> Seq<char>;

/// Whether the pattern (given by its source text) matches anywhere in
/// `text`.
///
/// This names the result of `regex::Regex::is_match`; `strip` promises
/// below that a text without a match is returned unchanged, as the regex
/// crate documents of `replace_all`.
pub uninterp spec fn has_match(pattern: Seq<char>, text: Seq<char>) -> bool;

/// Whether a pattern's source text compiles.
///
/// This names the success of `regex::Regex::new`, which under the default
/// configuration is a function of the source text alone: the same text is
/// accepted or rejected on every call.
pub uninterp spec fn pattern_compiles(pattern: Seq<char>) -> bool;

/// A compiled name-strip pattern, together with the source text it was
/// compiled from.
pub struct NamePattern {
    pattern: String,
    re: regex::Regex,
}

impl NamePattern {
    /// The pattern's source text.
    pub closed spec fn pat(&self) -> Seq<char> {
        self.pattern@
    }

    /// Relies on `regex::Regex::new`: compiles the source text of a
    /// pattern, succeeding exactly on the texts `pattern_compiles` names;
    /// an invalid pattern is reported as an error.
    #[verifier::external_body]
    pub(crate) fn compile(pattern: &str) -> (r: Result<NamePattern, regex::Error>)
        ensures
            r is Ok <==> pattern_compiles(pattern@),
            r matches Ok(p) ==> p.pat() == pattern@,
    {
        match regex::Regex::new(pattern) {
            Ok(re) => Ok(NamePattern { pattern: pattern.to_string(), re }),
            Err(e) => Err(e),
        }
    }

    /// Relies on `regex::Regex::replace_all` with an empty replacement:
    /// the result is a function of the pattern's source and the text, and
    /// a text the pattern does not match anywhere is returned unchanged
    /// ("if no match is found, then the haystack is returned unchanged").
    #[verifier::external_body]
    pub(crate) fn strip(&self, text: &str) -> (r: String)
        ensures
            r@ == replaced(self.pat(), text@),
            !has_match(self.pat(), text@) ==> r@ == text@,
    {
        self.re.replace_all(text, "").into_owned()
    }
}

/// Relies on the `Display` rendering of `regex::Error` to describe an
/// invalid pattern.
#[verifier::external_body]
pub(crate) fn describe_regex_error(e: &regex::Error) -> String {
    format!("{}", e)
}

} // verus!
