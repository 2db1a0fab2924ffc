use regex::Regex;
use vstd::prelude::*;

verus! {

/// `regex::Regex`, a compiled expression, carried opaquely.
#[verifier::external_type_specification]
#[verifier::external_body]
pub struct ExRegex(Regex);

/// `regex::Error`, why an expression was refused, carried opaquely.
#[verifier::external_type_specification]
#[verifier::external_body]
pub struct ExRegexError(regex::Error);

/// Whether the regex crate accepts `pattern` as an expression.
pub uninterp spec fn regex_compiles(pattern: Seq<char>) -> bool;

/// Whether the expression `pattern` matches somewhere in `text`.
pub uninterp spec fn regex_finds(pattern: Seq<char>, text: Seq<char>) -> bool;

/// Relies on `regex::Regex::new`: whether it succeeds depends on the
/// pattern's text alone.
#[verifier::external_body]
fn compile_regex(source: &str) -> (r: Result<Regex, regex::Error>)
    ensures
        r.is_ok() == regex_compiles(source@),
{
    Regex::new(source)
}

/// Relies on the `Display` impl of `regex::Error` for a readable message.
#[verifier::external_body]
fn regex_error_message(e: &regex::Error) -> (r: String) {
    e.to_string()
}

/// A pattern that was refused, with the reason the regex crate gave.
#[derive(Debug)]
pub struct PatternError {
    pub pattern: String,
    pub message: String,
}

/// An unanchored regular expression together with the text it was built from.
#[derive(Debug)]
pub struct Pattern {
    source: String,
    compiled: Regex,
}

impl View for Pattern {
    type V = Seq<char>;

    closed spec fn view(&self) -> Seq<char> {
        self.source@
    }
}

impl Pattern {
    /// Compiles `source`; fails exactly when the regex crate refuses it.
    pub fn new(source: &str) -> (r: Result<Pattern, PatternError>)
        ensures
            r.is_ok() == regex_compiles(source@),
            r matches Ok(p) ==> p@ == source@,
            r matches Err(e) ==> e.pattern@ == source@,
    {
        match compile_regex(source) {
            Ok(compiled) => Ok(Pattern { source: source.to_string(), compiled }),
            Err(e) => Err(PatternError { pattern: source.to_string(), message: regex_error_message(&e) }),
        }
    }

    /// The text the pattern was built from.
    pub fn as_str(&self) -> (r: &str)
        ensures
            r@ == self@,
    {
        self.source.as_str()
    }

    /// Relies on `regex::Regex::is_match` of the expression that `new`
    /// compiled from this pattern's text (the field is private and set
    /// there only): it reports a match anywhere in `text`.
    #[verifier::external_body]
    fn search(&self, text: &str) -> (r: bool)
        ensures
            r == regex_finds(self@, text@),
    {
        self.compiled.is_match(text)
    }

    /// Whether the pattern matches somewhere in `text`.
    pub fn is_match(&self, text: &str) -> (r: bool)
        ensures
            r == regex_finds(self@, text@),
    {
        self.search(text)
    }
}

/// Some pattern of `ps` matches somewhere in `text`.
pub open spec fn matches_any(ps: Seq<Pattern>, text: Seq<char>) -> bool {
    exists|i: int| 0 <= i < ps.len() && regex_finds(#[trigger] ps[i]@, text)
}

/// Whether any pattern of `ps` matches `text`, in order, stopping at the
/// first match.
pub fn any_match(ps: &[Pattern], text: &str) -> (r: bool)
    ensures
        r == matches_any(ps@, text@),
{
    let mut i: usize = 0;
    while i < ps.len()
        invariant
            0 <= i <= ps@.len(),
            forall|j: int| 0 <= j < i ==> !regex_finds(#[trigger] ps@[j]@, text@),
        decreases ps@.len() - i,
    {
        if ps[i].is_match(text) {
            return true;
        }
        i = i + 1;
    }
    false
}

} // verus!
