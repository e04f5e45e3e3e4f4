use vstd::prelude::*;
use regex::Regex;

verus! {

#[verifier::external_type_specification]
#[verifier::external_body]
pub struct ExRegex(regex::Regex);

#[verifier::external_type_specification]
#[verifier::external_body]
pub struct ExRegexError(regex::Error);

/// Whether the `regex` crate accepts `p` as a pattern.
pub uninterp spec fn is_valid_regex(p: Seq<char>) -> bool;

/// The text of the capture group `group` in the leftmost match of the
/// pattern `p` on `hay`, if there is a match and the group took part in it.
pub uninterp spec fn named_capture(p: Seq<char>, hay: Seq<char>, group: Seq<char>) -> Option<Seq<char>>;

/// `hay` with every non-overlapping match of the pattern `p` replaced by
/// `rep`.
pub uninterp spec fn replaced_all(p: Seq<char>, hay: Seq<char>, rep: Seq<char>) -> Seq<char>;

/// A pattern that the regex engine rejected.
#[derive(Debug)]
pub struct PatternError {
    pub pattern: String,
}

/// A compiled regular expression together with the pattern it came from.
pub struct Pattern {
    source: String,
    re: Regex,
}

pub open spec fn opt_view(o: Option<String>) -> Option<Seq<char>> {
    match o {
        Some(s) => Some(s@),
        None => None,
    }
}

/// Relies on `regex::Regex::new`: it accepts exactly the valid patterns.
#[verifier::external_body]
fn compile_regex(p: &str) -> (r: Result<Regex, regex::Error>)
    ensures
        r is Ok <==> is_valid_regex(p@),
{
    Regex::new(p)
}

/// Relies on `regex::Regex::captures` and `regex::Captures::name`: the named
/// group of the leftmost match, which depends on the pattern and the text alone.
#[verifier::external_body]
fn capture_in(p: &Pattern, hay: &str, group: &str) -> (r: Option<String>)
    ensures
        opt_view(r) == named_capture(p.source(), hay@, group@),
{
    let caps = p.re.captures(hay)?;
    let m = caps.name(group)?;
    Some(m.as_str().to_string())
}

/// Relies on `regex::Regex::replace_all`: every non-overlapping match replaced.
#[verifier::external_body]
fn replace_in(p: &Pattern, hay: &str, rep: &str) -> (r: String)
    ensures
        r@ == replaced_all(p.source(), hay@, rep@),
{
    p.re.replace_all(hay, rep).into_owned()
}

impl Pattern {
    /// The pattern text this regex was compiled from.
    pub closed spec fn source(&self) -> Seq<char> {
        self.source@
    }

    /// Compiles `source`; fails exactly when the regex engine rejects it.
    pub fn new(source: &str) -> (r: Result<Pattern, PatternError>)
        ensures
            r is Ok <==> is_valid_regex(source@),
            r matches Ok(p) ==> p.source() == source@,
            r matches Err(e) ==> e.pattern@ == source@,
    {
        match compile_regex(source) {
            Ok(re) => Ok(Pattern { source: source.to_string(), re }),
            Err(_) => Err(PatternError { pattern: source.to_string() }),
        }
    }

    /// The pattern text this regex was compiled from.
    pub fn as_str(&self) -> (r: &str)
        ensures
            r@ == self.source(),
    {
        self.source.as_str()
    }

    /// The text of capture group `group` in the leftmost match on `hay`.
    pub fn capture(&self, hay: &str, group: &str) -> (r: Option<String>)
        ensures
            opt_view(r) == named_capture(self.source(), hay@, group@),
    {
        capture_in(self, hay, group)
    }

    /// `hay` with every match replaced by `rep`.
    pub fn replace_all(&self, hay: &str, rep: &str) -> (r: String)
        ensures
            r@ == replaced_all(self.source(), hay@, rep@),
    {
        replace_in(self, hay, rep)
    }
}

pub open spec fn sources(v: Seq<Pattern>) -> Seq<Seq<char>> {
    v.map_values(|p: Pattern| p.source())
}

} // verus!
