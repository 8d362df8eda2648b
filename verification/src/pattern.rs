//! Frame-pattern matching: the one place the regex crate is consulted.
//! Compilation and matching are functions of the pattern and the text
//! alone; both results are named, and the detector's contracts speak only
//! of those names.

use vstd::prelude::*;

verus! {

/// What compiling the pattern yields: `None` when it is a valid regular
/// expression, else the rendering of the compile error.
pub uninterp spec fn regex_compile_error(pattern: Seq<char>) -> Option<Seq<char>>;

/// The pattern is a valid regular expression.
pub open spec fn regex_valid(pattern: Seq<char>) -> bool {
    regex_compile_error(pattern) is None
}

/// What matching a file stem against a frame pattern yields: `None` when
/// the pattern does not match, else the text of the capture group named
/// `name` and the text of the second capture group, each absent when its
/// group did not participate in the match.
pub uninterp spec fn frame_captures(pattern: Seq<char>, text: Seq<char>) -> Option<
    (Option<Seq<char>>, Option<Seq<char>>),
>;

/// The mathematical form of a `match_frame` result.
pub open spec fn captures_view(r: Option<(Option<String>, Option<String>)>) -> Option<
    (Option<Seq<char>>, Option<Seq<char>>),
> {
    match r {
        None => None,
        Some((name, index)) => Some(
            (
                match name {
                    None => None,
                    Some(s) => Some(s@),
                },
                match index {
                    None => None,
                    Some(s) => Some(s@),
                },
            ),
        ),
    }
}

/// Relies on regex::Regex::new: whether a pattern compiles, and the error
/// text when it does not, depend on the pattern alone.
#[verifier::external_body]
pub(crate) fn compile_check(pattern: &str) -> (r: Option<String>)
    ensures
        match r {
            None => regex_valid(pattern@),
            Some(e) => regex_compile_error(pattern@) == Some(e@),
        },
{
    match regex::Regex::new(pattern) {
        Ok(_) => None,
        Err(e) => Some(e.to_string()),
    }
}

/// Relies on regex::Regex::captures and Captures::name / Captures::get:
/// what a pattern captures in a text depends on the two alone.
#[verifier::external_body]
pub(crate) fn match_frame(pattern: &str, text: &str) -> (r: Option<
    (Option<String>, Option<String>),
>)
    requires
        regex_valid(pattern@),
    ensures
        captures_view(r) == frame_captures(pattern@, text@),
{
    let re = match regex::Regex::new(pattern) {
        Ok(re) => re,
        Err(_) => return None,
    };
    let caps = re.captures(text)?;
    let name = caps.name("name").map(|m| m.as_str().to_string());
    let index = caps.get(2).map(|m| m.as_str().to_string());
    Some((name, index))
}

} // verus!
