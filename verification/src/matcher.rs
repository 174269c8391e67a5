//! The `Matcher` value type: an expectation over an optional observed byte
//! string, with literal, regular-expression and absence variants.

use vstd::prelude::*;

use crate::bytes::{bytes_eq, extend_bytes};

verus! {

/// The mathematical model of a `Matcher`.
pub enum MatcherModel {
    Exact(Seq<u8>),
    Regexp(Seq<u8>),
    Missing,
}

/// An expectation over an observed string: a literal, a regular expression
/// (kept as its source pattern), or the demand that the value be absent.
pub enum Matcher {
    Exact(Vec<u8>),
    Regexp(Vec<u8>),
    Missing,
}

impl View for Matcher {
    type V = MatcherModel;

    open spec fn view(&self) -> MatcherModel {
        match self {
            Matcher::Exact(s) => MatcherModel::Exact(s@),
            Matcher::Regexp(p) => MatcherModel::Regexp(p@),
            Matcher::Missing => MatcherModel::Missing,
        }
    }
}

/// Whether the regular-expression engine accepts `pattern` as a pattern:
/// the pattern is valid UTF-8 and compiles.
pub uninterp spec fn regex_valid(pattern: Seq<u8>) -> bool;

/// Whether the compiled `pattern` matches somewhere inside `text`.
pub uninterp spec fn regex_search(pattern: Seq<u8>, text: Seq<u8>) -> bool;

/// The pattern wrapped so that a search with it can only succeed on the
/// whole text: `^(?:` before, `)$` after.
pub open spec fn anchored(pattern: Seq<u8>) -> Seq<u8> {
    seq!['^' as u8, '(' as u8, '?' as u8, ':' as u8] + pattern + seq![')' as u8, '$' as u8]
}

/// Relies on `regex::bytes::Regex::new` (with `core::str::from_utf8` in
/// front): whether a byte string is valid UTF-8 and compiles as a pattern is
/// a function of those bytes alone.
#[verifier::external_body]
fn regex_compiles(pattern: &[u8]) -> (r: bool)
    ensures
        r == regex_valid(pattern@),
{
    match core::str::from_utf8(pattern) {
        Ok(p) => regex::bytes::Regex::new(p).is_ok(),
        Err(_) => false,
    }
}

/// Relies on `regex::bytes::Regex::is_match`: whether the compiled pattern
/// matches somewhere inside the text is a function of pattern and text
/// alone. The precondition keeps the compilation from failing.
#[verifier::external_body]
fn regex_is_match(pattern: &[u8], text: &[u8]) -> (r: bool)
    requires
        regex_valid(pattern@),
    ensures
        r == regex_search(pattern@, text@),
{
    let p = core::str::from_utf8(pattern).unwrap();
    regex::bytes::Regex::new(p).unwrap().is_match(text)
}

/// Builds the anchored form of `pattern`.
pub fn build_anchored(pattern: &[u8]) -> (r: Vec<u8>)
    ensures
        r@ == anchored(pattern@),
{
    let mut v: Vec<u8> = Vec::new();
    v.push('^' as u8);
    v.push('(' as u8);
    v.push('?' as u8);
    v.push(':' as u8);
    extend_bytes(&mut v, pattern);
    v.push(')' as u8);
    v.push('$' as u8);
    assert(v@ =~= anchored(pattern@));
    v
}

/// What it means for a matcher to be satisfied by an observed value.
///
/// `Exact` asks for literal equality with a present value; `Regexp` asks
/// that the anchored pattern be valid and match the whole present value;
/// `Missing` is satisfied exactly when the value is absent.
pub open spec fn matcher_matches(m: MatcherModel, observed: Option<Seq<u8>>) -> bool {
    match m {
        MatcherModel::Exact(e) => observed == Some(e),
        MatcherModel::Regexp(p) => match observed {
            Some(s) => regex_valid(anchored(p)) && regex_search(anchored(p), s),
            None => false,
        },
        MatcherModel::Missing => observed is None,
    }
}

/// Whether the anchored form of a pattern compiles; `Exact` and `Missing`
/// have nothing to compile.
pub open spec fn matcher_pattern_valid(m: MatcherModel) -> bool {
    match m {
        MatcherModel::Regexp(p) => regex_valid(anchored(p)),
        _ => true,
    }
}

impl Matcher {
    /// Decides `matcher_matches` for an observed value.
    pub fn satisfied_by(&self, observed: Option<&Vec<u8>>) -> (r: bool)
        ensures
            r == matcher_matches(
                self@,
                match observed {
                    Some(s) => Some(s@),
                    None => None,
                },
            ),
    {
        match self {
            Matcher::Exact(e) => match observed {
                Some(s) => bytes_eq(e.as_slice(), s.as_slice()),
                None => false,
            },
            Matcher::Regexp(p) => match observed {
                Some(s) => {
                    let a = build_anchored(p.as_slice());
                    if regex_compiles(a.as_slice()) {
                        regex_is_match(a.as_slice(), s.as_slice())
                    } else {
                        false
                    }
                },
                None => false,
            },
            Matcher::Missing => observed.is_none(),
        }
    }

    /// Checks that the matcher's pattern, if it has one, compiles.
    pub fn pattern_valid(&self) -> (r: bool)
        ensures
            r == matcher_pattern_valid(self@),
    {
        match self {
            Matcher::Regexp(p) => {
                let a = build_anchored(p.as_slice());
                regex_compiles(a.as_slice())
            },
            _ => true,
        }
    }
}

} // verus!
