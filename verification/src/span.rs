//! Source spans and span-annotated values.
//!
//! A [`Span`] is a half-open offset range into the character buffer of one
//! parse. Every successfully parsed value is handed back as a [`PU`]
//! ("parse unit value"): the value together with the exact span of text it
//! covers. A failed parse is either a soft mismatch (the production does
//! not apply here, try a sibling) or a hard [`ParseError`] carrying a span
//! and a message.

use vstd::prelude::*;
use vstd::pervasive::unreached;

verus! {

/// A half-open range `[start, end)` of character offsets into the source.
#[derive(Clone, Copy, Debug, PartialEq, Eq, Structural)]
pub struct Span {
    pub start: usize,
    pub end: usize,
}

impl Span {
    /// A span never runs backwards.
    pub open spec fn wf(self) -> bool {
        self.start <= self.end
    }

    /// Length of the covered text.
    pub open spec fn spec_len(self) -> int {
        self.end - self.start
    }

    /// The smallest span that covers both `self` and `other`: minimum of
    /// the starts, maximum of the ends. Used to build a parent node's span
    /// from its children's spans.
    pub fn merge(self, other: Span) -> (r: Span)
        ensures
            r.start == if self.start <= other.start {
                self.start
            } else {
                other.start
            },
            r.end == if self.end >= other.end {
                self.end
            } else {
                other.end
            },
    {
        let start = if self.start <= other.start {
            self.start
        } else {
            other.start
        };
        let end = if self.end >= other.end {
            self.end
        } else {
            other.end
        };
        Span { start, end }
    }
}

/// A parsed value together with the span of source text it covers.
#[derive(Clone, Debug, PartialEq)]
pub struct PU<T> {
    pub span: Span,
    pub item: T,
}

/// A committed parse failure: the production started and is malformed.
#[derive(Clone, Debug)]
pub struct ParseError {
    pub span: Span,
    pub reason: String,
}

/// The three-way outcome of a parse attempt:
/// - `Ok(pu)`: success, with the value and its span;
/// - `Err(None)`: soft mismatch, the production does not apply here and
///   the caller may try a sibling alternative;
/// - `Err(Some(e))`: hard error, the production is malformed and the
///   failure must propagate past all enclosing alternatives.
pub type ParseResult<T> = Result<PU<T>, Option<ParseError>>;

pub fn outcome_is_ok<T>(r: &ParseResult<T>) -> (b: bool)
    ensures
        b == (r is Ok),
{
    r.is_ok()
}

pub fn outcome_is_soft<T>(r: &ParseResult<T>) -> (b: bool)
    ensures
        b == (r matches Err(e) && e is None),
{
    match r {
        Err(None) => true,
        _ => false,
    }
}

/// Takes the token out of a successful outcome.
pub fn ok_of<T>(r: ParseResult<T>) -> (t: PU<T>)
    requires
        r is Ok,
    ensures
        r matches Ok(x) && x == t,
{
    match r {
        Ok(t) => t,
        Err(_) => unreached(),
    }
}

/// Passes a failure on unchanged, under whatever target type the caller
/// needs.
pub fn fail_of<T, U>(r: ParseResult<T>) -> (o: ParseResult<U>)
    requires
        !(r is Ok),
    ensures
        match r {
            Ok(_) => true,
            Err(e) => o == Err::<PU<U>, Option<ParseError>>(e),
        },
{
    match r {
        Ok(_) => unreached(),
        Err(e) => Err(e),
    }
}

} // verus!
