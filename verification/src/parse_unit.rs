//! The capability every grammar rule implements, the attempt wrappers
//! that apply the backtrack policy around a rule, and the alternation
//! combinator that tries candidate rules in declared order.

use vstd::prelude::*;
use vstd::string::StrSliceExecFns;

use crate::lex::{ws_end, ws_only};
use crate::parser::Parser;
use crate::span::{ParseError, ParseResult, PU};

verus! {

/// A grammar rule: a type that can attempt to consume text from a parser
/// and produce a value of its target type.
///
/// The contract every rule obeys:
/// - the buffer is never changed and the position never moves backwards;
/// - on success, the token's span covers exactly the consumed text after
///   the leading whitespace, ends at the new position, and the value
///   stands in the rule's own relation [`ParseUnit::wf_target`] to the
///   text;
/// - a soft mismatch is only reported where the rule's
///   [`ParseUnit::soft_spec`] admits one, so a caller knows which inputs
///   can still fall through to a sibling alternative.
///
/// Rules are not meant to be called directly: [`Parser::parse`] and
/// [`Parser::try_once`] run a rule as an attempt, restoring the cursor on
/// a soft mismatch.
pub trait ParseUnit: Sized {
    type Target;

    /// What a successfully parsed token of this rule means: the relation
    /// between the source text, the covered span and the value.
    spec fn wf_target(src: Seq<char>, t: PU<Self::Target>) -> bool;

    /// On which inputs this rule may report a soft mismatch when started
    /// at offset `i`.
    spec fn soft_spec(src: Seq<char>, i: int) -> bool;

    /// On which inputs this rule may commit a hard error when started at
    /// offset `i`: the exact malformation it reports. Together with
    /// [`ParseUnit::soft_spec`] this owes success: on an input where
    /// neither holds, the rule must return a token.
    spec fn hard_spec(src: Seq<char>, i: int) -> bool;

    fn parse(p: &mut Parser) -> (r: ParseResult<Self::Target>)
        requires
            old(p).wf(),
            old(p)@.start is None,
        ensures
            final(p).wf(),
            final(p)@.src == old(p)@.src,
            old(p)@.idx <= final(p)@.idx,
            r matches Ok(t) ==> {
                &&& t.span.start == ws_end(old(p)@.src, old(p)@.idx)
                &&& old(p)@.idx <= t.span.start <= t.span.end <= old(p)@.src.len()
                &&& t.span.end == final(p)@.idx
                &&& ws_only(old(p)@.src, old(p)@.idx, t.span.start as int)
                &&& final(p)@.start == Some(t.span.start as int)
                &&& Self::wf_target(old(p)@.src, t)
            },
            r matches Err(e) && e is None ==> Self::soft_spec(old(p)@.src, old(p)@.idx),
            r matches Err(e) && e is Some ==> Self::hard_spec(old(p)@.src, old(p)@.idx),
            r matches Err(e) ==> (e matches Some(pe) ==> old(p)@.idx <= pe.span.start
                <= pe.span.end <= old(p)@.src.len()),
    ;
}

impl Parser {
    /// Runs one rule as an attempt: the backtrack policy of
    /// [`Parser::finish_attempt`] applied around `P::parse`. On a soft
    /// mismatch the cursor position and attempt mark are exactly the ones
    /// from before the call, so the caller may try another alternative
    /// from the same starting position.
    pub fn try_once<P: ParseUnit>(&mut self) -> (r: ParseResult<P::Target>)
        requires
            old(self).wf(),
        ensures
            final(self).wf(),
            final(self)@.src == old(self)@.src,
            old(self)@.idx <= final(self)@.idx,
            r matches Ok(t) ==> {
                &&& t.span.start == ws_end(old(self)@.src, old(self)@.idx)
                &&& old(self)@.idx <= t.span.start <= t.span.end <= old(self)@.src.len()
                &&& t.span.end == final(self)@.idx
                &&& ws_only(old(self)@.src, old(self)@.idx, t.span.start as int)
                &&& final(self)@.start == (if old(self)@.start is Some {
                    old(self)@.start
                } else {
                    Some(t.span.start as int)
                })
                &&& final(self)@.cache == old(self)@.cache
                &&& P::wf_target(old(self)@.src, t)
            },
            r matches Err(e) && e is None ==> {
                &&& final(self)@.idx == old(self)@.idx
                &&& final(self)@.start == old(self)@.start
                &&& P::soft_spec(old(self)@.src, old(self)@.idx)
            },
            r matches Err(e) && e is Some ==> {
                &&& final(self)@.start == old(self)@.start
                &&& final(self)@.cache == old(self)@.cache
                &&& P::hard_spec(old(self)@.src, old(self)@.idx)
            },
            r matches Err(e) ==> (e matches Some(pe) ==> old(self)@.idx <= pe.span.start
                <= pe.span.end <= old(self)@.src.len()),
    {
        let m = self.mark_attempt();
        let r = P::parse(self);
        self.finish_attempt(m, r)
    }

    /// Attempts to parse a `P` from the current position. Same policy as
    /// [`Parser::try_once`].
    pub fn parse<P: ParseUnit>(&mut self) -> (r: ParseResult<P::Target>)
        requires
            old(self).wf(),
        ensures
            final(self).wf(),
            final(self)@.src == old(self)@.src,
            old(self)@.idx <= final(self)@.idx,
            r matches Ok(t) ==> {
                &&& t.span.start == ws_end(old(self)@.src, old(self)@.idx)
                &&& old(self)@.idx <= t.span.start <= t.span.end <= old(self)@.src.len()
                &&& t.span.end == final(self)@.idx
                &&& ws_only(old(self)@.src, old(self)@.idx, t.span.start as int)
                &&& final(self)@.start == (if old(self)@.start is Some {
                    old(self)@.start
                } else {
                    Some(t.span.start as int)
                })
                &&& final(self)@.cache == old(self)@.cache
                &&& P::wf_target(old(self)@.src, t)
            },
            r matches Err(e) && e is None ==> {
                &&& final(self)@.idx == old(self)@.idx
                &&& final(self)@.start == old(self)@.start
                &&& P::soft_spec(old(self)@.src, old(self)@.idx)
            },
            r matches Err(e) && e is Some ==> {
                &&& final(self)@.start == old(self)@.start
                &&& final(self)@.cache == old(self)@.cache
                &&& P::hard_spec(old(self)@.src, old(self)@.idx)
            },
            r matches Err(e) ==> (e matches Some(pe) ==> old(self)@.idx <= pe.span.start
                <= pe.span.end <= old(self)@.src.len()),
    {
        self.try_once::<P>()
    }

    /// The upgrade operation: turns a soft mismatch into a hard error
    /// with the given message at the current selection. Used exactly
    /// where the grammar guarantees that only one production can apply,
    /// such as a mandatory closing delimiter after a matched opener.
    pub fn must_match<T>(&mut self, r: ParseResult<T>, reason: &str) -> (out: ParseResult<T>)
        requires
            old(self).wf(),
        ensures
            *final(self) == *old(self),
            r is Ok ==> out == r,
            r matches Err(e) && e is Some ==> out == r,
            r matches Err(e) && e is None ==> (out matches Err(oe) && oe matches Some(pe)
                && pe.span == old(self)@.selection() && pe.reason@ == reason@),
            out matches Err(oe) ==> (oe matches Some(pe) ==> (r matches Err(e) && e is None)
                || r == out),
    {
        match r {
            Ok(t) => Ok(t),
            Err(Some(e)) => Err(Some(e)),
            Err(None) => {
                let e = self.new_error(reason);
                Err(Some(e))
            }
        }
    }
}

/// The alternation combinator: tries candidate rules in declared order
/// against the same starting position. Once a decision is reached — a
/// success or a hard error — every further [`Try::or_try`] is a no-op;
/// only a soft mismatch lets the next candidate run.
pub struct Try<T> {
    state: Option<Result<PU<T>, ParseError>>,
}

impl<T> Try<T> {
    /// The decision reached so far, if any.
    pub closed spec fn decision(self) -> Option<Result<PU<T>, ParseError>> {
        self.state
    }

    pub fn new() -> (t: Try<T>)
        ensures
            t.decision() is None,
    {
        Try { state: None }
    }

    /// Tries one more candidate rule, unless a decision was already
    /// reached. A success or a hard error of the candidate becomes the
    /// decision; a soft mismatch leaves the parser position untouched and
    /// the alternation undecided.
    pub fn or_try<P: ParseUnit<Target = T>>(&mut self, p: &mut Parser)
        requires
            old(p).wf(),
        ensures
            final(p).wf(),
            final(p)@.src == old(p)@.src,
            old(self).decision() is Some ==> {
                &&& *final(self) == *old(self)
                &&& *final(p) == *old(p)
            },
            old(self).decision() is None ==> {
                &&& old(p)@.idx <= final(p)@.idx
                &&& match final(self).decision() {
                    Some(d) => match d {
                        Ok(t) => {
                            &&& t.span.start == ws_end(old(p)@.src, old(p)@.idx)
                            &&& old(p)@.idx <= t.span.start <= t.span.end <= old(p)@.src.len()
                            &&& t.span.end == final(p)@.idx
                            &&& ws_only(old(p)@.src, old(p)@.idx, t.span.start as int)
                            &&& P::wf_target(old(p)@.src, t)
                        },
                        Err(e) => {
                            &&& final(p)@.start == old(p)@.start
                            &&& final(p)@.cache == old(p)@.cache
                            &&& old(p)@.idx <= e.span.start <= e.span.end <= old(p)@.src.len()
                            &&& P::hard_spec(old(p)@.src, old(p)@.idx)
                        },
                    },
                    None => {
                        &&& final(p)@.idx == old(p)@.idx
                        &&& final(p)@.start == old(p)@.start
                        &&& P::soft_spec(old(p)@.src, old(p)@.idx)
                    },
                }
            },
    {
        if self.state.is_some() {
            return ;
        }
        match p.try_once::<P>() {
            Ok(t) => {
                self.state = Some(Ok(t));
            }
            Err(Some(e)) => {
                self.state = Some(Err(e));
            }
            Err(None) => {}
        }
    }

    /// Sets the default hard error, used when no candidate matched but
    /// the grammar guarantees one should have: an undecided alternation
    /// becomes a hard error at the parser's current selection.
    pub fn or_error(&mut self, p: &mut Parser, reason: &str)
        requires
            old(p).wf(),
        ensures
            *final(p) == *old(p),
            old(self).decision() is Some ==> *final(self) == *old(self),
            old(self).decision() is None ==> (final(self).decision() matches Some(d) && d
                matches Err(e) && e.span == old(p)@.selection() && e.reason@ == reason@),
    {
        if self.state.is_none() {
            let e = p.new_error(reason);
            self.state = Some(Err(e));
        }
    }

    /// Finishes the alternation: the success if one was found, the first
    /// hard error if one was committed, and otherwise a soft mismatch for
    /// the caller's caller to handle.
    pub fn finish(self) -> (r: ParseResult<T>)
        ensures
            match self.decision() {
                Some(d) => match d {
                    Ok(t) => r == Ok::<PU<T>, Option<ParseError>>(t),
                    Err(e) => r == Err::<PU<T>, Option<ParseError>>(Some(e)),
                },
                None => r == Err::<PU<T>, Option<ParseError>>(None),
            },
    {
        match self.state {
            Some(Ok(t)) => Ok(t),
            Some(Err(e)) => Err(Some(e)),
            None => Err(None),
        }
    }
}

/// Matching a known piece of text against the parser, instead of parsing
/// an unknown one out of it: the implementing value describes exactly the
/// characters it expects.
pub trait ReverseParser: View<V = Seq<char>> {
    type Left;

    fn reverse_parse(&self, p: &mut Parser) -> (r: Result<Self::Left, Option<ParseError>>)
        requires
            old(p).wf(),
        ensures
            final(p).wf(),
            final(p)@.src == old(p)@.src,
            final(p)@.start == old(p)@.start,
            final(p)@.cache == old(p)@.cache,
            old(p)@.idx <= final(p)@.idx,
            r is Ok ==> {
                &&& old(p)@.idx + self@.len() <= old(p)@.src.len()
                &&& old(p)@.src.subrange(old(p)@.idx, old(p)@.idx + self@.len()) == self@
                &&& final(p)@.idx == old(p)@.idx + self@.len()
            },
            r matches Err(e) && e is None ==> !(old(p)@.idx + self@.len() <= old(p)@.src.len()
                && old(p)@.src.subrange(old(p)@.idx, old(p)@.idx + self@.len()) == self@),
            r matches Err(e) ==> e is None,
    ;
}

impl ReverseParser for str {
    type Left = ();

    /// Consumes exactly the characters of this string from the parser,
    /// reporting a soft mismatch when the upcoming text differs.
    #[verifier::loop_isolation(false)]
    fn reverse_parse(&self, p: &mut Parser) -> (r: Result<(), Option<ParseError>>) {
        let ghost p0: Parser = *p;
        proof {
            assert(p0 == *old(p));
            assert(old(p).wf());
        }
        let n = self.unicode_len();
        let mut i: usize = 0;
        while i < n
            invariant
                p.wf(),
                p@.src == p0@.src,
                p@.start == p0@.start,
                p@.cache == p0@.cache,
                n == self@.len(),
                0 <= i <= n,
                p@.idx == p0@.idx + i,
                p0@.idx + i <= p@.src.len(),
                p0@.src.subrange(p0@.idx, p0@.idx + i as int) =~= self@.take(i as int),
            decreases n - i,
        {
            let expected = self.get_char(i);
            let nx = p.next();
            let matched = match nx {
                Some(c) => c == expected,
                None => false,
            };
            if !matched {
                proof {
                    if p0@.idx + self@.len() <= p0@.src.len() && p0@.src.subrange(
                        p0@.idx,
                        p0@.idx + self@.len(),
                    ) == self@ {
                        assert(p0@.src.subrange(p0@.idx, p0@.idx + self@.len())[i as int]
                            == self@[i as int]);
                    }
                }
                return Err(None);
            }
            proof {
                assert forall|k: int| 0 <= k < i + 1 implies #[trigger] p0@.src.subrange(
                    p0@.idx,
                    p0@.idx + i + 1 as int,
                )[k] == self@.take(i + 1 as int)[k] by {
                    if k < i {
                        assert(p0@.src.subrange(p0@.idx, p0@.idx + i as int)[k] == self@.take(
                            i as int,
                        )[k]);
                    }
                }
                assert(p0@.src.subrange(p0@.idx, p0@.idx + i + 1 as int) =~= self@.take(
                    i + 1 as int,
                ));
            }
            i = i + 1;
        }
        proof {
            assert(self@.take(n as int) =~= self@);
        }
        Ok(())
    }
}

} // verus!
