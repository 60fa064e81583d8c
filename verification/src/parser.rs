//! The cursor and attempt engine.
//!
//! A [`Parser`] owns the character buffer of one parse together with a
//! small cursor state: the current offset, the optional start-of-attempt
//! mark from which spans are built, and a single-slot cache remembering
//! the last scanned word window so that overlapping alternatives probing
//! the same word do not rescan it.
//!
//! Backtracking works by saving the cursor state before an attempt
//! ([`Parser::mark_attempt`]) and restoring it afterwards according to the
//! outcome ([`Parser::finish_attempt`]):
//! - success commits the new position and keeps the earliest start mark;
//! - a soft mismatch restores position and mark exactly, so a sibling
//!   alternative sees the untouched starting position (only the scan
//!   cache may have been resynchronised);
//! - a hard error restores the mark but keeps the advanced position, so
//!   the failure offset survives for diagnostics.

use vstd::prelude::*;

use crate::lex::{
    digit_end, is_digit, is_digit_exec, is_word_char, is_word_char_exec, is_ws_exec,
    lemma_digit_end, lemma_word_end, lemma_word_end_of_run, lemma_ws_end, word_at, word_end,
    ws_end,
};
use crate::span::{ParseError, ParseResult, Span, PU};

verus! {

/// The cursor state of a parser, as seen by specifications.
pub ghost struct ParserView {
    /// The character buffer.
    pub src: Seq<char>,
    /// Offset of the next character to consume.
    pub idx: int,
    /// Offset where the current attempt started taking characters, unset
    /// until the first scan of the attempt.
    pub start: Option<int>,
    /// The cached word window `[first, end)`, if any.
    pub cache: Option<(int, int)>,
}

impl ParserView {
    /// The cached window, when present, is a maximal run of word
    /// characters, so a scan that begins inside it may be answered from
    /// it without rescanning.
    pub open spec fn cache_wf(self) -> bool {
        match self.cache {
            Some((first, end)) => word_at(self.src, first, end),
            None => true,
        }
    }

    pub open spec fn wf(self) -> bool {
        &&& self.src.len() <= usize::MAX
        &&& 0 <= self.idx <= self.src.len()
        &&& match self.start {
            Some(s) => 0 <= s <= self.idx,
            None => true,
        }
        &&& self.cache_wf()
    }

    /// The span the cursor would select now: the text taken by the
    /// current attempt, or a one-character (at the buffer end: empty)
    /// window at the current position when nothing was taken yet.
    pub open spec fn selection(self) -> Span {
        match self.start {
            Some(s) => Span { start: s as usize, end: self.idx as usize },
            None => Span {
                start: self.idx as usize,
                end: if self.idx < self.src.len() {
                    (self.idx + 1) as usize
                } else {
                    self.idx as usize
                },
            },
        }
    }
}

/// The saved cursor state of one attempt, taken by
/// [`Parser::mark_attempt`] and consumed by [`Parser::finish_attempt`].
#[derive(Clone, Copy)]
pub struct AttemptMark {
    idx: usize,
    start: Option<usize>,
    cache: Option<(usize, usize)>,
}

impl AttemptMark {
    pub closed spec fn idx_spec(self) -> int {
        self.idx as int
    }

    pub closed spec fn start_spec(self) -> Option<int> {
        match self.start {
            Some(s) => Some(s as int),
            None => None,
        }
    }

    pub closed spec fn cache_spec(self) -> Option<(int, int)> {
        match self.cache {
            Some((a, b)) => Some((a as int, b as int)),
            None => None,
        }
    }
}

/// The parser: an immutable character buffer plus a small mutable cursor.
pub struct Parser {
    src: Vec<char>,
    idx: usize,
    start_idx: Option<usize>,
    cache: Option<(usize, usize)>,
}

impl View for Parser {
    type V = ParserView;

    closed spec fn view(&self) -> ParserView {
        ParserView {
            src: self.src@,
            idx: self.idx as int,
            start: match self.start_idx {
                Some(s) => Some(s as int),
                None => None,
            },
            cache: match self.cache {
                Some((a, b)) => Some((a as int, b as int)),
                None => None,
            },
        }
    }
}

impl Parser {
    pub open spec fn wf(&self) -> bool {
        self@.wf()
    }

    /// Creates a parser over a copy of the given characters, with the
    /// cursor at the start, no attempt mark and an empty scan cache.
    pub fn new(src: &[char]) -> (p: Parser)
        ensures
            p.wf(),
            p@.src == src@,
            p@.idx == 0,
            p@.start is None,
            p@.cache is None,
    {
        let mut buf: Vec<char> = Vec::new();
        let mut i: usize = 0;
        while i < src.len()
            invariant
                i <= src.len(),
                buf@ == src@.take(i as int),
            decreases src.len() - i,
        {
            buf.push(src[i]);
            proof {
                assert(buf@ =~= src@.take(i + 1 as int));
            }
            i = i + 1;
        }
        proof {
            assert(src@.take(src@.len() as int) =~= src@);
        }
        Parser { src: buf, idx: 0, start_idx: None, cache: None }
    }

    /// Consumes and returns the next character, if any.
    pub fn next(&mut self) -> (r: Option<char>)
        requires
            old(self).wf(),
        ensures
            final(self).wf(),
            final(self)@.src == old(self)@.src,
            final(self)@.start == old(self)@.start,
            final(self)@.cache == old(self)@.cache,
            old(self)@.idx < old(self)@.src.len() ==> {
                &&& r == Some(old(self)@.src[old(self)@.idx])
                &&& final(self)@.idx == old(self)@.idx + 1
            },
            old(self)@.idx == old(self)@.src.len() ==> {
                &&& r is None
                &&& final(self)@.idx == old(self)@.idx
            },
    {
        if self.idx < self.src.len() {
            let c = self.src[self.idx];
            self.idx = self.idx + 1;
            Some(c)
        } else {
            None
        }
    }

    /// Returns the next character without consuming it.
    pub fn peek(&self) -> (r: Option<char>)
        requires
            self.wf(),
        ensures
            self@.idx < self@.src.len() ==> r == Some(self@.src[self@.idx]),
            self@.idx == self@.src.len() ==> r is None,
    {
        if self.idx < self.src.len() {
            Some(self.src[self.idx])
        } else {
            None
        }
    }

    /// Sets the start-of-attempt mark to the current position if it is
    /// not set yet.
    pub fn start_taking(&mut self)
        requires
            old(self).wf(),
        ensures
            final(self).wf(),
            final(self)@.src == old(self)@.src,
            final(self)@.idx == old(self)@.idx,
            final(self)@.cache == old(self)@.cache,
            final(self)@.start == if old(self)@.start is Some {
                old(self)@.start
            } else {
                Some(old(self)@.idx)
            },
    {
        if self.start_idx.is_none() {
            self.start_idx = Some(self.idx);
        }
    }

    /// Skips the maximal run of whitespace at the cursor.
    pub fn skip_whitespace(&mut self)
        requires
            old(self).wf(),
        ensures
            final(self).wf(),
            final(self)@.src == old(self)@.src,
            final(self)@.start == old(self)@.start,
            final(self)@.cache == old(self)@.cache,
            final(self)@.idx == ws_end(old(self)@.src, old(self)@.idx),
    {
        proof {
            lemma_ws_end(self@.src, self@.idx);
        }
        loop
            invariant
                self.wf(),
                self@.src == old(self)@.src,
                self@.start == old(self)@.start,
                self@.cache == old(self)@.cache,
                ws_end(self@.src, self@.idx) == ws_end(old(self)@.src, old(self)@.idx),
            ensures
                self.wf(),
                self@.src == old(self)@.src,
                self@.start == old(self)@.start,
                self@.cache == old(self)@.cache,
                self@.idx == ws_end(old(self)@.src, old(self)@.idx),
            decreases self@.src.len() - self@.idx,
        {
            match self.peek() {
                Some(c) if is_ws_exec(c) => {
                    let _ = self.next();
                }
                _ => {
                    break ;
                }
            }
        }
    }

    /// Takes the word at the cursor: skips whitespace, marks the start of
    /// the attempt if unmarked, then consumes the maximal run of word
    /// characters and returns it. The run is answered from the cached
    /// window when the cursor lies inside it; otherwise it is scanned
    /// directly and the cache is replaced by the scanned window.
    pub fn take_word(&mut self) -> (w: Vec<char>)
        requires
            old(self).wf(),
        ensures
            final(self).wf(),
            final(self)@.src == old(self)@.src,
            ({
                let s = ws_end(old(self)@.src, old(self)@.idx);
                let e = word_end(old(self)@.src, s);
                &&& final(self)@.idx == e
                &&& w@ == old(self)@.src.subrange(s, e)
                &&& final(self)@.start == (if old(self)@.start is Some {
                    old(self)@.start
                } else {
                    Some(s)
                })
            }),
    {
        self.skip_whitespace();
        self.start_taking();
        let word_start = self.idx;
        proof {
            lemma_ws_end(self@.src, old(self)@.idx);
        }
        // serve the scan from the cached window when the cursor is inside it
        if let Some((first, end)) = self.cache {
            if first <= word_start && word_start < end {
                proof {
                    assert(word_at(self@.src, first as int, end as int));
                    assert(word_at(self@.src, word_start as int, end as int));
                    lemma_word_end_of_run(self@.src, word_start as int, end as int);
                }
                let mut w: Vec<char> = Vec::new();
                let mut i: usize = word_start;
                while i < end
                    invariant
                        word_start <= i <= end,
                        end <= self.src.len(),
                        w@ == self@.src.subrange(word_start as int, i as int),
                        self.wf(),
                    decreases end - i,
                {
                    w.push(self.src[i]);
                    proof {
                        assert(w@ =~= self@.src.subrange(word_start as int, i + 1 as int));
                    }
                    i = i + 1;
                }
                self.idx = end;
                return w;
            }
        }
        // direct scan; remember the scanned window
        proof {
            lemma_word_end(self@.src, word_start as int);
        }
        let mut w: Vec<char> = Vec::new();
        loop
            invariant
                self.wf(),
                self@.src == old(self)@.src,
                self@.cache == old(self)@.cache,
                word_start <= self@.idx <= self@.src.len(),
                w@ == self@.src.subrange(word_start as int, self@.idx),
                forall|k: int| word_start <= k < self@.idx ==> is_word_char(self@.src[k]),
                word_end(self@.src, self@.idx) == word_end(self@.src, word_start as int),
                self@.start == (if old(self)@.start is Some {
                    old(self)@.start
                } else {
                    Some(ws_end(old(self)@.src, old(self)@.idx))
                }),
            ensures
                self.wf(),
                self@.src == old(self)@.src,
                self@.cache == old(self)@.cache,
                word_start <= self@.idx <= self@.src.len(),
                w@ == self@.src.subrange(word_start as int, self@.idx),
                self@.idx == word_end(self@.src, word_start as int),
                word_at(self@.src, word_start as int, self@.idx),
                self@.start == (if old(self)@.start is Some {
                    old(self)@.start
                } else {
                    Some(ws_end(old(self)@.src, old(self)@.idx))
                }),
            decreases self@.src.len() - self@.idx,
        {
            match self.peek() {
                Some(c) if is_word_char_exec(c) => {
                    let _ = self.next();
                    w.push(c);
                    proof {
                        assert(w@ =~= self@.src.subrange(word_start as int, self@.idx));
                    }
                }
                _ => {
                    break ;
                }
            }
        }
        let word_end_idx = self.idx;
        self.cache = Some((word_start, word_end_idx));
        w
    }

    /// Takes the digit run at the cursor: skips whitespace, marks the
    /// start of the attempt if unmarked, then consumes the maximal run of
    /// decimal digits and returns it. Digit runs are not word-shaped, so
    /// the word cache is left alone.
    pub fn take_digits(&mut self) -> (w: Vec<char>)
        requires
            old(self).wf(),
        ensures
            final(self).wf(),
            final(self)@.src == old(self)@.src,
            final(self)@.cache == old(self)@.cache,
            ({
                let s = ws_end(old(self)@.src, old(self)@.idx);
                let e = digit_end(old(self)@.src, s);
                &&& final(self)@.idx == e
                &&& w@ == old(self)@.src.subrange(s, e)
                &&& final(self)@.start == (if old(self)@.start is Some {
                    old(self)@.start
                } else {
                    Some(s)
                })
            }),
    {
        self.skip_whitespace();
        self.start_taking();
        let run_start = self.idx;
        proof {
            lemma_ws_end(self@.src, old(self)@.idx);
            lemma_digit_end(self@.src, run_start as int);
        }
        let mut w: Vec<char> = Vec::new();
        loop
            invariant
                self.wf(),
                self@.src == old(self)@.src,
                self@.cache == old(self)@.cache,
                run_start <= self@.idx <= self@.src.len(),
                w@ == self@.src.subrange(run_start as int, self@.idx),
                forall|k: int| run_start <= k < self@.idx ==> is_digit(self@.src[k]),
                digit_end(self@.src, self@.idx) == digit_end(self@.src, run_start as int),
                self@.start == (if old(self)@.start is Some {
                    old(self)@.start
                } else {
                    Some(ws_end(old(self)@.src, old(self)@.idx))
                }),
            ensures
                self.wf(),
                self@.src == old(self)@.src,
                self@.cache == old(self)@.cache,
                w@ == self@.src.subrange(run_start as int, self@.idx),
                self@.idx == digit_end(self@.src, run_start as int),
                self@.start == (if old(self)@.start is Some {
                    old(self)@.start
                } else {
                    Some(ws_end(old(self)@.src, old(self)@.idx))
                }),
            decreases self@.src.len() - self@.idx,
        {
            match self.peek() {
                Some(c) if is_digit_exec(c) => {
                    let _ = self.next();
                    w.push(c);
                    proof {
                        assert(w@ =~= self@.src.subrange(run_start as int, self@.idx));
                    }
                }
                _ => {
                    break ;
                }
            }
        }
        w
    }

    /// The span selected by the current attempt.
    pub fn selection(&self) -> (s: Span)
        requires
            self.wf(),
        ensures
            s == self@.selection(),
            s.wf(),
            s.end <= self@.src.len() || (self@.start is Some && s.end == self@.idx),
    {
        match self.start_idx {
            Some(s) => Span { start: s, end: self.idx },
            None => {
                if self.idx < self.src.len() {
                    Span { start: self.idx, end: self.idx + 1 }
                } else {
                    Span { start: self.idx, end: self.idx }
                }
            }
        }
    }

    /// Wraps a value in a token carrying the current selection.
    pub fn new_token<T>(&self, t: T) -> (tk: PU<T>)
        requires
            self.wf(),
        ensures
            tk.span == self@.selection(),
            tk.item == t,
    {
        PU { span: self.selection(), item: t }
    }

    /// Finishes a successful parse: the value, with the attempt's span.
    pub fn finish<T>(&mut self, t: T) -> (r: ParseResult<T>)
        requires
            old(self).wf(),
        ensures
            *final(self) == *old(self),
            match r {
                Ok(tk) => tk.span == old(self)@.selection() && tk.item == t,
                Err(_) => false,
            },
    {
        let tk = self.new_token(t);
        Ok(tk)
    }

    /// Builds a hard error at the current selection.
    pub fn new_error(&mut self, reason: &str) -> (e: ParseError)
        requires
            old(self).wf(),
        ensures
            *final(self) == *old(self),
            e.span == old(self)@.selection(),
            e.reason@ == reason@,
    {
        ParseError { span: self.selection(), reason: reason.to_owned() }
    }

    /// Finishes a failed parse with a hard error at the current
    /// selection: the committed, propagating kind of failure.
    pub fn throw<T>(&mut self, reason: &str) -> (r: ParseResult<T>)
        requires
            old(self).wf(),
        ensures
            *final(self) == *old(self),
            match r {
                Ok(_) => false,
                Err(e) => match e {
                    Some(pe) => pe.span == old(self)@.selection() && pe.reason@ == reason@,
                    None => false,
                },
            },
    {
        let e = self.new_error(reason);
        Err(Some(e))
    }

    /// Saves the cursor state and clears the attempt mark, so the rule
    /// run next records its own span.
    pub fn mark_attempt(&mut self) -> (m: AttemptMark)
        requires
            old(self).wf(),
        ensures
            final(self).wf(),
            final(self)@.src == old(self)@.src,
            final(self)@.idx == old(self)@.idx,
            final(self)@.start is None,
            final(self)@.cache == old(self)@.cache,
            m.idx_spec() == old(self)@.idx,
            m.start_spec() == old(self)@.start,
            m.cache_spec() == old(self)@.cache,
    {
        let m = AttemptMark { idx: self.idx, start: self.start_idx, cache: self.cache };
        self.start_idx = None;
        m
    }

    /// Applies the backtrack policy to the outcome of the attempt run
    /// since `m` was taken:
    /// - on success the position advances and the earliest attempt mark
    ///   is kept, while the scan cache reverts to the saved one;
    /// - on a soft mismatch position and mark are restored exactly (only
    ///   the resynchronised scan cache is kept), so the caller may try a
    ///   different alternative from the same starting position;
    /// - on a hard error the mark is restored but the position stays at
    ///   the failure point, preserving it for diagnostics.
    pub fn finish_attempt<T>(&mut self, m: AttemptMark, r: ParseResult<T>) -> (out: ParseResult<
        T,
    >)
        requires
            old(self).wf(),
            m.idx_spec() <= old(self)@.idx,
            m.start_spec() matches Some(s) ==> 0 <= s <= m.idx_spec(),
            m.cache_spec() matches Some((a, b)) ==> word_at(old(self)@.src, a, b),
            0 <= m.idx_spec(),
        ensures
            final(self).wf(),
            final(self)@.src == old(self)@.src,
            out == r,
            r matches Ok(t) ==> {
                &&& final(self)@.idx == old(self)@.idx
                &&& final(self)@.start == (if m.start_spec() is Some {
                    m.start_spec()
                } else {
                    old(self)@.start
                })
                &&& final(self)@.cache == m.cache_spec()
            },
            r matches Err(e) && e is Some ==> {
                &&& final(self)@.idx == old(self)@.idx
                &&& final(self)@.start == m.start_spec()
                &&& final(self)@.cache == m.cache_spec()
            },
            r matches Err(e) && e is None ==> {
                &&& final(self)@.idx == m.idx_spec()
                &&& final(self)@.start == m.start_spec()
                &&& final(self)@.cache == old(self)@.cache
            },
    {
        match &r {
            Ok(_) => {
                if self.start_idx.is_none() {
                    self.start_idx = m.start;
                } else {
                    if m.start.is_some() {
                        self.start_idx = m.start;
                    }
                }
                self.cache = m.cache;
            }
            Err(Some(_)) => {
                self.start_idx = m.start;
                self.cache = m.cache;
            }
            Err(None) => {
                self.idx = m.idx;
                self.start_idx = m.start;
            }
        }
        r
    }
}

} // verus!
