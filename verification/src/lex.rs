//! Character classes and the two scans every grammar rule is built from:
//! skipping a run of whitespace and taking a maximal run of word
//! characters. Both scans are specified by deterministic spec functions
//! (`ws_end`, `word_end`) so that every contract downstream can name the
//! exact offsets a scan reaches.

use vstd::prelude::*;

verus! {

/// Whitespace: the ASCII whitespace characters.
pub open spec fn is_ws(c: char) -> bool {
    c == ' ' || c == '\t' || c == '\n' || c == '\r' || c == '\x0c'
}

/// A word character: ASCII letters, digits, and the underscore. Words are
/// the atoms of the grammar: keywords, operators, identifiers, number
/// literals and literal bodies are all whole words.
pub open spec fn is_word_char(c: char) -> bool {
    ('a' <= c && c <= 'z') || ('A' <= c && c <= 'Z') || ('0' <= c && c <= '9') || c == '_'
}

pub open spec fn is_digit(c: char) -> bool {
    '0' <= c && c <= '9'
}

pub open spec fn is_alpha(c: char) -> bool {
    ('a' <= c && c <= 'z') || ('A' <= c && c <= 'Z')
}

pub fn is_ws_exec(c: char) -> (b: bool)
    ensures
        b == is_ws(c),
{
    c == ' ' || c == '\t' || c == '\n' || c == '\r' || c == '\x0c'
}

pub fn is_word_char_exec(c: char) -> (b: bool)
    ensures
        b == is_word_char(c),
{
    ('a' <= c && c <= 'z') || ('A' <= c && c <= 'Z') || ('0' <= c && c <= '9') || c == '_'
}

pub fn is_digit_exec(c: char) -> (b: bool)
    ensures
        b == is_digit(c),
{
    '0' <= c && c <= '9'
}

pub fn is_alpha_exec(c: char) -> (b: bool)
    ensures
        b == is_alpha(c),
{
    ('a' <= c && c <= 'z') || ('A' <= c && c <= 'Z')
}

/// The offset of the first non-whitespace character at or after `i`.
pub open spec fn ws_end(src: Seq<char>, i: int) -> int
    decreases src.len() - i,
{
    if 0 <= i && i < src.len() && is_ws(src[i]) {
        ws_end(src, i + 1)
    } else {
        i
    }
}

/// The offset of the first non-word character at or after `i`: the end of
/// the word starting at `i` (equal to `i` when no word starts there).
pub open spec fn word_end(src: Seq<char>, i: int) -> int
    decreases src.len() - i,
{
    if 0 <= i && i < src.len() && is_word_char(src[i]) {
        word_end(src, i + 1)
    } else {
        i
    }
}

/// The offset of the first non-digit character at or after `i`: the end
/// of the digit run starting at `i`.
pub open spec fn digit_end(src: Seq<char>, i: int) -> int
    decreases src.len() - i,
{
    if 0 <= i && i < src.len() && is_digit(src[i]) {
        digit_end(src, i + 1)
    } else {
        i
    }
}

/// Every character in `[i, j)` is whitespace.
pub open spec fn ws_only(src: Seq<char>, i: int, j: int) -> bool {
    forall|k: int| i <= k < j ==> is_ws(src[k])
}

/// `[i, j)` is a word that ends exactly at `j`: all word characters, and
/// `j` is either the end of the source or a non-word character.
pub open spec fn word_at(src: Seq<char>, i: int, j: int) -> bool {
    &&& 0 <= i <= j <= src.len()
    &&& (forall|k: int| i <= k < j ==> is_word_char(src[k]))
    &&& (j == src.len() || !is_word_char(src[j]))
}

/// `[i, j)` is a nonempty digit run that ends exactly at `j`.
pub open spec fn digit_at(src: Seq<char>, i: int, j: int) -> bool {
    &&& 0 <= i < j <= src.len()
    &&& (forall|k: int| i <= k < j ==> is_digit(src[k]))
    &&& (j == src.len() || !is_digit(src[j]))
}

pub proof fn lemma_digit_end(src: Seq<char>, i: int)
    requires
        0 <= i <= src.len(),
    ensures
        i <= digit_end(src, i) <= src.len(),
        forall|k: int| i <= k < digit_end(src, i) ==> is_digit(src[k]),
        digit_end(src, i) == src.len() || !is_digit(src[digit_end(src, i)]),
    decreases src.len() - i,
{
    if i < src.len() && is_digit(src[i]) {
        lemma_digit_end(src, i + 1);
    }
}

pub proof fn lemma_ws_end(src: Seq<char>, i: int)
    requires
        0 <= i <= src.len(),
    ensures
        i <= ws_end(src, i) <= src.len(),
        ws_only(src, i, ws_end(src, i)),
        ws_end(src, i) == src.len() || !is_ws(src[ws_end(src, i)]),
    decreases src.len() - i,
{
    if i < src.len() && is_ws(src[i]) {
        lemma_ws_end(src, i + 1);
    }
}

/// Skipping whitespace reaches a fixed point.
pub proof fn lemma_ws_end_idempotent(src: Seq<char>, i: int)
    requires
        0 <= i <= src.len(),
    ensures
        ws_end(src, ws_end(src, i)) == ws_end(src, i),
{
    lemma_ws_end(src, i);
}

/// A word character is never whitespace.
pub proof fn lemma_word_char_not_ws(c: char)
    ensures
        is_word_char(c) ==> !is_ws(c),
{
}

pub proof fn lemma_word_end(src: Seq<char>, i: int)
    requires
        0 <= i <= src.len(),
    ensures
        i <= word_end(src, i) <= src.len(),
        word_at(src, i, word_end(src, i)),
    decreases src.len() - i,
{
    if i < src.len() && is_word_char(src[i]) {
        lemma_word_end(src, i + 1);
    }
}

/// A word run is its own scan: if `[i, j)` are word characters and the run
/// is maximal at `j`, then scanning from any offset inside the run ends at
/// `j`. This is what makes serving a scan from the cached window sound.
pub proof fn lemma_word_end_of_run(src: Seq<char>, i: int, j: int)
    requires
        word_at(src, i, j),
    ensures
        word_end(src, i) == j,
    decreases j - i,
{
    if i < j {
        lemma_word_end_of_run(src, i + 1, j);
    }
}

/// The word starting at an offset ends at exactly one place.
pub proof fn lemma_word_at_unique(src: Seq<char>, i: int, j1: int, j2: int)
    requires
        word_at(src, i, j1),
        word_at(src, i, j2),
    ensures
        j1 == j2,
{
    lemma_word_end_of_run(src, i, j1);
    lemma_word_end_of_run(src, i, j2);
}

/// A digit run is its own scan: scanning digits from the start of a
/// maximal run ends at the run's end.
pub proof fn lemma_digit_end_of_run(src: Seq<char>, i: int, j: int)
    requires
        digit_at(src, i, j),
    ensures
        digit_end(src, i) == j,
{
    lemma_digit_end_of_run_inner(src, i, j);
}

proof fn lemma_digit_end_of_run_inner(src: Seq<char>, i: int, j: int)
    requires
        0 <= i <= j <= src.len(),
        forall|k: int| i <= k < j ==> is_digit(src[k]),
        j == src.len() || !is_digit(src[j]),
    ensures
        digit_end(src, i) == j,
    decreases j - i,
{
    if i < j {
        lemma_digit_end_of_run_inner(src, i + 1, j);
    }
}

/// The numeric value of a run of decimal digit characters.
pub open spec fn digit_val(c: char) -> int {
    c as int - '0' as int
}

pub open spec fn digits_val(s: Seq<char>) -> int
    decreases s.len(),
{
    if s.len() == 0 {
        0
    } else {
        digits_val(s.drop_last()) * 10 + digit_val(s.last())
    }
}

/// The value of a digit run is never negative.
pub proof fn lemma_digits_val_nonneg(s: Seq<char>)
    requires
        forall|k: int| 0 <= k < s.len() ==> is_digit(s[k]),
    ensures
        digits_val(s) >= 0,
    decreases s.len(),
{
    if s.len() > 0 {
        lemma_digits_val_nonneg(s.drop_last());
        assert(digit_val(s.last()) >= 0);
        assert(digits_val(s.drop_last()) * 10 >= 0) by (nonlinear_arith)
            requires
                digits_val(s.drop_last()) >= 0,
        {
        }
    }
}

/// The value of a digit run never shrinks as the run is extended: every
/// prefix of a digit run has a value at most the whole run's value.
pub proof fn lemma_digits_val_prefix_le(s: Seq<char>, i: int)
    requires
        forall|k: int| 0 <= k < s.len() ==> is_digit(s[k]),
        0 <= i <= s.len(),
    ensures
        digits_val(s.take(i)) <= digits_val(s),
    decreases s.len() - i,
{
    if i < s.len() {
        lemma_digits_val_prefix_le(s, i + 1);
        let pre = s.take(i + 1);
        assert(pre.drop_last() =~= s.take(i));
        assert(pre.last() == s[i]);
        lemma_digits_val_nonneg(s.take(i));
        assert(digits_val(s.take(i)) * 10 >= digits_val(s.take(i))) by (nonlinear_arith)
            requires
                digits_val(s.take(i)) >= 0,
        {
        }
        assert(digit_val(s[i]) >= 0);
    } else {
        assert(s.take(s.len() as int) =~= s);
    }
}

} // verus!
