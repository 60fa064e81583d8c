//! The keyword table: the finite set of reserved structural words of the
//! language, each a whole pinyin word, mapped to its tag. Lookup runs on
//! a word the scanner already isolated, so a keyword can never be taken
//! for the prefix of a longer, unrelated word.

use vstd::prelude::*;
use vstd::string::StrSliceExecFns;

verus! {

/// The structural keywords.
#[derive(Clone, Copy, Debug, PartialEq, Eq, Structural)]
pub enum Symbol {
    /// `ya1`: left delimiter of a call form.
    FnCallL,
    /// `ru4`: right delimiter of a call form.
    FnCallR,
    /// `he2`: closing bracket.
    BracketR,
    /// `han2`: opens a block initializer.
    Block,
    /// `can1`: opens a parameter list or a bracketed expression.
    Parameter,
    /// `shi4`: starts a comment.
    Comment,
    /// `jie2`: closes a `han2` or `can1` opener.
    Jie2,
    /// `fen1`: separates arguments.
    Semicolon,
    /// `wei2`: assignment.
    Assign,
    /// `de1`: element access.
    GetElement,
    /// `biao1`: a label.
    Label,
    /// `wen2`: prefixes a character literal.
    Char,
    /// `chuan4`: prefixes a string literal.
    String,
}

/// The lexeme of each keyword.
pub open spec fn sym_lexeme(s: Symbol) -> Seq<char> {
    match s {
        Symbol::FnCallL => "ya1"@,
        Symbol::FnCallR => "ru4"@,
        Symbol::BracketR => "he2"@,
        Symbol::Block => "han2"@,
        Symbol::Parameter => "can1"@,
        Symbol::Comment => "shi4"@,
        Symbol::Jie2 => "jie2"@,
        Symbol::Semicolon => "fen1"@,
        Symbol::Assign => "wei2"@,
        Symbol::GetElement => "de1"@,
        Symbol::Label => "biao1"@,
        Symbol::Char => "wen2"@,
        Symbol::String => "chuan4"@,
    }
}

/// A word is reserved as a keyword when it equals some keyword's lexeme.
pub open spec fn is_keyword(w: Seq<char>) -> bool {
    exists|s: Symbol| w == sym_lexeme(s)
}

pub fn sym_lexeme_str(s: Symbol) -> (r: &'static str)
    ensures
        r@ == sym_lexeme(s),
{
    match s {
        Symbol::FnCallL => "ya1",
        Symbol::FnCallR => "ru4",
        Symbol::BracketR => "he2",
        Symbol::Block => "han2",
        Symbol::Parameter => "can1",
        Symbol::Comment => "shi4",
        Symbol::Jie2 => "jie2",
        Symbol::Semicolon => "fen1",
        Symbol::Assign => "wei2",
        Symbol::GetElement => "de1",
        Symbol::Label => "biao1",
        Symbol::Char => "wen2",
        Symbol::String => "chuan4",
    }
}

/// Compares a scanned word against a known string.
pub fn chars_eq_str(w: &Vec<char>, s: &str) -> (b: bool)
    ensures
        b == (w@ == s@),
{
    let n = s.unicode_len();
    if w.len() != n {
        proof {
            assert(w@.len() != s@.len());
        }
        return false;
    }
    let mut i: usize = 0;
    while i < n
        invariant
            0 <= i <= n,
            n == s@.len(),
            w@.len() == n,
            forall|k: int| 0 <= k < i ==> w@[k] == s@[k],
        decreases n - i,
    {
        if w[i] != s.get_char(i) {
            return false;
        }
        i = i + 1;
    }
    proof {
        assert(w@ =~= s@);
    }
    true
}

/// Looks a word up in the keyword table: its tag if it is a keyword,
/// nothing if it falls through as a generic word.
pub fn sym_lookup(w: &Vec<char>) -> (r: Option<Symbol>)
    ensures
        match r {
            Some(s) => w@ == sym_lexeme(s),
            None => !is_keyword(w@),
        },
{
    if chars_eq_str(w, "ya1") {
        Some(Symbol::FnCallL)
    } else if chars_eq_str(w, "ru4") {
        Some(Symbol::FnCallR)
    } else if chars_eq_str(w, "he2") {
        Some(Symbol::BracketR)
    } else if chars_eq_str(w, "han2") {
        Some(Symbol::Block)
    } else if chars_eq_str(w, "can1") {
        Some(Symbol::Parameter)
    } else if chars_eq_str(w, "shi4") {
        Some(Symbol::Comment)
    } else if chars_eq_str(w, "jie2") {
        Some(Symbol::Jie2)
    } else if chars_eq_str(w, "fen1") {
        Some(Symbol::Semicolon)
    } else if chars_eq_str(w, "wei2") {
        Some(Symbol::Assign)
    } else if chars_eq_str(w, "de1") {
        Some(Symbol::GetElement)
    } else if chars_eq_str(w, "biao1") {
        Some(Symbol::Label)
    } else if chars_eq_str(w, "wen2") {
        Some(Symbol::Char)
    } else if chars_eq_str(w, "chuan4") {
        Some(Symbol::String)
    } else {
        proof {
            assert forall|s: Symbol| w@ != sym_lexeme(s) by {
                match s {
                    Symbol::FnCallL => assert(w@ != "ya1"@),
                    Symbol::FnCallR => assert(w@ != "ru4"@),
                    Symbol::BracketR => assert(w@ != "he2"@),
                    Symbol::Block => assert(w@ != "han2"@),
                    Symbol::Parameter => assert(w@ != "can1"@),
                    Symbol::Comment => assert(w@ != "shi4"@),
                    Symbol::Jie2 => assert(w@ != "jie2"@),
                    Symbol::Semicolon => assert(w@ != "fen1"@),
                    Symbol::Assign => assert(w@ != "wei2"@),
                    Symbol::GetElement => assert(w@ != "de1"@),
                    Symbol::Label => assert(w@ != "biao1"@),
                    Symbol::Char => assert(w@ != "wen2"@),
                    Symbol::String => assert(w@ != "chuan4"@),
                }
            }
        }
        None
    }
}

} // verus!
