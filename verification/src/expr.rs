//! The grammar rules: leaf rules for words, keywords, operators,
//! identifiers and literals, and the composite expression rules built on
//! the attempt machinery, including the precedence-climbing expression
//! parser.

use vstd::prelude::*;

use crate::ast::{
    args_rel, atomic_rel, bracket_rel, char_lit_rel, char_value, escape_spec, expr_rel,
    fncall_rel, ident_rel, init_rel, left_prio_ok, lemma_atomic_nonempty, lemma_expr_nonempty,
    lemma_op_lexeme_nonempty, lemma_sym_lexeme_nonempty, num_rel, op_tok_rel, right_prio_ok,
    root_op, str_lit_rel, sym_tok_rel, unary_rel, unescape, Arguments, AtomicExpr, BracketExpr,
    CharLiteral, Expr, FnCall, Ident, Initialization, NumberLiteral, StringLiteral, UnaryExpr,
};
use crate::keywords::{chars_eq_str, is_keyword, sym_lexeme, sym_lexeme_str, sym_lookup, Symbol};
use crate::lex::{
    digit_end, digits_val, is_alpha, is_alpha_exec, is_digit, lemma_digit_end,
    lemma_digit_end_of_run, lemma_digits_val_prefix_le, lemma_word_end, lemma_word_end_of_run,
    lemma_ws_end, word_at, word_end, ws_end, ws_only,
};
use crate::ops::{
    is_binary_op_word, is_operator_word, is_unary_op_word, op_assoc, op_lexeme, op_lookup,
    op_priority, OperatorAssociativity, Operators,
};
use crate::span::{fail_of, ok_of, outcome_is_ok, outcome_is_soft};
use crate::parse_unit::ParseUnit;
use crate::parser::Parser;
use crate::span::{ParseError, ParseResult, Span, PU};

verus! {

/// The first word at or after `i`, with whitespace skipped: the text the
/// next word scan would take.
pub open spec fn word_of(src: Seq<char>, i: int) -> Seq<char> {
    src.subrange(ws_end(src, i), word_end(src, ws_end(src, i)))
}

/// Where the first word at or after `i` ends.
pub open spec fn word_of_end(src: Seq<char>, i: int) -> int {
    word_end(src, ws_end(src, i))
}

/// No word starts at `i`: the next non-whitespace character, if any, is
/// not a word character.
pub open spec fn no_word_at(src: Seq<char>, i: int) -> bool {
    ws_end(src, i) == word_of_end(src, i)
}

/// When each rule may report a soft mismatch started at offset `i`.
pub open spec fn ident_soft(src: Seq<char>, i: int) -> bool {
    ||| no_word_at(src, i)
    ||| is_keyword(word_of(src, i))
    ||| is_operator_word(word_of(src, i))
}

pub open spec fn num_soft(src: Seq<char>, i: int) -> bool {
    ws_end(src, i) == digit_end(src, ws_end(src, i))
}

pub open spec fn op_soft(src: Seq<char>, i: int) -> bool {
    !is_operator_word(word_of(src, i))
}

pub open spec fn char_soft(src: Seq<char>, i: int) -> bool {
    ||| word_of(src, i) != sym_lexeme(Symbol::Char)
    ||| no_word_at(src, word_of_end(src, i))
}

pub open spec fn string_soft(src: Seq<char>, i: int) -> bool {
    ||| word_of(src, i) != sym_lexeme(Symbol::String)
    ||| no_word_at(src, word_of_end(src, i))
}

pub open spec fn fncall_soft(src: Seq<char>, i: int) -> bool {
    ||| ident_soft(src, i)
    ||| word_of(src, word_of_end(src, i)) != sym_lexeme(Symbol::Parameter)
}

pub open spec fn init_soft(src: Seq<char>, i: int) -> bool {
    word_of(src, i) != sym_lexeme(Symbol::Block)
}

pub open spec fn bracket_soft(src: Seq<char>, i: int) -> bool {
    word_of(src, i) != sym_lexeme(Symbol::Parameter)
}

/// An atomic expression falls through softly only when every one of its
/// candidate forms does.
pub open spec fn atomic_soft(src: Seq<char>, i: int) -> bool {
    &&& char_soft(src, i)
    &&& string_soft(src, i)
    &&& num_soft(src, i)
    &&& fncall_soft(src, i)
    &&& ident_soft(src, i)
    &&& op_soft(src, i)
    &&& init_soft(src, i)
    &&& bracket_soft(src, i)
}

/// An expression falls through softly exactly when its first atomic
/// operand does: once an operand or operator is consumed, the expression
/// rule is committed.
pub open spec fn expr_soft(src: Seq<char>, i: int) -> bool {
    atomic_soft(src, i)
}

/// When each rule may commit a hard error started at offset `i`: the
/// exact malformation it reports. A rule whose characterization is
/// `false` can never hard-fail, and on inputs where neither the rule's
/// soft nor its hard characterization holds, success is owed.
pub open spec fn ident_hard(src: Seq<char>, i: int) -> bool {
    let w = word_of(src, i);
    &&& w.len() > 0
    &&& !is_keyword(w)
    &&& !is_operator_word(w)
    &&& !(is_alpha(w[0]) || w[0] == '_')
}

pub open spec fn num_hard(src: Seq<char>, i: int) -> bool {
    let s = ws_end(src, i);
    &&& s < digit_end(src, s)
    &&& digits_val(src.subrange(s, digit_end(src, s))) > usize::MAX
}

pub open spec fn char_hard(src: Seq<char>, i: int) -> bool {
    &&& word_of(src, i) == sym_lexeme(Symbol::Char)
    &&& !no_word_at(src, word_of_end(src, i))
    &&& char_value(word_of(src, word_of_end(src, i))) is None
}

pub open spec fn string_hard(src: Seq<char>, i: int) -> bool {
    &&& word_of(src, i) == sym_lexeme(Symbol::String)
    &&& !no_word_at(src, word_of_end(src, i))
    &&& unescape(word_of(src, word_of_end(src, i))) is None
}

/// The initializer's arguments tile the region after the opener: each
/// starts at the first non-whitespace offset after its predecessor, the
/// closer starts right after the last one, and no further atomic form
/// begins there — so, given success, the argument count is pinned by the
/// text.
pub open spec fn init_chain(
    src: Seq<char>,
    lo: int,
    args: Vec<PU<AtomicExpr>>,
    hi: int,
) -> bool {
    let stop = if args.len() == 0 {
        lo
    } else {
        args[args.len() - 1].span.end as int
    };
    &&& forall|k: int|
        0 <= k < args.len() ==> (#[trigger] args[k]).span.start == ws_end(
            src,
            if k == 0 {
                lo
            } else {
                args[k - 1].span.end as int
            },
        )
    &&& hi == ws_end(src, stop)
    &&& atomic_soft(src, stop)
}

/// The call arguments tile the region after `lo`: the first starts at
/// the first non-whitespace offset, exactly one separator stands between
/// consecutive arguments, and no further separator follows the last —
/// so, given success, the argument and separator counts are pinned by
/// the text.
pub open spec fn args_chain(
    src: Seq<char>,
    lo: int,
    args: Vec<PU<Expr>>,
    semis: Vec<PU<Symbol>>,
) -> bool {
    if args.len() == 0 {
        semis.len() == 0
    } else {
        &&& semis.len() == args.len() - 1
        &&& args[0].span.start == ws_end(src, lo)
        &&& forall|k: int|
            0 <= k < semis.len() ==> {
                &&& sym_tok_rel(src, #[trigger] semis[k], Symbol::Semicolon)
                &&& semis[k].span.start == ws_end(src, args[k].span.end as int)
                &&& args[k + 1].span.start == ws_end(src, semis[k].span.end as int)
            }
        &&& word_of(src, args[args.len() - 1].span.end as int) != sym_lexeme(Symbol::Semicolon)
    }
}

/// A parsed call's argument list is pinned to the text: the arguments
/// and separators chain through the region after the opener, the closer
/// starts right after the last argument, and an empty list stands only
/// where no expression begins.
pub open spec fn fncall_args_pinned(src: Seq<char>, f: FnCall) -> bool {
    let args = f.args.item.args;
    let stop = if args.len() == 0 {
        f.han2.span.end as int
    } else {
        args[args.len() - 1].span.end as int
    };
    &&& args_chain(src, f.han2.span.end as int, args, f.args.item.semicolons)
    &&& f.jie2.span.start == ws_end(src, stop)
    &&& (args.len() == 0 ==> expr_soft(src, f.han2.span.end as int))
}


/// A functional acceptance model of the grammar, mirroring the rules one
/// to one: each function says at which offset the rule would succeed on
/// the text, with the same nesting allowance the rules take, or nothing
/// where the rule reports a mismatch or a malformation. The owed-success
/// clauses of the `parse_at` functions are stated over this model.
pub open spec fn sym_accept_end(src: Seq<char>, i: int, s: Symbol) -> Option<int> {
    if word_of(src, i) == sym_lexeme(s) {
        Some(word_of_end(src, i))
    } else {
        None
    }
}

pub open spec fn char_accept_end(src: Seq<char>, i: int) -> Option<int> {
    match sym_accept_end(src, i, Symbol::Char) {
        Some(j) => if !no_word_at(src, j) && char_value(word_of(src, j)) is Some {
            Some(word_of_end(src, j))
        } else {
            None
        },
        None => None,
    }
}

pub open spec fn string_accept_end(src: Seq<char>, i: int) -> Option<int> {
    match sym_accept_end(src, i, Symbol::String) {
        Some(j) => if !no_word_at(src, j) && unescape(word_of(src, j)) is Some {
            Some(word_of_end(src, j))
        } else {
            None
        },
        None => None,
    }
}

pub open spec fn number_accept_end(src: Seq<char>, i: int) -> Option<int> {
    if !num_soft(src, i) && !num_hard(src, i) {
        Some(number_end(src, i))
    } else {
        None
    }
}

pub open spec fn ident_accept_end(src: Seq<char>, i: int) -> Option<int> {
    if !ident_soft(src, i) && !ident_hard(src, i) {
        Some(word_of_end(src, i))
    } else {
        None
    }
}

pub open spec fn unary_accept_end(src: Seq<char>, i: int, depth: nat) -> Option<int>
    decreases depth, 0int,
{
    if depth == 0 {
        None
    } else if is_unary_op_word(word_of(src, i)) {
        atomic_accept_end(src, word_of_end(src, i), (depth - 1) as nat)
    } else {
        None
    }
}

pub open spec fn fncall_accept_end(src: Seq<char>, i: int, depth: nat) -> Option<int>
    decreases depth, 0int,
{
    if depth == 0 {
        None
    } else {
        match ident_accept_end(src, i) {
            Some(j) => match sym_accept_end(src, j, Symbol::Parameter) {
                Some(k) => match args_accept_end(src, k, (depth - 1) as nat) {
                    Some(m) => sym_accept_end(src, m, Symbol::Jie2),
                    None => None,
                },
                None => None,
            },
            None => None,
        }
    }
}

pub open spec fn init_accept_end(src: Seq<char>, i: int, depth: nat) -> Option<int>
    decreases depth, src.len() + 2,
{
    if depth == 0 {
        None
    } else {
        match sym_accept_end(src, i, Symbol::Block) {
            Some(j) => init_args_accept_end(src, j, depth, (src.len() + 1) as nat),
            None => None,
        }
    }
}

pub open spec fn init_args_accept_end(src: Seq<char>, j: int, depth: nat, steps: nat) -> Option<
    int,
>
    decreases depth, steps,
{
    if atomic_soft(src, j) {
        if depth >= 3 {
            sym_accept_end(src, j, Symbol::Jie2)
        } else {
            None
        }
    } else if steps == 0 || depth == 0 {
        None
    } else {
        match atomic_accept_end(src, j, (depth - 1) as nat) {
            Some(k) => init_args_accept_end(src, k, depth, (steps - 1) as nat),
            None => None,
        }
    }
}

pub open spec fn bracket_accept_end(src: Seq<char>, i: int, depth: nat) -> Option<int>
    decreases depth, 0int,
{
    if depth == 0 {
        None
    } else {
        match sym_accept_end(src, i, Symbol::Parameter) {
            Some(j) => match expr_accept_end(src, j, (depth - 1) as nat) {
                Some(k) => sym_accept_end(src, k, Symbol::Jie2),
                None => None,
            },
            None => None,
        }
    }
}

pub open spec fn args_accept_end(src: Seq<char>, i: int, depth: nat) -> Option<int>
    decreases depth, src.len() + 2,
{
    if depth == 0 {
        None
    } else if expr_soft(src, i) {
        if depth >= 4 {
            Some(i)
        } else {
            None
        }
    } else {
        match expr_accept_end(src, i, (depth - 1) as nat) {
            Some(j) => args_tail_accept_end(src, j, depth, (src.len() + 1) as nat),
            None => None,
        }
    }
}

pub open spec fn args_tail_accept_end(src: Seq<char>, j: int, depth: nat, steps: nat) -> Option<
    int,
>
    decreases depth, steps,
{
    if word_of(src, j) != sym_lexeme(Symbol::Semicolon) {
        Some(j)
    } else if steps == 0 || depth == 0 {
        None
    } else {
        match expr_accept_end(src, word_of_end(src, j), (depth - 1) as nat) {
            Some(k) => args_tail_accept_end(src, k, depth, (steps - 1) as nat),
            None => None,
        }
    }
}

/// The atomic dispatch, in its declared order: the first form whose soft
/// case does not hold decides, exactly as the alternation commits.
pub open spec fn atomic_accept_end(src: Seq<char>, i: int, depth: nat) -> Option<int>
    decreases depth, 0int,
{
    if depth == 0 {
        None
    } else if !char_soft(src, i) {
        char_accept_end(src, i)
    } else if !string_soft(src, i) {
        string_accept_end(src, i)
    } else if !num_soft(src, i) {
        number_accept_end(src, i)
    } else if depth <= 1 {
        None
    } else if !fncall_soft(src, i) {
        fncall_accept_end(src, i, (depth - 1) as nat)
    } else if !ident_soft(src, i) {
        ident_accept_end(src, i)
    } else if is_operator_word(word_of(src, i)) {
        if is_unary_op_word(word_of(src, i)) {
            unary_accept_end(src, i, (depth - 1) as nat)
        } else {
            None
        }
    } else if !init_soft(src, i) {
        init_accept_end(src, i, (depth - 1) as nat)
    } else if !bracket_soft(src, i) {
        bracket_accept_end(src, i, (depth - 1) as nat)
    } else {
        None
    }
}

pub open spec fn expr_accept_end(src: Seq<char>, i: int, depth: nat) -> Option<int>
    decreases depth, src.len() + 2,
{
    if depth == 0 {
        None
    } else {
        match atomic_accept_end(src, i, (depth - 1) as nat) {
            Some(j) => expr_tail_accept_end(src, j, depth, (src.len() + 1) as nat),
            None => None,
        }
    }
}

pub open spec fn expr_tail_accept_end(src: Seq<char>, j: int, depth: nat, steps: nat) -> Option<
    int,
>
    decreases depth, steps,
{
    if !is_operator_word(word_of(src, j)) {
        Some(j)
    } else if !is_binary_op_word(word_of(src, j)) {
        None
    } else if steps == 0 || depth == 0 {
        None
    } else {
        match atomic_accept_end(src, word_of_end(src, j), (depth - 1) as nat) {
            Some(k) => expr_tail_accept_end(src, k, depth, (steps - 1) as nat),
            None => None,
        }
    }
}

/// Where the digit run opening at `i` ends.
pub open spec fn number_end(src: Seq<char>, i: int) -> int {
    digit_end(src, ws_end(src, i))
}

/// A digit cannot open a keyword or an operator word: the word starting
/// with it is no lexeme of either table.
pub proof fn lemma_digit_starts_no_lexeme(src: Seq<char>, i: int)
    requires
        0 <= i <= src.len(),
        !num_soft(src, i),
    ensures
        word_of(src, i) != sym_lexeme(Symbol::Char),
        word_of(src, i) != sym_lexeme(Symbol::String),
{
    lemma_ws_end(src, i);
    lemma_digit_end(src, ws_end(src, i));
    assert(is_digit(src[ws_end(src, i)]));
    lemma_word_end(src, ws_end(src, i));
    assert(word_of(src, i)[0] == src[ws_end(src, i)]);
    crate::ast::lemma_sym_lexeme_nonempty(Symbol::Char);
    crate::ast::lemma_sym_lexeme_nonempty(Symbol::String);
    lemma_sym_first_char_not_digit(Symbol::Char);
    lemma_sym_first_char_not_digit(Symbol::String);
}

/// The first character of these keywords is a letter, never a digit.
proof fn lemma_sym_first_char_not_digit(s: Symbol)
    ensures
        sym_lexeme(s).len() > 0,
        !is_digit(sym_lexeme(s)[0]),
{
    match s {
        Symbol::FnCallL => reveal_strlit("ya1"),
        Symbol::FnCallR => reveal_strlit("ru4"),
        Symbol::BracketR => reveal_strlit("he2"),
        Symbol::Block => reveal_strlit("han2"),
        Symbol::Parameter => reveal_strlit("can1"),
        Symbol::Comment => reveal_strlit("shi4"),
        Symbol::Jie2 => reveal_strlit("jie2"),
        Symbol::Semicolon => reveal_strlit("fen1"),
        Symbol::Assign => reveal_strlit("wei2"),
        Symbol::GetElement => reveal_strlit("de1"),
        Symbol::Label => reveal_strlit("biao1"),
        Symbol::Char => reveal_strlit("wen2"),
        Symbol::String => reveal_strlit("chuan4"),
    }
}


/// The unary and binary operator classes share no lexeme, and either
/// class is an operator word.
pub proof fn lemma_op_word_classes(w: Seq<char>)
    ensures
        is_unary_op_word(w) ==> is_operator_word(w) && !is_binary_op_word(w),
        is_binary_op_word(w) ==> is_operator_word(w) && !is_unary_op_word(w),
{
    reveal_strlit("jia1");
    reveal_strlit("jian3");
    reveal_strlit("cheng2");
    reveal_strlit("chu2");
    reveal_strlit("fei1");
    if is_unary_op_word(w) {
        let o = choose|o: Operators|
            w == op_lexeme(o) && op_assoc(o) == OperatorAssociativity::Unary;
        assert(w == op_lexeme(o));
        assert(o == Operators::Not);
        assert("fei1"@[0] == 'f');
        if is_binary_op_word(w) {
            let b = choose|b: Operators|
                w == op_lexeme(b) && op_assoc(b) == OperatorAssociativity::Binary;
            match b {
                Operators::Add => assert("jia1"@[0] == 'j'),
                Operators::Sub => assert("jian3"@[0] == 'j'),
                Operators::Mul => assert("cheng2"@[0] == 'c'),
                Operators::Div => assert("chu2"@[0] == 'c'),
                Operators::Not => {},
            }
        }
    }
    if is_binary_op_word(w) {
        let b = choose|b: Operators|
            w == op_lexeme(b) && op_assoc(b) == OperatorAssociativity::Binary;
        assert(w == op_lexeme(b));
        assert("fei1"@[0] == 'f');
        if is_unary_op_word(w) {
            match b {
                Operators::Add => assert("jia1"@[0] == 'j'),
                Operators::Sub => assert("jian3"@[0] == 'j'),
                Operators::Mul => assert("cheng2"@[0] == 'c'),
                Operators::Div => assert("chu2"@[0] == 'c'),
                Operators::Not => {},
            }
        }
    }
}

/// The identifier rule's hard case cannot stand where no digit run
/// starts: a word character that is neither a letter nor an underscore
/// is a digit.
proof fn lemma_ident_hard_starts_digit(src: Seq<char>, i: int)
    requires
        ident_hard(src, i),
        0 <= i <= src.len(),
    ensures
        !num_soft(src, i),
{
    lemma_ws_end(src, i);
    lemma_word_end(src, ws_end(src, i));
    assert(word_of(src, i).len() == word_of_end(src, i) - ws_end(src, i));
    assert(word_of(src, i)[0] == src[ws_end(src, i)]);
    assert(crate::lex::is_word_char(src[ws_end(src, i)]));
    assert(is_digit(src[ws_end(src, i)]));
    lemma_digit_end(src, ws_end(src, i));
}


/// A keyword token standing at the next word pins that word: it is the
/// keyword's lexeme and ends where the token ends.
proof fn lemma_sym_tok_word(src: Seq<char>, x: int, tok: PU<Symbol>, s: Symbol)
    requires
        sym_tok_rel(src, tok, s),
        tok.span.start == ws_end(src, x),
    ensures
        word_of(src, x) == sym_lexeme(s),
        word_of_end(src, x) == tok.span.end,
        sym_accept_end(src, x, s) == Some(tok.span.end as int),
{
    lemma_word_end_of_run(src, tok.span.start as int, tok.span.end as int);
    assert(word_of(src, x) =~= sym_lexeme(s));
}

/// An operator token standing at the next word pins that word likewise.
proof fn lemma_op_tok_word(src: Seq<char>, x: int, tok: PU<Operators>)
    requires
        op_tok_rel(src, tok),
        tok.span.start == ws_end(src, x),
    ensures
        word_of(src, x) == op_lexeme(tok.item),
        word_of_end(src, x) == tok.span.end,
        is_operator_word(word_of(src, x)),
{
    lemma_word_end_of_run(src, tok.span.start as int, tok.span.end as int);
    assert(word_of(src, x) =~= op_lexeme(tok.item));
}

/// An identifier standing at the next word pins the word and rules both
/// of the identifier rule's failure cases out.
proof fn lemma_ident_tok_word(src: Seq<char>, x: int, span: Span, id: Ident)
    requires
        ident_rel(src, span, id),
        span.start == ws_end(src, x),
    ensures
        word_of(src, x) == id.ident.item@,
        word_of_end(src, x) == span.end,
        !ident_soft(src, x),
        !ident_hard(src, x),
        ident_accept_end(src, x) == Some(span.end as int),
{
    lemma_word_end_of_run(src, span.start as int, span.end as int);
    assert(word_of(src, x) =~= id.ident.item@);
    assert(word_of(src, x)[0] == src[span.start as int]);
}

/// A parsed character literal at the next word means the model accepts
/// there, ending where the literal ends.
proof fn lemma_char_rel_pins(src: Seq<char>, i: int, span: Span, c: CharLiteral)
    requires
        char_lit_rel(src, span, c),
        span.start == ws_end(src, i),
    ensures
        !char_soft(src, i),
        char_accept_end(src, i) == Some(span.end as int),
{
    lemma_sym_tok_word(src, i, c.zi4, Symbol::Char);
    lemma_word_end_of_run(src, c.unparsed.span.start as int, c.unparsed.span.end as int);
    assert(word_of(src, c.zi4.span.end as int) =~= c.unparsed.item@);
}

/// A parsed string literal at the next word likewise.
proof fn lemma_string_rel_pins(src: Seq<char>, i: int, span: Span, st: StringLiteral)
    requires
        str_lit_rel(src, span, st),
        span.start == ws_end(src, i),
    ensures
        !string_soft(src, i),
        string_accept_end(src, i) == Some(span.end as int),
{
    lemma_sym_tok_word(src, i, st.chuan4, Symbol::String);
    lemma_word_end_of_run(src, st.unparsed.span.start as int, st.unparsed.span.end as int);
    assert(word_of(src, st.chuan4.span.end as int) =~= st.unparsed.item@);
}

/// A parsed number literal at the next digit run likewise.
proof fn lemma_num_rel_pins(src: Seq<char>, i: int, span: Span, n: NumberLiteral)
    requires
        num_rel(src, span, n),
        span.start == ws_end(src, i),
    ensures
        !num_soft(src, i),
        number_accept_end(src, i) == Some(span.end as int),
{
    lemma_digit_end_of_run(src, span.start as int, span.end as int);
    match n {
        NumberLiteral::Digit { number } => {
            assert(digits_val(src.subrange(span.start as int, span.end as int)) <= usize::MAX);
        },
    }
}

/// A successfully parsed identifier starting at the next word leaves no
/// room for the identifier rule to have fallen through softly there.
pub proof fn lemma_ident_rel_not_soft(src: Seq<char>, i: int, span: Span, id: Ident)
    requires
        ident_rel(src, span, id),
        span.start == ws_end(src, i),
    ensures
        !ident_soft(src, i),
{
    lemma_word_end_of_run(src, span.start as int, span.end as int);
    assert(word_of(src, i) =~= id.ident.item@);
}

/// The identifier rule's hard case (an unreserved word that starts
/// badly) excludes its soft case: the word is there and unreserved.
pub proof fn lemma_ident_hard_not_soft(src: Seq<char>, i: int)
    requires
        ident_hard(src, i),
        0 <= i <= src.len(),
    ensures
        !ident_soft(src, i),
{
    lemma_ws_end(src, i);
    lemma_word_end(src, ws_end(src, i));
    assert(word_of(src, i).len() == word_of_end(src, i) - ws_end(src, i));
}

/// A successfully parsed atomic expression starting at the next word
/// leaves no room for the atomic dispatch to have fallen through softly
/// there: the form that matched contradicts its own soft case.
pub proof fn lemma_atomic_rel_not_soft(src: Seq<char>, i: int, span: Span, a: AtomicExpr)
    requires
        atomic_rel(src, span, a),
        span.start == ws_end(src, i),
    ensures
        !atomic_soft(src, i),
{
    match a {
        AtomicExpr::CharLiteral(c) => {
            lemma_word_end_of_run(src, c.zi4.span.start as int, c.zi4.span.end as int);
            assert(word_of(src, i) =~= sym_lexeme(Symbol::Char));
            lemma_word_end_of_run(
                src,
                c.unparsed.span.start as int,
                c.unparsed.span.end as int,
            );
            assert(!char_soft(src, i));
        },
        AtomicExpr::StringLiteral(st) => {
            lemma_word_end_of_run(src, st.chuan4.span.start as int, st.chuan4.span.end as int);
            assert(word_of(src, i) =~= sym_lexeme(Symbol::String));
            lemma_word_end_of_run(
                src,
                st.unparsed.span.start as int,
                st.unparsed.span.end as int,
            );
            assert(!string_soft(src, i));
        },
        AtomicExpr::NumberLiteral(n) => {
            lemma_digit_end_of_run(src, span.start as int, span.end as int);
            assert(!num_soft(src, i));
        },
        AtomicExpr::Variable(v) => {
            lemma_ident_rel_not_soft(src, i, span, v);
        },
        AtomicExpr::FnCall(f) => {
            lemma_ident_rel_not_soft(src, i, f.fn_name.span, f.fn_name.item);
        },
        AtomicExpr::UnaryExpr(u) => {
            lemma_word_end_of_run(src, u.operator.span.start as int, u.operator.span.end as int);
            assert(word_of(src, i) =~= op_lexeme(u.operator.item));
            assert(!op_soft(src, i));
        },
        AtomicExpr::Initialization(ini) => {
            lemma_word_end_of_run(src, ini.han2.span.start as int, ini.han2.span.end as int);
            assert(word_of(src, i) =~= sym_lexeme(Symbol::Block));
            assert(!init_soft(src, i));
        },
        AtomicExpr::BracketExpr(b) => {
            lemma_word_end_of_run(src, b.can1.span.start as int, b.can1.span.end as int);
            assert(word_of(src, i) =~= sym_lexeme(Symbol::Parameter));
            assert(!bracket_soft(src, i));
        },
    }
}

/// A successfully parsed expression starting at the next word leaves no
/// room for the expression rule to have fallen through softly there.
pub proof fn lemma_expr_rel_not_soft(src: Seq<char>, i: int, span: Span, e: Expr)
    requires
        expr_rel(src, span, e),
        span.start == ws_end(src, i),
    ensures
        !expr_soft(src, i),
    decreases e,
{
    match e {
        Expr::Atomic(a) => {
            lemma_atomic_rel_not_soft(src, i, span, a);
        },
        Expr::Binary(l, o, r) => {
            lemma_expr_rel_not_soft(src, i, l.span, l.item);
        },
    }
}

impl Parser {
    /// Attempts to match one specific keyword: takes the next word and
    /// succeeds only when it is exactly the keyword's lexeme, restoring
    /// the cursor otherwise.
    pub fn match_sym(&mut self, expected: Symbol) -> (r: ParseResult<Symbol>)
        requires
            old(self).wf(),
        ensures
            final(self).wf(),
            final(self)@.src == old(self)@.src,
            old(self)@.idx <= final(self)@.idx,
            r matches Ok(t) ==> {
                &&& sym_tok_rel(old(self)@.src, t, expected)
                &&& t.span.start == ws_end(old(self)@.src, old(self)@.idx)
                &&& t.span.end == word_of_end(old(self)@.src, old(self)@.idx)
                &&& old(self)@.idx <= t.span.start <= t.span.end <= old(self)@.src.len()
                &&& t.span.end == final(self)@.idx
                &&& ws_only(old(self)@.src, old(self)@.idx, t.span.start as int)
                &&& final(self)@.start == (if old(self)@.start is Some {
                    old(self)@.start
                } else {
                    Some(t.span.start as int)
                })
                &&& final(self)@.cache == old(self)@.cache
            },
            r matches Err(e) ==> e is None,
            r matches Err(e) && e is None ==> {
                &&& final(self)@.idx == old(self)@.idx
                &&& final(self)@.start == old(self)@.start
                &&& word_of(old(self)@.src, old(self)@.idx) != sym_lexeme(expected)
            },
    {
        proof {
            lemma_ws_end(self@.src, self@.idx);
            lemma_word_end(self@.src, ws_end(self@.src, self@.idx));
        }
        let m = self.mark_attempt();
        let w = self.take_word();
        let lex = sym_lexeme_str(expected);
        let r: ParseResult<Symbol> = if chars_eq_str(&w, lex) {
            self.finish(expected)
        } else {
            Err(None)
        };
        self.finish_attempt(m, r)
    }
}

/// The generic word rule: the next whole word, whatever it says. Stands
/// wherever the grammar needs the raw text of a word.
pub struct Word;

impl ParseUnit for Word {
    type Target = Vec<char>;

    open spec fn wf_target(src: Seq<char>, t: PU<Vec<char>>) -> bool {
        &&& word_at(src, t.span.start as int, t.span.end as int)
        &&& t.span.start < t.span.end
        &&& t.item@ == src.subrange(t.span.start as int, t.span.end as int)
    }

    open spec fn soft_spec(src: Seq<char>, i: int) -> bool {
        no_word_at(src, i)
    }

    open spec fn hard_spec(src: Seq<char>, i: int) -> bool {
        false
    }

    fn parse(p: &mut Parser) -> (r: ParseResult<Vec<char>>) {
        proof {
            lemma_ws_end(p@.src, p@.idx);
            lemma_word_end(p@.src, ws_end(p@.src, p@.idx));
        }
        let w = p.take_word();
        if w.len() == 0 {
            Err(None)
        } else {
            p.finish(w)
        }
    }
}

/// Maps a recognized escape character to the character it stands for.
fn escape_opt(c: char) -> (r: Option<char>)
    ensures
        r == escape_spec(c),
{
    if c == '_' {
        Some('_')
    } else if c == 't' {
        Some('\t')
    } else if c == 'n' {
        Some('\n')
    } else if c == 's' {
        Some(' ')
    } else {
        None
    }
}

/// Resolves one escape character, or reports a hard error at the token
/// the escape stands in.
pub fn escape(src: &PU<Vec<char>>, c: char) -> (r: Result<char, Option<ParseError>>)
    ensures
        r matches Ok(ch) ==> escape_spec(c) == Some(ch),
        r matches Err(e) ==> {
            &&& escape_spec(c) is None
            &&& e matches Some(pe) && pe.span == src.span
        },
{
    match escape_opt(c) {
        Some(ch) => Ok(ch),
        None => Err(
            Some(
                ParseError {
                    span: src.span,
                    reason: "invalid or unsupported escape character".to_owned(),
                },
            ),
        ),
    }
}

impl ParseUnit for CharLiteral {
    type Target = CharLiteral;

    open spec fn wf_target(src: Seq<char>, t: PU<CharLiteral>) -> bool {
        char_lit_rel(src, t.span, t.item)
    }

    open spec fn soft_spec(src: Seq<char>, i: int) -> bool {
        char_soft(src, i)
    }

    open spec fn hard_spec(src: Seq<char>, i: int) -> bool {
        char_hard(src, i)
    }

    fn parse(p: &mut Parser) -> (r: ParseResult<CharLiteral>) {
        let ghost p0: Parser = *p;
        let zi4 = p.match_sym(Symbol::Char)?;
        let unparsed = p.parse::<Word>()?;
        proof {
            assert(word_of(p0@.src, p0@.idx) =~= p0@.src.subrange(
                zi4.span.start as int,
                zi4.span.end as int,
            ));
            lemma_word_end_of_run(p0@.src, unparsed.span.start as int, unparsed.span.end as int);
            assert(word_of(p0@.src, zi4.span.end as int) =~= unparsed.item@);
        }
        let parsed: char;
        if unparsed.item.len() == 1 {
            parsed = unparsed.item[0];
        } else if unparsed.item.len() == 2 && unparsed.item[0] == '_' {
            proof {
                assert(unparsed.item@[0] == '_');
            }
            parsed = escape(&unparsed, unparsed.item[1])?;
        } else {
            proof {
                if unparsed.item@.len() == 2 {
                    assert(unparsed.item@[0] != '_');
                }
                assert(char_value(unparsed.item@) is None);
            }
            return Err(
                Some(
                    ParseError {
                        span: unparsed.span,
                        reason: "a character literal is one character or one escape pair".to_owned(),
                    },
                ),
            );
        }
        p.finish(CharLiteral { zi4, unparsed, parsed })
    }
}

impl ParseUnit for StringLiteral {
    type Target = StringLiteral;

    open spec fn wf_target(src: Seq<char>, t: PU<StringLiteral>) -> bool {
        str_lit_rel(src, t.span, t.item)
    }

    open spec fn soft_spec(src: Seq<char>, i: int) -> bool {
        string_soft(src, i)
    }

    open spec fn hard_spec(src: Seq<char>, i: int) -> bool {
        string_hard(src, i)
    }

    #[verifier::loop_isolation(false)]
    fn parse(p: &mut Parser) -> (r: ParseResult<StringLiteral>) {
        let ghost p0: Parser = *p;
        let chuan4 = p.match_sym(Symbol::String)?;
        let unparsed = p.parse::<Word>()?;
        proof {
            assert(word_of(p0@.src, p0@.idx) =~= p0@.src.subrange(
                chuan4.span.start as int,
                chuan4.span.end as int,
            ));
            lemma_word_end_of_run(p0@.src, unparsed.span.start as int, unparsed.span.end as int);
            assert(word_of(p0@.src, chuan4.span.end as int) =~= unparsed.item@);
        }
        let ghost w_seq: Seq<char> = unparsed.item@;
        let ghost p1: Parser = *p;
        let n = unparsed.item.len();
        let mut parsed: Vec<char> = Vec::new();
        let mut i: usize = 0;
        proof {
            assert(w_seq.skip(0) =~= w_seq);
            assert(Seq::<char>::empty() + w_seq =~= w_seq);
        }
        while i < n
            invariant
                *p == p1,
                0 <= i <= n,
                n == w_seq.len(),
                unparsed.item@ == w_seq,
                match unescape(w_seq.skip(i as int)) {
                    Some(rest) => unescape(w_seq) == Some(parsed@ + rest),
                    None => unescape(w_seq) is None,
                },
            decreases n - i,
        {
            let ghost tail = w_seq.skip(i as int);
            proof {
                assert(tail[0] == w_seq[i as int]);
            }
            let c = unparsed.item[i];
            if c == '_' {
                if i + 1 == n {
                    return Err(
                        Some(
                            ParseError {
                                span: unparsed.span,
                                reason: "the escape at the end of the string is missing its character".to_owned(),
                            },
                        ),
                    );
                }
                proof {
                    assert(tail[1] == w_seq[i + 1 as int]);
                }
                let e = unparsed.item[i + 1];
                let oc = escape_opt(e);
                if oc.is_none() {
                    return Err(
                        Some(
                            ParseError {
                                span: unparsed.span,
                                reason: "invalid or unsupported escape character".to_owned(),
                            },
                        ),
                    );
                }
                let ch = oc.unwrap();
                parsed.push(ch);
                proof {
                    assert(tail.skip(2) =~= w_seq.skip(i + 2 as int));
                    match unescape(w_seq.skip(i + 2 as int)) {
                        Some(rest) => {
                            assert(unescape(tail) == Some(seq![ch] + rest));
                            assert(parsed@ =~= parsed@.drop_last() + seq![ch]);
                            assert(parsed@.drop_last() + (seq![ch] + rest) =~= parsed@ + rest);
                        },
                        None => {},
                    }
                }
                i = i + 2;
            } else {
                parsed.push(c);
                proof {
                    assert(tail.skip(1) =~= w_seq.skip(i + 1 as int));
                    match unescape(w_seq.skip(i + 1 as int)) {
                        Some(rest) => {
                            assert(unescape(tail) == Some(seq![c] + rest));
                            assert(parsed@ =~= parsed@.drop_last() + seq![c]);
                            assert(parsed@.drop_last() + (seq![c] + rest) =~= parsed@ + rest);
                        },
                        None => {},
                    }
                }
                i = i + 1;
            }
        }
        proof {
            assert(w_seq.skip(n as int) =~= Seq::<char>::empty());
            assert(parsed@ + Seq::<char>::empty() =~= parsed@);
        }
        p.finish(StringLiteral { chuan4, unparsed, parsed })
    }
}

impl ParseUnit for Ident {
    type Target = Ident;

    open spec fn wf_target(src: Seq<char>, t: PU<Ident>) -> bool {
        ident_rel(src, t.span, t.item)
    }

    open spec fn soft_spec(src: Seq<char>, i: int) -> bool {
        ident_soft(src, i)
    }

    open spec fn hard_spec(src: Seq<char>, i: int) -> bool {
        ident_hard(src, i)
    }

    fn parse(p: &mut Parser) -> (r: ParseResult<Ident>) {
        let ghost p0: Parser = *p;
        proof {
            lemma_ws_end(p@.src, p@.idx);
            lemma_word_end(p@.src, ws_end(p@.src, p@.idx));
        }
        let w = p.take_word();
        if w.len() == 0 {
            return Err(None);
        }
        if sym_lookup(&w).is_some() {
            return Err(None);
        }
        if op_lookup(&w).is_some() {
            return Err(None);
        }
        let c0 = w[0];
        if !(is_alpha_exec(c0) || c0 == '_') {
            proof {
                assert(w@[0] == p0@.src[ws_end(p0@.src, p0@.idx)]);
                assert(w@ =~= word_of(p0@.src, p0@.idx));
            }
            return p.throw("a word cannot name a variable unless it starts with a letter or an underscore");
        }
        let span = p.selection();
        proof {
            assert(w@[0] == p0@.src[span.start as int]);
        }
        p.finish(Ident { ident: PU { span, item: w } })
    }
}

impl ParseUnit for NumberLiteral {
    type Target = NumberLiteral;

    open spec fn wf_target(src: Seq<char>, t: PU<NumberLiteral>) -> bool {
        num_rel(src, t.span, t.item)
    }

    open spec fn soft_spec(src: Seq<char>, i: int) -> bool {
        num_soft(src, i)
    }

    open spec fn hard_spec(src: Seq<char>, i: int) -> bool {
        num_hard(src, i)
    }

    #[verifier::loop_isolation(false)]
    fn parse(p: &mut Parser) -> (r: ParseResult<NumberLiteral>) {
        proof {
            lemma_ws_end(p@.src, p@.idx);
            lemma_digit_end(p@.src, ws_end(p@.src, p@.idx));
        }
        let w = p.take_digits();
        if w.len() == 0 {
            return Err(None);
        }
        let ghost p1: Parser = *p;
        let mut val: usize = 0;
        let mut i: usize = 0;
        while i < w.len()
            invariant
                *p == p1,
                0 <= i <= w.len(),
                forall|k: int| 0 <= k < w@.len() ==> is_digit(w@[k]),
                val as int == digits_val(w@.take(i as int)),
            decreases w.len() - i,
        {
            let c = w[i];
            let d: usize = ((c as u32) - ('0' as u32)) as usize;
            proof {
                assert(is_digit(w@[i as int]));
                assert(d == w@[i as int] as int - '0' as int);
                assert(0 <= d <= 9);
            }
            if val > (usize::MAX - d) / 10 {
                proof {
                    assert(val * 10 + d > usize::MAX) by (nonlinear_arith)
                        requires
                            val > (usize::MAX - d) / 10,
                            0 <= d <= 9,
                    {
                    }
                    assert(w@.take(i + 1 as int).drop_last() =~= w@.take(i as int));
                    assert(w@.take(i + 1 as int).last() == w@[i as int]);
                    assert(digits_val(w@.take(i + 1 as int)) > usize::MAX);
                    lemma_digits_val_prefix_le(w@, i + 1 as int);
                    assert(digits_val(w@) > usize::MAX);
                }
                return p.throw("number literal does not fit the machine's word");
            }
            proof {
                assert(val * 10 + d <= usize::MAX) by (nonlinear_arith)
                    requires
                        val <= (usize::MAX - d) / 10,
                        0 <= d <= 9,
                {
                }
                assert(w@.take(i + 1 as int).drop_last() =~= w@.take(i as int));
                assert(w@.take(i + 1 as int).last() == w@[i as int]);
            }
            val = val * 10 + d;
            i = i + 1;
        }
        proof {
            assert(w@.take(w@.len() as int) =~= w@);
        }
        p.finish(NumberLiteral::Digit { number: val })
    }
}

impl ParseUnit for Operators {
    type Target = Operators;

    open spec fn wf_target(src: Seq<char>, t: PU<Operators>) -> bool {
        op_tok_rel(src, t)
    }

    open spec fn soft_spec(src: Seq<char>, i: int) -> bool {
        op_soft(src, i)
    }

    open spec fn hard_spec(src: Seq<char>, i: int) -> bool {
        false
    }

    fn parse(p: &mut Parser) -> (r: ParseResult<Operators>) {
        proof {
            lemma_ws_end(p@.src, p@.idx);
            lemma_word_end(p@.src, ws_end(p@.src, p@.idx));
        }
        let w = p.take_word();
        match op_lookup(&w) {
            Some(o) => p.finish(o),
            None => Err(None),
        }
    }
}

/// The binary-operator rule of the expression loop: an operator word
/// whose operator connects two operands. A unary operator here is a
/// committed malformation, not a fallthrough: atomic expressions must be
/// connected with binary operators.
pub struct BinaryOp;

impl ParseUnit for BinaryOp {
    type Target = Operators;

    open spec fn wf_target(src: Seq<char>, t: PU<Operators>) -> bool {
        &&& op_tok_rel(src, t)
        &&& op_assoc(t.item) == OperatorAssociativity::Binary
    }

    open spec fn soft_spec(src: Seq<char>, i: int) -> bool {
        op_soft(src, i)
    }

    open spec fn hard_spec(src: Seq<char>, i: int) -> bool {
        is_unary_op_word(word_of(src, i))
    }

    fn parse(p: &mut Parser) -> (r: ParseResult<Operators>) {
        let ghost p0: Parser = *p;
        let t = <Operators as ParseUnit>::parse(p)?;
        proof {
            lemma_word_end_of_run(p0@.src, t.span.start as int, t.span.end as int);
            assert(word_of(p0@.src, p0@.idx) =~= op_lexeme(t.item));
        }
        let is_binary = match t.item.associativity() {
            OperatorAssociativity::Binary => true,
            OperatorAssociativity::Unary => false,
        };
        if is_binary {
            Ok(t)
        } else {
            Err(
                Some(
                    ParseError {
                        span: t.span,
                        reason: "atomic expressions must be connected with binary operators".to_owned(),
                    },
                ),
            )
        }
    }
}

/// The unary-operator rule opening a unary expression: an operator word
/// whose operator prefixes one operand. A binary operator here is a
/// committed malformation.
pub struct UnaryOp;

impl ParseUnit for UnaryOp {
    type Target = Operators;

    open spec fn wf_target(src: Seq<char>, t: PU<Operators>) -> bool {
        &&& op_tok_rel(src, t)
        &&& op_assoc(t.item) == OperatorAssociativity::Unary
    }

    open spec fn soft_spec(src: Seq<char>, i: int) -> bool {
        op_soft(src, i)
    }

    open spec fn hard_spec(src: Seq<char>, i: int) -> bool {
        is_binary_op_word(word_of(src, i))
    }

    fn parse(p: &mut Parser) -> (r: ParseResult<Operators>) {
        let ghost p0: Parser = *p;
        let t = <Operators as ParseUnit>::parse(p)?;
        proof {
            lemma_word_end_of_run(p0@.src, t.span.start as int, t.span.end as int);
            assert(word_of(p0@.src, p0@.idx) =~= op_lexeme(t.item));
        }
        let is_unary = match t.item.associativity() {
            OperatorAssociativity::Unary => true,
            OperatorAssociativity::Binary => false,
        };
        if is_unary {
            Ok(t)
        } else {
            Err(
                Some(
                    ParseError {
                        span: t.span,
                        reason: "a unary expression must start with a unary operator".to_owned(),
                    },
                ),
            )
        }
    }
}

/// The ceiling on grammar nesting depth. Nesting past it is a dedicated
/// hard error rather than an exhausted call stack.
pub const MAX_DEPTH: usize = 64;

/// The cursor book-keeping every successful rule leaves behind: the span
/// starts at the first non-whitespace character from where the rule
/// started, covers text up to the new position, and is recorded as the
/// attempt's start mark.
pub open spec fn ok_plumbing(pre: crate::parser::ParserView, post: crate::parser::ParserView, span: Span) -> bool {
    &&& span.start == ws_end(pre.src, pre.idx)
    &&& pre.idx <= span.start <= span.end <= pre.src.len()
    &&& span.end == post.idx
    &&& ws_only(pre.src, pre.idx, span.start as int)
    &&& post.start == Some(span.start as int)
}

impl UnaryExpr {
    /// Parses a unary expression with a bounded nesting allowance.
    pub fn parse_at(p: &mut Parser, depth: usize) -> (r: ParseResult<UnaryExpr>)
        requires
            old(p).wf(),
            old(p)@.start is None,
        ensures
            final(p).wf(),
            final(p)@.src == old(p)@.src,
            old(p)@.idx <= final(p)@.idx,
            r matches Ok(t) ==> (ok_plumbing(old(p)@, final(p)@, t.span) && unary_rel(
                old(p)@.src,
                t.span,
                t.item,
            )),
            r matches Err(e) && e is None ==> op_soft(old(p)@.src, old(p)@.idx),
            r matches Err(e) && e is Some ==> depth == 0 || is_operator_word(
                word_of(old(p)@.src, old(p)@.idx),
            ),
            unary_accept_end(old(p)@.src, old(p)@.idx, depth as nat) matches Some(e) ==> (r
                matches Ok(t) && t.span.end == e && final(p)@.idx == e),
            r matches Err(e) ==> (e matches Some(pe) ==> old(p)@.idx <= pe.span.start
                <= pe.span.end <= old(p)@.src.len()),
        decreases depth, 1int,
    {
        if depth == 0 {
            return p.throw("expression nested too deeply");
        }
        let ghost p0: Parser = *p;
        let ghost acc = unary_accept_end(p0@.src, p0@.idx, depth as nat);
        let rop = p.parse::<UnaryOp>();
        proof {
            if acc is Some {
                lemma_op_word_classes(word_of(p0@.src, p0@.idx));
            }
        }
        let operator = rop?;
        proof {
            lemma_word_end_of_run(p0@.src, operator.span.start as int, operator.span.end as int);
            assert(word_of(p0@.src, p0@.idx) =~= op_lexeme(operator.item));
        }
        let m = p.mark_attempt();
        let ra = AtomicExpr::parse_at(p, depth - 1);
        let ra = p.finish_attempt(m, ra);
        let ra = p.must_match(ra, "expect an atomic expression after a unary operator");
        let operand = ra?;
        p.finish(UnaryExpr { operator, expr: Box::new(operand) })
    }
}

impl ParseUnit for UnaryExpr {
    type Target = UnaryExpr;

    open spec fn wf_target(src: Seq<char>, t: PU<UnaryExpr>) -> bool {
        unary_rel(src, t.span, t.item)
    }

    open spec fn soft_spec(src: Seq<char>, i: int) -> bool {
        op_soft(src, i)
    }

    open spec fn hard_spec(src: Seq<char>, i: int) -> bool {
        is_operator_word(word_of(src, i))
    }

    fn parse(p: &mut Parser) -> (r: ParseResult<UnaryExpr>) {
        UnaryExpr::parse_at(p, MAX_DEPTH)
    }
}

impl Arguments {
    /// Parses a possibly-empty argument list: expressions separated by
    /// `fen1`. An empty list is a success, so this rule never reports a
    /// soft mismatch; a missing expression after a separator is a
    /// committed malformation.
    #[verifier::loop_isolation(false)]
    pub fn parse_at(p: &mut Parser, depth: usize) -> (r: ParseResult<Arguments>)
        requires
            old(p).wf(),
            old(p)@.start is None,
        ensures
            final(p).wf(),
            final(p)@.src == old(p)@.src,
            old(p)@.idx <= final(p)@.idx,
            r matches Err(e) ==> e is Some,
            r matches Ok(t) ==> (args_rel(old(p)@.src, old(p)@.idx, final(p)@.idx, t.item)
                && args_chain(old(p)@.src, old(p)@.idx, t.item.args, t.item.semicolons) && (
            t.item.args.len() == 0 ==> final(p)@.idx == old(p)@.idx && expr_soft(
                old(p)@.src,
                old(p)@.idx,
            )) && (t.item.args.len() > 0 ==> final(p)@.idx == t.item.args[t.item.args.len()
                - 1].span.end)),
            r matches Err(e) && e is Some ==> depth <= 3 || !expr_soft(old(p)@.src, old(p)@.idx),
            depth == 0 ==> (r matches Err(e) && e is Some),
            args_accept_end(old(p)@.src, old(p)@.idx, depth as nat) matches Some(e) ==> (r
                matches Ok(t) && final(p)@.idx == e),
            r matches Err(e) ==> (e matches Some(pe) ==> old(p)@.idx <= pe.span.start
                <= pe.span.end <= old(p)@.src.len()),
        decreases depth, 1int,
    {
        if depth == 0 {
            return p.throw("expression nested too deeply");
        }
        let ghost p0: Parser = *p;
        let ghost acc = args_accept_end(p0@.src, p0@.idx, depth as nat);
        let ghost mut msteps: nat = (p0@.src.len() + 1) as nat;
        let m = p.mark_attempt();
        let r0 = Expr::parse_at(p, depth - 1);
        let r0 = p.finish_attempt(m, r0);
        proof {
            if acc is Some && r0 is Ok {
                let t = r0->Ok_0;
                lemma_expr_rel_not_soft(p0@.src, p0@.idx, t.span, t.item);
            }
        }
        if outcome_is_soft(&r0) {
            return p.finish(Arguments { args: Vec::new(), semicolons: Vec::new() });
        }
        if !outcome_is_ok(&r0) {
            return fail_of(r0);
        }
        let first = ok_of(r0);
        proof {
            lemma_expr_rel_not_soft(p0@.src, p0@.idx, first.span, first.item);
        }
        let mut args: Vec<PU<Expr>> = Vec::new();
        let mut semicolons: Vec<PU<Symbol>> = Vec::new();
        args.push(first);
        let mut done = false;
        while !done
            invariant
                p.wf(),
                p@.src == p0@.src,
                p0@.idx <= p@.idx <= p@.src.len(),
                args.len() >= 1,
                semicolons.len() == args.len() - 1,
                args[0].span.start == ws_end(p0@.src, p0@.idx),
                p@.idx == args[args.len() - 1].span.end,
                done ==> word_of(p0@.src, p@.idx) != sym_lexeme(Symbol::Semicolon),
                acc matches Some(e) ==> args_tail_accept_end(
                    p0@.src,
                    p@.idx,
                    depth as nat,
                    msteps,
                ) == Some(e),
                match p@.start {
                    Some(s) => p0@.idx <= s <= p@.idx,
                    None => false,
                },
                forall|k: int|
                    0 <= k < semicolons.len() ==> {
                        &&& sym_tok_rel(p0@.src, #[trigger] semicolons@[k], Symbol::Semicolon)
                        &&& semicolons@[k].span.start == ws_end(
                            p0@.src,
                            args[k].span.end as int,
                        )
                        &&& args[k + 1].span.start == ws_end(
                            p0@.src,
                            semicolons@[k].span.end as int,
                        )
                    },
                forall|k: int|
                    0 <= k < args.len() ==> {
                        &&& p0@.idx <= (#[trigger] args[k]).span.start
                        &&& args[k].span.start <= args[k].span.end <= p@.idx
                        &&& expr_rel(p0@.src, args[k].span, args[k].item)
                    },
            decreases p@.src.len() - p@.idx + (if done { 0int } else { 1int }),
        {
            let ghost jh = p@.idx;
            let rs = p.match_sym(Symbol::Semicolon);
            if outcome_is_soft(&rs) {
                done = true;
            } else {
                let semi = ok_of(rs);
                proof {
                    if acc is Some {
                        lemma_sym_tok_word(p0@.src, jh, semi, Symbol::Semicolon);
                    }
                }
                semicolons.push(semi);
                let m3 = p.mark_attempt();
                let re = Expr::parse_at(p, depth - 1);
                let re = p.finish_attempt(m3, re);
                let re = p.must_match(re, "expect an expression after fen1");
                if !outcome_is_ok(&re) {
                    return fail_of(re);
                }
                let e = ok_of(re);
                proof {
                    lemma_sym_lexeme_nonempty(Symbol::Semicolon);
                    assert(p0@.src.subrange(semi.span.start as int, semi.span.end as int).len()
                        == semi.span.end - semi.span.start);
                    lemma_expr_nonempty(p0@.src, e.span, e.item);
                    if acc is Some {
                        msteps = (msteps - 1) as nat;
                    }
                }
                args.push(e);
            }
        }
        p.finish(Arguments { args, semicolons })
    }
}

impl FnCall {
    /// Parses a call: a function name, the `can1` opener, the arguments,
    /// and the mandatory `jie2` closer. Once the name and the opener have
    /// matched, the call is committed: a missing closer is a hard error
    /// at the failure position, never a fallthrough.
    pub fn parse_at(p: &mut Parser, depth: usize) -> (r: ParseResult<FnCall>)
        requires
            old(p).wf(),
            old(p)@.start is None,
        ensures
            final(p).wf(),
            final(p)@.src == old(p)@.src,
            old(p)@.idx <= final(p)@.idx,
            r matches Ok(t) ==> (ok_plumbing(old(p)@, final(p)@, t.span) && fncall_rel(
                old(p)@.src,
                t.span,
                t.item,
            ) && fncall_args_pinned(old(p)@.src, t.item)),
            r matches Err(e) && e is None ==> fncall_soft(old(p)@.src, old(p)@.idx),
            r matches Err(e) && e is Some ==> depth == 0 || ident_hard(old(p)@.src, old(p)@.idx)
                || (!ident_soft(old(p)@.src, old(p)@.idx) && word_of(
                old(p)@.src,
                word_of_end(old(p)@.src, old(p)@.idx),
            ) == sym_lexeme(Symbol::Parameter)),
            depth == 0 ==> (r matches Err(e) && e is Some),
            fncall_accept_end(old(p)@.src, old(p)@.idx, depth as nat) matches Some(e) ==> (r
                matches Ok(t) && t.span.end == e && final(p)@.idx == e),
            r matches Err(e) ==> (e matches Some(pe) ==> old(p)@.idx <= pe.span.start
                <= pe.span.end <= old(p)@.src.len()),
        decreases depth, 1int,
    {
        if depth == 0 {
            return p.throw("expression nested too deeply");
        }
        let ghost p0: Parser = *p;
        let ghost acc = fncall_accept_end(p0@.src, p0@.idx, depth as nat);
        let rf = p.parse::<Ident>();
        proof {
            match rf {
                Err(Some(_)) => {
                    lemma_ident_hard_not_soft(p0@.src, p0@.idx);
                },
                _ => {},
            }
        }
        let fn_name = rf?;
        proof {
            lemma_word_end_of_run(p0@.src, fn_name.span.start as int, fn_name.span.end as int);
            lemma_ident_rel_not_soft(p0@.src, p0@.idx, fn_name.span, fn_name.item);
            lemma_ident_tok_word(p0@.src, p0@.idx, fn_name.span, fn_name.item);
        }
        let rh = p.match_sym(Symbol::Parameter);
        let han2 = rh?;
        proof {
            lemma_sym_tok_word(p0@.src, fn_name.span.end as int, han2, Symbol::Parameter);
        }
        let m = p.mark_attempt();
        let ra = Arguments::parse_at(p, depth - 1);
        let ra = p.finish_attempt(m, ra);
        let args = ra?;
        let rj = p.match_sym(Symbol::Jie2);
        let rj = p.must_match(rj, "expect jie2 to close the call");
        let jie2 = rj?;
        p.finish(FnCall { fn_name, han2, args, jie2 })
    }
}

impl ParseUnit for FnCall {
    type Target = FnCall;

    open spec fn wf_target(src: Seq<char>, t: PU<FnCall>) -> bool {
        &&& fncall_rel(src, t.span, t.item)
        &&& fncall_args_pinned(src, t.item)
    }

    open spec fn soft_spec(src: Seq<char>, i: int) -> bool {
        fncall_soft(src, i)
    }

    open spec fn hard_spec(src: Seq<char>, i: int) -> bool {
        !ident_soft(src, i)
    }

    fn parse(p: &mut Parser) -> (r: ParseResult<FnCall>) {
        let ghost p0: Parser = *p;
        let r = FnCall::parse_at(p, MAX_DEPTH);
        proof {
            if r is Err && r->Err_0 is Some && ident_hard(p0@.src, p0@.idx) {
                lemma_ident_hard_not_soft(p0@.src, p0@.idx);
            }
        }
        r
    }
}

impl Initialization {
    /// Parses a block initializer: the `han2` opener, any number of
    /// atomic arguments, and the mandatory `jie2` closer. Once the opener
    /// has matched, a missing closer is a hard error positioned at or
    /// after the opener, never a fallthrough to a sibling alternative.
    #[verifier::loop_isolation(false)]
    #[verifier::rlimit(60)]
    pub fn parse_at(p: &mut Parser, depth: usize) -> (r: ParseResult<Initialization>)
        requires
            old(p).wf(),
            old(p)@.start is None,
        ensures
            final(p).wf(),
            final(p)@.src == old(p)@.src,
            old(p)@.idx <= final(p)@.idx,
            r matches Ok(t) ==> (ok_plumbing(old(p)@, final(p)@, t.span) && init_rel(
                old(p)@.src,
                t.span,
                t.item,
            ) && init_chain(
                old(p)@.src,
                t.item.han2.span.end as int,
                t.item.args,
                t.item.jie2.span.start as int,
            )),
            r matches Err(e) && e is None ==> init_soft(old(p)@.src, old(p)@.idx),
            r matches Err(e) && e is Some ==> depth == 0 || !init_soft(old(p)@.src, old(p)@.idx),
            depth == 0 ==> (r matches Err(e) && e is Some),
            init_accept_end(old(p)@.src, old(p)@.idx, depth as nat) matches Some(e) ==> (r
                matches Ok(t) && t.span.end == e && final(p)@.idx == e),
            r matches Err(e) ==> (e matches Some(pe) ==> old(p)@.idx <= pe.span.start
                <= pe.span.end <= old(p)@.src.len()),
        decreases depth, 1int,
    {
        if depth == 0 {
            return p.throw("expression nested too deeply");
        }
        let ghost p0: Parser = *p;
        let ghost acc = init_accept_end(p0@.src, p0@.idx, depth as nat);
        let ghost mut msteps: nat = (p0@.src.len() + 1) as nat;
        let han2 = p.match_sym(Symbol::Block)?;
        proof {
            assert(word_of(p0@.src, p0@.idx) =~= p0@.src.subrange(
                han2.span.start as int,
                han2.span.end as int,
            ));
        }
        let mut args: Vec<PU<AtomicExpr>> = Vec::new();
        let mut done = false;
        while !done
            invariant
                p.wf(),
                p@.src == p0@.src,
                han2.span.end <= p@.idx <= p@.src.len(),
                p@.start == Some(han2.span.start as int),
                p@.idx == (if args.len() == 0 {
                    han2.span.end as int
                } else {
                    args[args.len() - 1].span.end as int
                }),
                acc matches Some(e) ==> init_args_accept_end(
                    p0@.src,
                    p@.idx,
                    depth as nat,
                    msteps,
                ) == Some(e),
                done ==> atomic_soft(p0@.src, p@.idx),
                forall|k: int|
                    0 <= k < args.len() ==> (#[trigger] args[k]).span.start == ws_end(
                        p0@.src,
                        if k == 0 {
                            han2.span.end as int
                        } else {
                            args[k - 1].span.end as int
                        },
                    ),
                forall|k: int|
                    0 <= k < args.len() ==> {
                        &&& han2.span.end <= (#[trigger] args[k]).span.start
                        &&& args[k].span.start <= args[k].span.end <= p@.idx
                        &&& atomic_rel(p0@.src, args[k].span, args[k].item)
                    },
            decreases p@.src.len() - p@.idx + (if done { 0int } else { 1int }),
        {
            let m = p.mark_attempt();
            let ra = AtomicExpr::parse_at(p, depth - 1);
            let ra = p.finish_attempt(m, ra);
            proof {
                if acc is Some && ra is Ok {
                    let t = ra->Ok_0;
                    lemma_atomic_rel_not_soft(p0@.src, m.idx_spec(), t.span, t.item);
                }
            }
            if outcome_is_soft(&ra) {
                done = true;
            } else {
                if !outcome_is_ok(&ra) {
                    return fail_of(ra);
                }
                let a = ok_of(ra);
                proof {
                    lemma_atomic_nonempty(p0@.src, a.span, a.item);
                    if acc is Some {
                        msteps = (msteps - 1) as nat;
                    }
                }
                args.push(a);
            }
        }
        let rj = p.match_sym(Symbol::Jie2);
        let rj = p.must_match(rj, "expect jie2 to close the initializer");
        let jie2 = rj?;
        p.finish(Initialization { han2, args, jie2 })
    }
}

impl ParseUnit for Initialization {
    type Target = Initialization;

    open spec fn wf_target(src: Seq<char>, t: PU<Initialization>) -> bool {
        &&& init_rel(src, t.span, t.item)
        &&& init_chain(
            src,
            t.item.han2.span.end as int,
            t.item.args,
            t.item.jie2.span.start as int,
        )
    }

    open spec fn soft_spec(src: Seq<char>, i: int) -> bool {
        init_soft(src, i)
    }

    open spec fn hard_spec(src: Seq<char>, i: int) -> bool {
        !init_soft(src, i)
    }

    fn parse(p: &mut Parser) -> (r: ParseResult<Initialization>) {
        Initialization::parse_at(p, MAX_DEPTH)
    }
}

impl BracketExpr {
    /// Parses a bracketed expression: the `can1` opener, one expression,
    /// and the mandatory `jie2` closer. Once the opener has matched, a
    /// missing expression or closer is a hard error, never a fallthrough.
    pub fn parse_at(p: &mut Parser, depth: usize) -> (r: ParseResult<BracketExpr>)
        requires
            old(p).wf(),
            old(p)@.start is None,
        ensures
            final(p).wf(),
            final(p)@.src == old(p)@.src,
            old(p)@.idx <= final(p)@.idx,
            r matches Ok(t) ==> (ok_plumbing(old(p)@, final(p)@, t.span) && bracket_rel(
                old(p)@.src,
                t.span,
                t.item,
            )),
            r matches Err(e) && e is None ==> bracket_soft(old(p)@.src, old(p)@.idx),
            r matches Err(e) && e is Some ==> depth == 0 || !bracket_soft(
                old(p)@.src,
                old(p)@.idx,
            ),
            depth == 0 ==> (r matches Err(e) && e is Some),
            bracket_accept_end(old(p)@.src, old(p)@.idx, depth as nat) matches Some(e) ==> (r
                matches Ok(t) && t.span.end == e && final(p)@.idx == e),
            r matches Err(e) ==> (e matches Some(pe) ==> old(p)@.idx <= pe.span.start
                <= pe.span.end <= old(p)@.src.len()),
        decreases depth, 1int,
    {
        if depth == 0 {
            return p.throw("expression nested too deeply");
        }
        let ghost p0: Parser = *p;
        let ghost acc = bracket_accept_end(p0@.src, p0@.idx, depth as nat);
        let can1 = p.match_sym(Symbol::Parameter)?;
        proof {
            assert(word_of(p0@.src, p0@.idx) =~= p0@.src.subrange(
                can1.span.start as int,
                can1.span.end as int,
            ));
            lemma_sym_tok_word(p0@.src, p0@.idx, can1, Symbol::Parameter);
        }
        let m = p.mark_attempt();
        let re = Expr::parse_at(p, depth - 1);
        let re = p.finish_attempt(m, re);
        let re = p.must_match(re, "expect an expression inside the brackets");
        let inner = re?;
        let rj = p.match_sym(Symbol::Jie2);
        let rj = p.must_match(rj, "expect jie2 to close the brackets");
        let jie2 = rj?;
        p.finish(BracketExpr { can1, expr: Box::new(inner), jie2 })
    }
}

impl ParseUnit for BracketExpr {
    type Target = BracketExpr;

    open spec fn wf_target(src: Seq<char>, t: PU<BracketExpr>) -> bool {
        bracket_rel(src, t.span, t.item)
    }

    open spec fn soft_spec(src: Seq<char>, i: int) -> bool {
        bracket_soft(src, i)
    }

    open spec fn hard_spec(src: Seq<char>, i: int) -> bool {
        !bracket_soft(src, i)
    }

    fn parse(p: &mut Parser) -> (r: ParseResult<BracketExpr>) {
        BracketExpr::parse_at(p, MAX_DEPTH)
    }
}

impl AtomicExpr {
    /// Tries the atomic forms in their declared order, committing to the
    /// first success or hard error and falling through softly only when
    /// every form does.
    pub fn parse_at(p: &mut Parser, depth: usize) -> (r: ParseResult<AtomicExpr>)
        requires
            old(p).wf(),
            old(p)@.start is None,
        ensures
            final(p).wf(),
            final(p)@.src == old(p)@.src,
            old(p)@.idx <= final(p)@.idx,
            r matches Ok(t) ==> (ok_plumbing(old(p)@, final(p)@, t.span) && atomic_rel(
                old(p)@.src,
                t.span,
                t.item,
            ) && (t.item is Variable ==> word_of(old(p)@.src, t.span.end as int) != sym_lexeme(
                Symbol::Parameter,
            ))),
            depth == 0 ==> (r matches Err(e) && e is Some),
            atomic_accept_end(old(p)@.src, old(p)@.idx, depth as nat) matches Some(e) ==> (r
                matches Ok(t) && t.span.end == e && final(p)@.idx == e),
            r matches Err(e) && e is None ==> atomic_soft(old(p)@.src, old(p)@.idx),
            r matches Err(e) && e is Some ==> depth <= 1 || !atomic_soft(
                old(p)@.src,
                old(p)@.idx,
            ),
            r matches Err(e) ==> (e matches Some(pe) ==> old(p)@.idx <= pe.span.start
                <= pe.span.end <= old(p)@.src.len()),
        decreases depth, 1int,
    {
        if depth == 0 {
            return p.throw("expression nested too deeply");
        }
        let ghost p0: Parser = *p;
        let ghost acc = atomic_accept_end(p0@.src, p0@.idx, depth as nat);
        match p.parse::<CharLiteral>() {
            Ok(t) => {
                proof {
                    if acc is Some {
                        lemma_char_rel_pins(p0@.src, p0@.idx, t.span, t.item);
                    }
                }
                return Ok(PU { span: t.span, item: AtomicExpr::CharLiteral(t.item) });
            },
            Err(Some(e)) => {
                proof {
                    if acc is Some {
                        assert(char_accept_end(p0@.src, p0@.idx) is None);
                        assert(false);
                    }
                }
                return Err(Some(e));
            },
            Err(None) => {},
        }
        match p.parse::<StringLiteral>() {
            Ok(t) => {
                proof {
                    if acc is Some {
                        lemma_string_rel_pins(p0@.src, p0@.idx, t.span, t.item);
                    }
                }
                return Ok(PU { span: t.span, item: AtomicExpr::StringLiteral(t.item) });
            },
            Err(Some(e)) => {
                proof {
                    if acc is Some {
                        assert(string_accept_end(p0@.src, p0@.idx) is None);
                        assert(false);
                    }
                }
                return Err(Some(e));
            },
            Err(None) => {},
        }
        match p.parse::<NumberLiteral>() {
            Ok(t) => {
                proof {
                    if acc is Some {
                        lemma_num_rel_pins(p0@.src, p0@.idx, t.span, t.item);
                    }
                }
                return Ok(PU { span: t.span, item: AtomicExpr::NumberLiteral(t.item) });
            },
            Err(Some(e)) => {
                proof {
                    if acc is Some {
                        assert(number_accept_end(p0@.src, p0@.idx) is None);
                        assert(false);
                    }
                }
                return Err(Some(e));
            },
            Err(None) => {},
        }
        let m = p.mark_attempt();
        let rf = FnCall::parse_at(p, depth - 1);
        match p.finish_attempt(m, rf) {
            Ok(t) => {
                proof {
                    if acc is Some {
                        lemma_ident_tok_word(
                            p0@.src,
                            p0@.idx,
                            t.item.fn_name.span,
                            t.item.fn_name.item,
                        );
                        lemma_sym_tok_word(
                            p0@.src,
                            t.item.fn_name.span.end as int,
                            t.item.han2,
                            Symbol::Parameter,
                        );
                        assert(!fncall_soft(p0@.src, p0@.idx));
                    }
                }
                return Ok(PU { span: t.span, item: AtomicExpr::FnCall(t.item) });
            },
            Err(Some(e)) => {
                proof {
                    if ident_hard(p0@.src, p0@.idx) {
                        lemma_ident_hard_not_soft(p0@.src, p0@.idx);
                    }
                    if acc is Some {
                        if ident_hard(p0@.src, p0@.idx) {
                            lemma_ident_hard_starts_digit(p0@.src, p0@.idx);
                        }
                        assert(false);
                    }
                }
                return Err(Some(e));
            },
            Err(None) => {},
        }
        let rv = p.parse::<Ident>();
        proof {
            match rv {
                Err(Some(_)) => {
                    lemma_ident_hard_not_soft(p0@.src, p0@.idx);
                },
                _ => {},
            }
        }
        match rv {
            Ok(t) => {
                proof {
                    lemma_ident_rel_not_soft(p0@.src, p0@.idx, t.span, t.item);
                    lemma_word_end_of_run(p0@.src, t.span.start as int, t.span.end as int);
                    if acc is Some {
                        lemma_ident_tok_word(p0@.src, p0@.idx, t.span, t.item);
                    }
                }
                return Ok(PU { span: t.span, item: AtomicExpr::Variable(t.item) });
            },
            Err(Some(e)) => {
                proof {
                    if acc is Some {
                        lemma_ident_hard_starts_digit(p0@.src, p0@.idx);
                        assert(false);
                    }
                }
                return Err(Some(e));
            },
            Err(None) => {},
        }
        let m = p.mark_attempt();
        let ru = UnaryExpr::parse_at(p, depth - 1);
        match p.finish_attempt(m, ru) {
            Ok(t) => {
                proof {
                    if acc is Some {
                        lemma_op_tok_word(p0@.src, p0@.idx, t.item.operator);
                        assert(is_unary_op_word(word_of(p0@.src, p0@.idx)));
                    }
                }
                return Ok(PU { span: t.span, item: AtomicExpr::UnaryExpr(t.item) });
            },
            Err(Some(e)) => {
                proof {
                    if acc is Some {
                        assert(false);
                    }
                }
                return Err(Some(e));
            },
            Err(None) => {},
        }
        let m = p.mark_attempt();
        let ri = Initialization::parse_at(p, depth - 1);
        match p.finish_attempt(m, ri) {
            Ok(t) => {
                proof {
                    if acc is Some {
                        lemma_sym_tok_word(p0@.src, p0@.idx, t.item.han2, Symbol::Block);
                        assert(!init_soft(p0@.src, p0@.idx));
                    }
                }
                return Ok(PU { span: t.span, item: AtomicExpr::Initialization(t.item) });
            },
            Err(Some(e)) => {
                proof {
                    if acc is Some {
                        assert(false);
                    }
                }
                return Err(Some(e));
            },
            Err(None) => {},
        }
        let m = p.mark_attempt();
        let rb = BracketExpr::parse_at(p, depth - 1);
        match p.finish_attempt(m, rb) {
            Ok(t) => {
                proof {
                    if acc is Some {
                        lemma_sym_tok_word(p0@.src, p0@.idx, t.item.can1, Symbol::Parameter);
                        assert(!bracket_soft(p0@.src, p0@.idx));
                    }
                }
                return Ok(PU { span: t.span, item: AtomicExpr::BracketExpr(t.item) });
            },
            Err(Some(e)) => {
                proof {
                    if acc is Some {
                        assert(false);
                    }
                }
                return Err(Some(e));
            },
            Err(None) => {},
        }
        Err(None)
    }
}

/// The well-formed shape of the two climbing stacks: one more operand
/// than operators, every operand standing in [`expr_rel`] to its span,
/// operands and operators interleaved left to right in the text,
/// priorities strictly tightening towards the top (a looser operator can
/// never sit above a tighter one), and every operand compatible as the
/// future left child of the operator to its right.
pub open spec fn stack_wf(src: Seq<char>, es: Seq<PU<Expr>>, os: Seq<PU<Operators>>) -> bool {
    &&& es.len() == os.len() + 1
    &&& forall|j: int|
        0 <= j < es.len() ==> (#[trigger] es[j]).span.start <= es[j].span.end <= src.len()
    &&& forall|j: int|
        0 <= j < es.len() ==> expr_rel(src, (#[trigger] es[j]).span, es[j].item)
    &&& forall|j: int|
        0 <= j < os.len() ==> op_tok_rel(src, #[trigger] os[j]) && op_assoc(os[j].item)
            == OperatorAssociativity::Binary
    &&& forall|j: int|
        0 <= j < os.len() ==> (#[trigger] es[j]).span.end <= os[j].span.start && os[j].span.end
            <= es[j + 1].span.start
    &&& forall|j: int|
        0 <= j < os.len() ==> (#[trigger] os[j]).span.start == ws_end(
            src,
            es[j].span.end as int,
        ) && es[j + 1].span.start == ws_end(src, os[j].span.end as int)
    &&& forall|j1: int, j2: int|
        0 <= j1 < j2 < os.len() ==> op_priority((#[trigger] os[j1]).item) > op_priority(
            (#[trigger] os[j2]).item,
        )
    &&& forall|j: int|
        0 <= j < os.len() ==> left_prio_ok((#[trigger] es[j]).item, os[j].item)
}

/// The stack's top operand may sit to the right of the top operator only
/// if it binds strictly tighter: the condition for it to become that
/// operator's right child.
pub open spec fn top_rhs_ok(es: Seq<PU<Expr>>, os: Seq<PU<Operators>>) -> bool {
    match root_op(es[es.len() - 1].item) {
        Some(b) => os.len() > 0 ==> op_priority(b) < op_priority(os[os.len() - 1].item),
        None => true,
    }
}

/// Reducing the stacks by one operator preserves their well-formed
/// shape: the merged binary node takes its left child's start and its
/// right child's end, and its root operator was the stack's top.
#[verifier::rlimit(60)]
proof fn lemma_stack_reduce(
    src: Seq<char>,
    es0: Seq<PU<Expr>>,
    os0: Seq<PU<Operators>>,
    es1: Seq<PU<Expr>>,
    os1: Seq<PU<Operators>>,
    node: PU<Expr>,
)
    requires
        stack_wf(src, es0, os0),
        os0.len() > 0,
        top_rhs_ok(es0, os0),
        es1 == es0.take(es0.len() - 2).push(node),
        os1 == os0.drop_last(),
        node.span.start == es0[es0.len() - 2].span.start,
        node.span.end == es0[es0.len() - 1].span.end,
        node.item == Expr::Binary(
            Box::new(es0[es0.len() - 2]),
            os0[os0.len() - 1],
            Box::new(es0[es0.len() - 1]),
        ),
    ensures
        stack_wf(src, es1, os1),
        top_rhs_ok(es1, os1),
{
    let lhs = es0[es0.len() - 2];
    let rhs = es0[es0.len() - 1];
    let op2 = os0[os0.len() - 1];
    assert(lhs.span.end <= op2.span.start && op2.span.end <= rhs.span.start);
    assert(expr_rel(src, node.span, node.item));
    assert forall|k: int| 0 <= k < es1.len() - 1 implies #[trigger] es1[k] == es0[k] by {
        assert(es1[k] == es0.take(es0.len() - 2)[k]);
    }
    assert forall|k: int| 0 <= k < es1.len() implies (#[trigger] es1[k]).span.start
        <= es1[k].span.end <= src.len() by {
        if k < es1.len() - 1 {
            assert(es1[k] == es0[k]);
        } else {
            assert(es1[k] == node);
        }
    }
    assert forall|k: int| 0 <= k < es1.len() implies expr_rel(
        src,
        (#[trigger] es1[k]).span,
        es1[k].item,
    ) by {
        if k < es1.len() - 1 {
            assert(es1[k] == es0[k]);
        } else {
            assert(es1[k] == node);
        }
    }
    assert forall|k: int| 0 <= k < os1.len() implies op_tok_rel(src, #[trigger] os1[k]) && op_assoc(
        os1[k].item,
    ) == OperatorAssociativity::Binary by {
        assert(os1[k] == os0[k]);
    }
    assert forall|k: int| 0 <= k < os1.len() implies (#[trigger] es1[k]).span.end
        <= os1[k].span.start && os1[k].span.end <= es1[k + 1].span.start by {
        assert(os1[k] == os0[k]);
        assert(es1[k] == es0[k]);
        if k + 1 < es1.len() - 1 {
            assert(es1[k + 1] == es0[k + 1]);
        } else {
            assert(es1[k + 1] == node);
            assert(os0[k].span.end <= es0[k + 1].span.start);
        }
    }
    assert forall|k1: int, k2: int| 0 <= k1 < k2 < os1.len() implies op_priority(
        (#[trigger] os1[k1]).item,
    ) > op_priority((#[trigger] os1[k2]).item) by {
        assert(os1[k1] == os0[k1]);
        assert(os1[k2] == os0[k2]);
    }
    assert forall|k: int| 0 <= k < os1.len() implies left_prio_ok(
        (#[trigger] es1[k]).item,
        os1[k].item,
    ) by {
        assert(es1[k] == es0[k]);
        assert(os1[k] == os0[k]);
    }
    assert(stack_wf(src, es1, os1));
    if os1.len() > 0 {
        assert(os1[os1.len() - 1] == os0[os0.len() - 2]);
        assert(op_priority(os0[os0.len() - 2].item) > op_priority(os0[os0.len() - 1].item));
    }
}

/// One step of the climb: reduces the stacks while the stacked operator
/// binds at least as tightly as the incoming one (so an equal-priority
/// operator reduces, which is what makes equal priorities associate
/// left), then pushes the incoming operator and its right operand.
#[verifier::rlimit(60)]
fn shift_reduce(
    Ghost(src): Ghost<Seq<char>>,
    exprs: &mut Vec<PU<Expr>>,
    ops: &mut Vec<PU<Operators>>,
    op: PU<Operators>,
    operand: PU<AtomicExpr>,
)
    requires
        stack_wf(src, old(exprs)@, old(ops)@),
        old(exprs)@[old(exprs)@.len() - 1].item is Atomic,
        op_tok_rel(src, op),
        op_assoc(op.item) == OperatorAssociativity::Binary,
        op.span.start == ws_end(src, old(exprs)@[old(exprs)@.len() - 1].span.end as int),
        old(exprs)@[old(exprs)@.len() - 1].span.end <= op.span.start,
        operand.span.start == ws_end(src, op.span.end as int),
        op.span.end <= operand.span.start <= operand.span.end <= src.len(),
        atomic_rel(src, operand.span, operand.item),
    ensures
        stack_wf(src, final(exprs)@, final(ops)@),
        final(exprs)@[0].span.start == old(exprs)@[0].span.start,
        final(exprs)@[final(exprs)@.len() - 1] == (PU {
            span: operand.span,
            item: Expr::Atomic(operand.item),
        }),
{
    let ghost first_start = old(exprs)@[0].span.start;
    let ghost top_end = old(exprs)@[old(exprs)@.len() - 1].span.end;
    while ops.len() > 0 && ops[ops.len() - 1].item.priority() <= op.item.priority()
        invariant
            stack_wf(src, exprs@, ops@),
            exprs@[0].span.start == first_start,
            exprs@[exprs@.len() - 1].span.end == top_end,
            exprs@[exprs@.len() - 1].span.end <= op.span.start,
            top_rhs_ok(exprs@, ops@),
            match root_op(exprs@[exprs@.len() - 1].item) {
                Some(b) => op_priority(b) <= op_priority(op.item),
                None => true,
            },
        decreases ops.len(),
    {
        reduce_once(Ghost(src), exprs, ops);
    }
    exprs.push(PU { span: operand.span, item: Expr::Atomic(operand.item) });
    ops.push(op);
    proof {
        assert(exprs@.drop_last()[exprs@.len() - 2] == exprs@[exprs@.len() - 2]);
    }
}

/// Pops the top operator together with its two operands and pushes the
/// reduced binary node, whose span is the merge of its children's spans.
fn reduce_once(Ghost(src): Ghost<Seq<char>>, exprs: &mut Vec<PU<Expr>>, ops: &mut Vec<
    PU<Operators>,
>)
    requires
        stack_wf(src, old(exprs)@, old(ops)@),
        old(ops).len() > 0,
        top_rhs_ok(old(exprs)@, old(ops)@),
    ensures
        stack_wf(src, final(exprs)@, final(ops)@),
        final(ops)@ == old(ops)@.drop_last(),
        final(exprs)@.len() == old(exprs)@.len() - 1,
        final(exprs)@.drop_last() == old(exprs)@.take(old(exprs)@.len() - 2),
        final(exprs)@[0].span.start == old(exprs)@[0].span.start,
        final(exprs)@[final(exprs)@.len() - 1].span.start == old(exprs)@[old(exprs)@.len()
            - 2].span.start,
        final(exprs)@[final(exprs)@.len() - 1].span.end == old(exprs)@[old(exprs)@.len()
            - 1].span.end,
        root_op(final(exprs)@[final(exprs)@.len() - 1].item) == Some(
            old(ops)@[old(ops)@.len() - 1].item,
        ),
        top_rhs_ok(final(exprs)@, final(ops)@),
{
    let ghost es0 = exprs@;
    let ghost os0 = ops@;
    let rhs = exprs.pop().unwrap();
    let op2 = ops.pop().unwrap();
    let lhs = exprs.pop().unwrap();
    proof {
        let ghost j = os0.len() - 1;
        assert(es0[j].span.end <= os0[j].span.start && os0[j].span.end <= es0[j + 1].span.start);
    }
    let span = lhs.span.merge(rhs.span);
    let node = PU { span, item: Expr::Binary(Box::new(lhs), op2, Box::new(rhs)) };
    exprs.push(node);
    proof {
        assert(exprs@ =~= es0.take(es0.len() - 2).push(node));
        assert(ops@ =~= os0.drop_last());
        lemma_stack_reduce(src, es0, os0, exprs@, ops@, node);
        assert(exprs@.drop_last() =~= es0.take(es0.len() - 2));
    }
}

impl Expr {
    /// The precedence-climbing expression parser: one atomic operand,
    /// then repeatedly a binary operator and another operand, reducing
    /// the stacks while the stacked operator binds at least as tightly as
    /// the incoming one. Reducing on *at least as tightly* is what makes
    /// equal-priority operators associate left.
    #[verifier::loop_isolation(false)]
    pub fn parse_at(p: &mut Parser, depth: usize) -> (r: ParseResult<Expr>)
        requires
            old(p).wf(),
            old(p)@.start is None,
        ensures
            final(p).wf(),
            final(p)@.src == old(p)@.src,
            old(p)@.idx <= final(p)@.idx,
            r matches Ok(t) ==> (ok_plumbing(old(p)@, final(p)@, t.span) && expr_rel(
                old(p)@.src,
                t.span,
                t.item,
            ) && op_soft(old(p)@.src, t.span.end as int)),
            depth == 0 ==> (r matches Err(e) && e is Some),
            expr_accept_end(old(p)@.src, old(p)@.idx, depth as nat) matches Some(e) ==> (r
                matches Ok(t) && t.span.end == e && final(p)@.idx == e),
            r matches Err(e) && e is None ==> expr_soft(old(p)@.src, old(p)@.idx),
            r matches Err(e) && e is Some ==> depth <= 2 || !expr_soft(old(p)@.src, old(p)@.idx),
            r matches Err(e) ==> (e matches Some(pe) ==> old(p)@.idx <= pe.span.start
                <= pe.span.end <= old(p)@.src.len()),
        decreases depth, 1int,
    {
        if depth == 0 {
            return p.throw("expression nested too deeply");
        }
        let ghost p0: Parser = *p;
        let ghost src = p0@.src;
        let ghost eacc = expr_accept_end(src, p0@.idx, depth as nat);
        let m = p.mark_attempt();
        let r0 = AtomicExpr::parse_at(p, depth - 1);
        let r0 = p.finish_attempt(m, r0);
        let first = r0?;
        proof {
            lemma_atomic_rel_not_soft(src, p0@.idx, first.span, first.item);
        }
        Expr::climb(p, depth, first, Ghost(p0@))
    }

    /// The operator loop of the expression parser, entered with the
    /// first operand in hand: repeatedly an operator and an operand,
    /// reducing the stacks while the stacked operator binds at least as
    /// tightly. With an operand in hand the expression exists, so this
    /// never reports a soft mismatch.
    #[verifier::loop_isolation(false)]
    #[verifier::rlimit(100)]
    fn climb(
        p: &mut Parser,
        depth: usize,
        first: PU<AtomicExpr>,
        Ghost(entry): Ghost<crate::parser::ParserView>,
    ) -> (r: ParseResult<Expr>)
        requires
            old(p).wf(),
            old(p)@.src == entry.src,
            0 <= entry.idx,
            entry.idx <= first.span.start,
            first.span.start == ws_end(entry.src, entry.idx),
            first.span.start <= first.span.end <= entry.src.len(),
            first.span.end == old(p)@.idx,
            old(p)@.start == Some(first.span.start as int),
            atomic_rel(entry.src, first.span, first.item),
            depth >= 1,
        ensures
            final(p).wf(),
            final(p)@.src == entry.src,
            old(p)@.idx <= final(p)@.idx,
            r matches Ok(t) ==> {
                &&& t.span.start == first.span.start
                &&& t.span.start <= t.span.end <= entry.src.len()
                &&& t.span.end == final(p)@.idx
                &&& final(p)@.start == Some(t.span.start as int)
                &&& expr_rel(entry.src, t.span, t.item)
                &&& op_soft(entry.src, final(p)@.idx)
            },
            expr_tail_accept_end(entry.src, old(p)@.idx, depth as nat, (entry.src.len()
                + 1) as nat) matches Some(e) ==> (r matches Ok(t) && t.span.end == e
                && final(p)@.idx == e),
            r matches Err(e) ==> e is Some,
            r matches Err(e) ==> (e matches Some(pe) ==> entry.idx <= pe.span.start
                <= pe.span.end <= entry.src.len()),
        decreases depth, 0int,
    {
        let ghost src = entry.src;
        let ghost tacc = expr_tail_accept_end(src, first.span.end as int, depth as nat, (
        src.len() + 1) as nat);
        let ghost mut msteps: nat = (src.len() + 1) as nat;
        let mut exprs: Vec<PU<Expr>> = Vec::new();
        let mut ops: Vec<PU<Operators>> = Vec::new();
        exprs.push(PU { span: first.span, item: Expr::Atomic(first.item) });
        let mut done = false;
        while !done
            invariant
                p.wf(),
                p@.src == src,
                stack_wf(src, exprs@, ops@),
                p@.start == Some(first.span.start as int),
                exprs@[0].span.start == first.span.start,
                exprs@[exprs@.len() - 1].span.end == p@.idx,
                exprs@[exprs@.len() - 1].item is Atomic,
                first.span.end <= p@.idx,
                done ==> op_soft(src, p@.idx),
                tacc matches Some(e) ==> expr_tail_accept_end(src, p@.idx, depth as nat, msteps)
                    == Some(e),
            decreases p@.src.len() - p@.idx + (if done { 0int } else { 1int }),
        {
            let ghost jh = p@.idx;
            let m2 = p.mark_attempt();
            let rop = BinaryOp::parse(p);
            let rop = p.finish_attempt(m2, rop);
            proof {
                if tacc is Some {
                    lemma_op_word_classes(word_of(src, jh));
                    if rop is Ok {
                        lemma_op_tok_word(src, jh, rop->Ok_0);
                    }
                }
            }
            if outcome_is_soft(&rop) {
                done = true;
            } else {
                if !outcome_is_ok(&rop) {
                    return fail_of(rop);
                }
                let op = ok_of(rop);
                proof {
                    if tacc is Some {
                        lemma_op_tok_word(src, jh, op);
                        assert(is_binary_op_word(word_of(src, jh)));
                        msteps = (msteps - 1) as nat;
                    }
                }
                let m3 = p.mark_attempt();
                let ra = AtomicExpr::parse_at(p, depth - 1);
                let ra = p.finish_attempt(m3, ra);
                let ra = p.must_match(ra, "expect an atomic expression after a binary operator");
                if !outcome_is_ok(&ra) {
                    return fail_of(ra);
                }
                let operand = ok_of(ra);
                proof {
                    lemma_op_lexeme_nonempty(op.item);
                    assert(src.subrange(op.span.start as int, op.span.end as int).len()
                        == op.span.end - op.span.start);
                    lemma_atomic_nonempty(src, operand.span, operand.item);
                }
                shift_reduce(Ghost(src), &mut exprs, &mut ops, op, operand);
            }
        }
        proof {
            assert(top_rhs_ok(exprs@, ops@));
        }
        // drain the remaining stacked operators
        while ops.len() > 0
            invariant
                p.wf(),
                p@.src == src,
                stack_wf(src, exprs@, ops@),
                p@.start == Some(first.span.start as int),
                exprs@[0].span.start == first.span.start,
                exprs@[exprs@.len() - 1].span.end == p@.idx,
                top_rhs_ok(exprs@, ops@),
            decreases ops.len(),
        {
            reduce_once(Ghost(src), &mut exprs, &mut ops);
        }
        let t = exprs.pop().unwrap();
        Ok(t)
    }
}

impl Expr {
    /// Parses one expression that covers the whole input: on success only
    /// whitespace stands before the expression's span and after it, so
    /// for an input with no surrounding whitespace the root span is
    /// exactly the input. Anything else left over is a hard error. An
    /// input whose first word opens no expression form is always an
    /// error, and an input that is one fitting digit run surrounded by
    /// whitespace always parses.
    pub fn parse_all(src: &[char]) -> (r: Result<PU<Expr>, ParseError>)
        ensures
            r matches Ok(t) ==> {
                &&& t.span.start <= t.span.end <= src@.len()
                &&& expr_rel(src@, t.span, t.item)
                &&& ws_only(src@, 0, t.span.start as int)
                &&& ws_only(src@, t.span.end as int, src@.len() as int)
            },
            expr_soft(src@, 0) ==> r is Err,
            r matches Err(e) ==> e.span.start <= e.span.end <= src@.len(),
            ({
                let acc = expr_accept_end(src@, 0, MAX_DEPTH as nat);
                acc matches Some(e) && ws_end(src@, e) == src@.len()
            }) ==> r is Ok,
    {
        let mut p = Parser::new(src);
        let m = p.mark_attempt();
        let r = Expr::parse_at(&mut p, MAX_DEPTH);
        let r = p.finish_attempt(m, r);
        match r {
            Ok(t) => {
                proof {
                    lemma_expr_rel_not_soft(src@, 0, t.span, t.item);
                }
                p.skip_whitespace();
                proof {
                    lemma_ws_end(src@, t.span.end as int);
                }
                match p.peek() {
                    None => Ok(t),
                    Some(_) => Err(p.new_error("the expression ends before the input does")),
                }
            },
            Err(Some(e)) => Err(e),
            Err(None) => Err(p.new_error("the input does not begin with an expression")),
        }
    }
}

impl ParseUnit for Expr {
    type Target = Expr;

    open spec fn wf_target(src: Seq<char>, t: PU<Expr>) -> bool {
        &&& expr_rel(src, t.span, t.item)
        &&& op_soft(src, t.span.end as int)
    }

    open spec fn soft_spec(src: Seq<char>, i: int) -> bool {
        expr_soft(src, i)
    }

    open spec fn hard_spec(src: Seq<char>, i: int) -> bool {
        !expr_soft(src, i)
    }

    fn parse(p: &mut Parser) -> (r: ParseResult<Expr>) {
        Expr::parse_at(p, MAX_DEPTH)
    }
}

impl ParseUnit for AtomicExpr {
    type Target = AtomicExpr;

    open spec fn wf_target(src: Seq<char>, t: PU<AtomicExpr>) -> bool {
        &&& atomic_rel(src, t.span, t.item)
        &&& (t.item is Variable ==> word_of(src, t.span.end as int) != sym_lexeme(
            Symbol::Parameter,
        ))
    }

    open spec fn soft_spec(src: Seq<char>, i: int) -> bool {
        atomic_soft(src, i)
    }

    open spec fn hard_spec(src: Seq<char>, i: int) -> bool {
        !atomic_soft(src, i)
    }

    fn parse(p: &mut Parser) -> (r: ParseResult<AtomicExpr>) {
        AtomicExpr::parse_at(p, MAX_DEPTH)
    }
}

} // verus!
