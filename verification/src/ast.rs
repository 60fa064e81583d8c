//! The expression abstract syntax tree, and the specification relations
//! that tie every node to the exact text it was parsed from.
//!
//! The relations ([`expr_rel`], [`atomic_rel`]) say, for each node kind,
//! which words stand in the node's span, how the children's spans compose
//! into the parent's (a composite's span starts at its first child's
//! start and ends at its last child's end), and — for binary nodes — the
//! precedence shape the climbing algorithm guarantees: a binary left
//! child binds at least as tightly as its parent, a binary right child
//! strictly tighter. That shape makes equal-priority operators associate
//! left and higher-priority operators bind tighter.

use vstd::prelude::*;

use crate::keywords::{is_keyword, sym_lexeme, Symbol};
use crate::lex::{digit_at, digits_val, is_alpha, word_at, ws_end};
use crate::ops::{op_assoc, op_lexeme, op_priority, OperatorAssociativity, Operators};
use crate::ops::is_operator_word;
use crate::span::{Span, PU};

verus! {

/// An identifier: a word that is reserved neither as a keyword nor as an
/// operator, starting with a letter or an underscore.
#[derive(Clone, Debug, PartialEq)]
pub struct Ident {
    pub ident: PU<Vec<char>>,
}

/// A variable reference is a bare identifier.
pub type Variable = Ident;

/// `wen2 <word>`: one character, spelled plainly or as a two-character
/// escape beginning with `_`.
#[derive(Clone, Debug, PartialEq)]
pub struct CharLiteral {
    pub zi4: PU<Symbol>,
    pub unparsed: PU<Vec<char>>,
    pub parsed: char,
}

/// `chuan4 <word>`: a string whose body is the word with its `_` escape
/// sequences resolved.
#[derive(Clone, Debug, PartialEq)]
pub struct StringLiteral {
    pub chuan4: PU<Symbol>,
    pub unparsed: PU<Vec<char>>,
    pub parsed: Vec<char>,
}

/// A run of decimal digits.
#[derive(Clone, Copy, Debug, PartialEq)]
pub enum NumberLiteral {
    Digit { number: usize },
}

/// The arguments of a call: expressions separated by `fen1`.
#[derive(Debug)]
pub struct Arguments {
    pub args: Vec<PU<Expr>>,
    pub semicolons: Vec<PU<Symbol>>,
}

/// `han2 <atomic>* jie2`: a block initializer.
#[derive(Debug)]
pub struct Initialization {
    pub han2: PU<Symbol>,
    pub args: Vec<PU<AtomicExpr>>,
    pub jie2: PU<Symbol>,
}

/// `<name> can1 <arguments> jie2`: a function call.
#[derive(Debug)]
pub struct FnCall {
    pub fn_name: PU<Ident>,
    pub han2: PU<Symbol>,
    pub args: PU<Arguments>,
    pub jie2: PU<Symbol>,
}

/// A unary prefix operator applied to an atomic expression. The operand
/// is boxed: an atomic expression may itself be a unary expression, and
/// the variant must stay finite.
#[derive(Debug)]
pub struct UnaryExpr {
    pub operator: PU<Operators>,
    pub expr: Box<PU<AtomicExpr>>,
}

/// `can1 <expr> jie2`: a parenthesized expression, overriding precedence.
#[derive(Debug)]
pub struct BracketExpr {
    pub can1: PU<Symbol>,
    pub expr: Box<PU<Expr>>,
    pub jie2: PU<Symbol>,
}

/// The irreducible expression forms, tried in this declared order. The
/// order is load-bearing where forms share a prefix: a function call is
/// tried before a bare variable, so an identifier followed by `can1` is
/// always a call, never a variable with leftovers.
#[derive(Debug)]
pub enum AtomicExpr {
    CharLiteral(CharLiteral),
    StringLiteral(StringLiteral),
    NumberLiteral(NumberLiteral),
    FnCall(FnCall),
    Variable(Variable),
    UnaryExpr(UnaryExpr),
    Initialization(Initialization),
    BracketExpr(BracketExpr),
}

/// An expression: an atomic form, or a binary node whose children are
/// boxed to keep the type finite.
#[derive(Debug)]
pub enum Expr {
    Atomic(AtomicExpr),
    Binary(Box<PU<Expr>>, PU<Operators>, Box<PU<Expr>>),
}

/// The operator at the root of an expression, if the root is binary.
pub open spec fn root_op(e: Expr) -> Option<Operators> {
    match e {
        Expr::Binary(_, o, _) => Some(o.item),
        Expr::Atomic(_) => None,
    }
}

/// The word in `span` is reserved neither way and names an identifier.
pub open spec fn ident_rel(src: Seq<char>, span: Span, id: Ident) -> bool {
    &&& id.ident.span == span
    &&& word_at(src, span.start as int, span.end as int)
    &&& span.start < span.end
    &&& id.ident.item@ == src.subrange(span.start as int, span.end as int)
    &&& (is_alpha(src[span.start as int]) || src[span.start as int] == '_')
    &&& !is_keyword(id.ident.item@)
    &&& !is_operator_word(id.ident.item@)
}

/// What one escape character stands for, or nothing when it is not a
/// recognized escape.
pub open spec fn escape_spec(c: char) -> Option<char> {
    if c == '_' {
        Some('_')
    } else if c == 't' {
        Some('\t')
    } else if c == 'n' {
        Some('\n')
    } else if c == 's' {
        Some(' ')
    } else {
        None
    }
}

/// The character a character-literal body stands for: the character
/// itself for a one-character body, the resolved escape for a
/// two-character body led by `_`, nothing otherwise.
pub open spec fn char_value(w: Seq<char>) -> Option<char> {
    if w.len() == 1 {
        Some(w[0])
    } else if w.len() == 2 && w[0] == '_' {
        escape_spec(w[1])
    } else {
        None
    }
}

/// The string a string-literal body stands for: each `_` starts an
/// escape pair; a trailing `_` or an unknown escape resolves to nothing.
pub open spec fn unescape(w: Seq<char>) -> Option<Seq<char>>
    decreases w.len(),
{
    if w.len() == 0 {
        Some(Seq::empty())
    } else if w[0] == '_' {
        if w.len() == 1 {
            None
        } else {
            match escape_spec(w[1]) {
                Some(c) => match unescape(w.skip(2)) {
                    Some(rest) => Some(seq![c] + rest),
                    None => None,
                },
                None => None,
            }
        }
    } else {
        match unescape(w.skip(1)) {
            Some(rest) => Some(seq![w[0]] + rest),
            None => None,
        }
    }
}

/// A keyword token: the word in `span` is exactly the keyword's lexeme.
pub open spec fn sym_tok_rel(src: Seq<char>, t: PU<Symbol>, expected: Symbol) -> bool {
    &&& t.item == expected
    &&& word_at(src, t.span.start as int, t.span.end as int)
    &&& src.subrange(t.span.start as int, t.span.end as int) == sym_lexeme(expected)
}

/// An operator token: the word in the token's span is the operator's
/// lexeme.
pub open spec fn op_tok_rel(src: Seq<char>, t: PU<Operators>) -> bool {
    &&& word_at(src, t.span.start as int, t.span.end as int)
    &&& src.subrange(t.span.start as int, t.span.end as int) == op_lexeme(t.item)
}

pub open spec fn char_lit_rel(src: Seq<char>, span: Span, c: CharLiteral) -> bool {
    &&& span.start == c.zi4.span.start
    &&& span.end == c.unparsed.span.end
    &&& sym_tok_rel(src, c.zi4, Symbol::Char)
    &&& c.unparsed.span.start == ws_end(src, c.zi4.span.end as int)
    &&& word_at(src, c.unparsed.span.start as int, c.unparsed.span.end as int)
    &&& c.unparsed.span.start < c.unparsed.span.end
    &&& c.unparsed.item@ == src.subrange(
        c.unparsed.span.start as int,
        c.unparsed.span.end as int,
    )
    &&& char_value(c.unparsed.item@) == Some(c.parsed)
}

pub open spec fn str_lit_rel(src: Seq<char>, span: Span, s: StringLiteral) -> bool {
    &&& span.start == s.chuan4.span.start
    &&& span.end == s.unparsed.span.end
    &&& sym_tok_rel(src, s.chuan4, Symbol::String)
    &&& s.unparsed.span.start == ws_end(src, s.chuan4.span.end as int)
    &&& word_at(src, s.unparsed.span.start as int, s.unparsed.span.end as int)
    &&& s.unparsed.span.start < s.unparsed.span.end
    &&& s.unparsed.item@ == src.subrange(
        s.unparsed.span.start as int,
        s.unparsed.span.end as int,
    )
    &&& unescape(s.unparsed.item@) == Some(s.parsed@)
}

pub open spec fn num_rel(src: Seq<char>, span: Span, n: NumberLiteral) -> bool {
    match n {
        NumberLiteral::Digit { number } => {
            &&& digit_at(src, span.start as int, span.end as int)
            &&& digits_val(src.subrange(span.start as int, span.end as int)) == number as int
        },
    }
}

/// The precedence shape on a binary node's left child: a binary left
/// child binds at least as tightly as the parent. With equal priorities
/// allowed on the left but not on the right, equal-priority chains can
/// only lean left: `a + b - c` is `(a + b) - c`.
pub open spec fn left_prio_ok(l: Expr, o: Operators) -> bool {
    match root_op(l) {
        Some(b) => op_priority(b) <= op_priority(o),
        None => true,
    }
}

/// The precedence shape on a binary node's right child: a binary right
/// child binds strictly tighter than the parent, so a looser or equal
/// operator can never hide in a right subtree: `a + b * c` is
/// `a + (b * c)`, never `a + (b - c)` for `a + b - c`.
pub open spec fn right_prio_ok(r: Expr, o: Operators) -> bool {
    match root_op(r) {
        Some(b) => op_priority(b) < op_priority(o),
        None => true,
    }
}

/// What a parsed expression means: the relation between the source text,
/// the covered span, and the tree. Composite spans equal the merge of
/// their children's spans, and every binary node has the precedence
/// shape of [`left_prio_ok`] and [`right_prio_ok`].
pub open spec fn expr_rel(src: Seq<char>, span: Span, e: Expr) -> bool
    decreases e,
{
    match e {
        Expr::Atomic(a) => atomic_rel(src, span, a),
        Expr::Binary(l, o, r) => {
            &&& span.start == l.span.start
            &&& span.end == r.span.end
            &&& l.span.start <= l.span.end <= o.span.start
            &&& o.span.end <= r.span.start <= r.span.end <= src.len()
            &&& o.span.start == ws_end(src, l.span.end as int)
            &&& r.span.start == ws_end(src, o.span.end as int)
            &&& op_tok_rel(src, o)
            &&& op_assoc(o.item) == OperatorAssociativity::Binary
            &&& expr_rel(src, l.span, l.item)
            &&& expr_rel(src, r.span, r.item)
            &&& left_prio_ok(l.item, o.item)
            &&& right_prio_ok(r.item, o.item)
        },
    }
}

pub open spec fn unary_rel(src: Seq<char>, span: Span, u: UnaryExpr) -> bool
    decreases u,
{
    &&& span.start == u.operator.span.start
    &&& span.end == u.expr.span.end
    &&& op_tok_rel(src, u.operator)
    &&& op_assoc(u.operator.item) == OperatorAssociativity::Unary
    &&& u.operator.span.start <= u.operator.span.end
    &&& u.expr.span.start == ws_end(src, u.operator.span.end as int)
    &&& u.expr.span.start <= u.expr.span.end <= src.len()
    &&& atomic_rel(src, u.expr.span, u.expr.item)
}

pub open spec fn fncall_rel(src: Seq<char>, span: Span, f: FnCall) -> bool
    decreases f,
{
    &&& span.start == f.fn_name.span.start
    &&& span.end == f.jie2.span.end
    &&& ident_rel(src, f.fn_name.span, f.fn_name.item)
    &&& sym_tok_rel(src, f.han2, Symbol::Parameter)
    &&& sym_tok_rel(src, f.jie2, Symbol::Jie2)
    &&& f.han2.span.start == ws_end(src, f.fn_name.span.end as int)
    &&& f.fn_name.span.end <= f.han2.span.start
    &&& f.han2.span.end <= f.jie2.span.start
    &&& f.jie2.span.start <= f.jie2.span.end <= src.len()
    &&& args_rel(src, f.han2.span.end as int, f.jie2.span.start as int, f.args.item)
}

pub open spec fn init_rel(src: Seq<char>, span: Span, ini: Initialization) -> bool
    decreases ini,
{
    &&& span.start == ini.han2.span.start
    &&& span.end == ini.jie2.span.end
    &&& sym_tok_rel(src, ini.han2, Symbol::Block)
    &&& sym_tok_rel(src, ini.jie2, Symbol::Jie2)
    &&& ini.han2.span.end <= ini.jie2.span.start
    &&& ini.jie2.span.start <= ini.jie2.span.end <= src.len()
    &&& init_args_rel(src, ini.han2.span.end as int, ini.jie2.span.start as int, ini.args)
}

pub open spec fn bracket_rel(src: Seq<char>, span: Span, b: BracketExpr) -> bool
    decreases b,
{
    &&& span.start == b.can1.span.start
    &&& span.end == b.jie2.span.end
    &&& sym_tok_rel(src, b.can1, Symbol::Parameter)
    &&& sym_tok_rel(src, b.jie2, Symbol::Jie2)
    &&& b.can1.span.end <= b.expr.span.start <= b.expr.span.end
    &&& b.expr.span.end <= b.jie2.span.start
    &&& b.jie2.span.start <= b.jie2.span.end <= src.len()
    &&& expr_rel(src, b.expr.span, b.expr.item)
}

pub open spec fn atomic_rel(src: Seq<char>, span: Span, a: AtomicExpr) -> bool
    decreases a,
{
    match a {
        AtomicExpr::CharLiteral(c) => char_lit_rel(src, span, c),
        AtomicExpr::StringLiteral(s) => str_lit_rel(src, span, s),
        AtomicExpr::NumberLiteral(n) => num_rel(src, span, n),
        AtomicExpr::Variable(v) => ident_rel(src, span, v),
        AtomicExpr::UnaryExpr(u) => unary_rel(src, span, u),
        AtomicExpr::FnCall(f) => fncall_rel(src, span, f),
        AtomicExpr::Initialization(ini) => init_rel(src, span, ini),
        AtomicExpr::BracketExpr(b) => bracket_rel(src, span, b),
    }
}

/// The argument expressions of a call: each within the region between
/// the delimiters, in source order.
pub open spec fn args_rel(src: Seq<char>, lo: int, hi: int, a: Arguments) -> bool
    decreases a,
{
    &&& forall|k: int|
        0 <= k < a.args.len() ==> {
            &&& lo <= (#[trigger] a.args[k]).span.start
            &&& a.args[k].span.start <= a.args[k].span.end <= hi
            &&& expr_rel(src, a.args[k].span, a.args[k].item)
        }
}

/// Every keyword lexeme is a nonempty word.
pub proof fn lemma_sym_lexeme_nonempty(s: Symbol)
    ensures
        sym_lexeme(s).len() > 0,
{
    match s {
        Symbol::FnCallL => reveal_strlit("ya1"),
        Symbol::FnCallR => reveal_strlit("ru4"),
        Symbol::BracketR => reveal_strlit("he2"),
        Symbol::Block => reveal_strlit("han2"),
        Symbol::Parameter => reveal_strlit("can1"),
        Symbol::Comment => reveal_strlit("shi4"),
        Symbol::Jie2 => reveal_strlit("jie2"),
        Symbol::Semicolon => reveal_strlit("fen1"),
        Symbol::Assign => reveal_strlit("wei2"),
        Symbol::GetElement => reveal_strlit("de1"),
        Symbol::Label => reveal_strlit("biao1"),
        Symbol::Char => reveal_strlit("wen2"),
        Symbol::String => reveal_strlit("chuan4"),
    }
}

/// Every operator lexeme is a nonempty word.
pub proof fn lemma_op_lexeme_nonempty(o: Operators)
    ensures
        op_lexeme(o).len() > 0,
{
    match o {
        Operators::Add => reveal_strlit("jia1"),
        Operators::Sub => reveal_strlit("jian3"),
        Operators::Mul => reveal_strlit("cheng2"),
        Operators::Div => reveal_strlit("chu2"),
        Operators::Not => reveal_strlit("fei1"),
    }
}

/// A parsed atomic expression always covers at least one character: its
/// first child is a nonempty word.
pub proof fn lemma_atomic_nonempty(src: Seq<char>, span: Span, a: AtomicExpr)
    requires
        atomic_rel(src, span, a),
    ensures
        span.start < span.end,
{
    match a {
        AtomicExpr::CharLiteral(c) => {
            lemma_sym_lexeme_nonempty(Symbol::Char);
            assert(src.subrange(c.zi4.span.start as int, c.zi4.span.end as int).len()
                == c.zi4.span.end - c.zi4.span.start);
            crate::lex::lemma_ws_end(src, c.zi4.span.end as int);
        },
        AtomicExpr::StringLiteral(s) => {
            lemma_sym_lexeme_nonempty(Symbol::String);
            assert(src.subrange(s.chuan4.span.start as int, s.chuan4.span.end as int).len()
                == s.chuan4.span.end - s.chuan4.span.start);
            crate::lex::lemma_ws_end(src, s.chuan4.span.end as int);
        },
        AtomicExpr::NumberLiteral(n) => {
        },
        AtomicExpr::Variable(v) => {
        },
        AtomicExpr::UnaryExpr(u) => {
            lemma_op_lexeme_nonempty(u.operator.item);
            assert(src.subrange(u.operator.span.start as int, u.operator.span.end as int).len()
                == u.operator.span.end - u.operator.span.start);
            crate::lex::lemma_ws_end(src, u.operator.span.end as int);
        },
        AtomicExpr::FnCall(f) => {
        },
        AtomicExpr::Initialization(ini) => {
            lemma_sym_lexeme_nonempty(Symbol::Block);
            assert(src.subrange(ini.han2.span.start as int, ini.han2.span.end as int).len()
                == ini.han2.span.end - ini.han2.span.start);
        },
        AtomicExpr::BracketExpr(b) => {
            lemma_sym_lexeme_nonempty(Symbol::Parameter);
            assert(src.subrange(b.can1.span.start as int, b.can1.span.end as int).len()
                == b.can1.span.end - b.can1.span.start);
        },
    }
}

/// A parsed expression always covers at least one character.
pub proof fn lemma_expr_nonempty(src: Seq<char>, span: Span, e: Expr)
    requires
        expr_rel(src, span, e),
    ensures
        span.start < span.end,
    decreases e,
{
    match e {
        Expr::Atomic(a) => {
            lemma_atomic_nonempty(src, span, a);
        },
        Expr::Binary(l, o, r) => {
            lemma_expr_nonempty(src, l.span, l.item);
        },
    }
}

/// The atomic arguments of a block initializer, each within the region
/// between the delimiters.
pub open spec fn init_args_rel(src: Seq<char>, lo: int, hi: int, args: Vec<PU<AtomicExpr>>) -> bool
    decreases args,
{
    &&& forall|k: int|
        0 <= k < args.len() ==> {
            &&& lo <= (#[trigger] args[k]).span.start
            &&& args[k].span.start <= args[k].span.end <= hi
            &&& atomic_rel(src, args[k].span, args[k].item)
        }
}

} // verus!
