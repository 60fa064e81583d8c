//! The laws the parsed trees obey, stated and proved over the relations
//! of [`crate::ast`]: the root span covers the whole input, composite
//! spans are the merge of their children's spans, the precedence shape
//! pins associativity and binding, and a chain of unary operator words
//! before a digit run parses to exactly that many nested unary nodes.

use vstd::prelude::*;

use crate::ast::{
    atomic_rel, expr_rel, left_prio_ok, right_prio_ok, root_op, unary_rel, AtomicExpr, Expr,
    NumberLiteral,
};
use crate::keywords::{sym_lexeme, Symbol};
use crate::lex::{
    digit_at, digits_val, is_alpha, is_digit, is_ws, lemma_word_at_unique, lemma_word_char_not_ws,
    lemma_ws_end, lemma_ws_end_idempotent, word_at, ws_end, ws_only,
};
use crate::expr::{
    atomic_accept_end, lemma_digit_starts_no_lexeme, number_accept_end, unary_accept_end,
    word_of, word_of_end,
};
use crate::expr::{char_soft, fncall_soft, ident_soft, num_soft, string_soft};
use crate::lex::{lemma_digit_end_of_run, lemma_word_end_of_run};
use crate::ops::{is_operator_word, is_unary_op_word};
use crate::ops::{op_assoc, op_lexeme, op_priority, OperatorAssociativity, Operators};
use crate::span::{Span, PU};

verus! {

/// A root expression that is surrounded by whitespace only covers the
/// whole input whenever the input starts and ends with non-whitespace:
/// the root token's span length equals the full input length, with no
/// unconsumed trailing text.
pub proof fn lemma_root_covers_input(src: Seq<char>, t: PU<Expr>)
    requires
        t.span.start <= t.span.end <= src.len(),
        expr_rel(src, t.span, t.item),
        ws_only(src, 0, t.span.start as int),
        ws_only(src, t.span.end as int, src.len() as int),
        src.len() > 0,
        !is_ws(src[0]),
        !is_ws(src[src.len() - 1]),
    ensures
        t.span.start == 0,
        t.span.end == src.len(),
        t.span.end - t.span.start == src.len(),
{
    if t.span.start > 0 {
        assert(is_ws(src[0]));
    }
    if (t.span.end as int) < src.len() {
        assert(is_ws(src[src.len() - 1]));
    }
}

/// Composite spans compose exactly from the children: a binary node's
/// span is the merge of its children's spans (minimum of starts, maximum
/// of ends), equal to first child's start and last child's end; a unary
/// node's span runs from its operator's start to its operand's end.
pub proof fn lemma_composite_span(src: Seq<char>, span: Span, e: Expr)
    requires
        expr_rel(src, span, e),
    ensures
        e matches Expr::Binary(l, o, r) ==> {
            &&& span.start == if l.span.start <= r.span.start {
                l.span.start
            } else {
                r.span.start
            }
            &&& span.end == if l.span.end >= r.span.end {
                l.span.end
            } else {
                r.span.end
            }
            &&& span.start == l.span.start
            &&& span.end == r.span.end
        },
        e matches Expr::Atomic(a) ==> (a matches AtomicExpr::UnaryExpr(u) ==> span.start
            == u.operator.span.start && span.end == u.expr.span.end),
{
    match e {
        Expr::Binary(l, o, r) => {
            assert(l.span.start <= o.span.start <= r.span.start);
            assert(l.span.end <= o.span.end <= r.span.end);
        },
        Expr::Atomic(a) => {
            assert(atomic_rel(src, span, a));
            match a {
                AtomicExpr::UnaryExpr(u) => {
                    assert(a == AtomicExpr::UnaryExpr(u));
                    assert(unary_rel(src, span, u));
                },
                _ => {},
            }
        },
    }
}

/// The precedence shape of every parsed binary node: a binary left child
/// binds at least as tightly as the node's own operator, a binary right
/// child strictly tighter. Equal-priority operators therefore associate
/// left (`a + b - c` can only be `(a + b) - c`), and a higher-priority
/// operator can never hang above a lower-priority child on either side
/// (`a + b * c` can only be `a + (b * c)`).
pub proof fn lemma_precedence_shape(
    src: Seq<char>,
    span: Span,
    l: Box<PU<Expr>>,
    o: PU<Operators>,
    r: Box<PU<Expr>>,
)
    requires
        expr_rel(src, span, Expr::Binary(l, o, r)),
    ensures
        left_prio_ok(l.item, o.item),
        right_prio_ok(r.item, o.item),
        root_op(l.item) matches Some(b) ==> op_priority(b) <= op_priority(o.item),
        root_op(r.item) matches Some(b) ==> op_priority(b) < op_priority(o.item),
{
}

/// How many unary nodes wrap the core of an atomic expression.
pub open spec fn unary_depth(a: AtomicExpr) -> nat
    decreases a,
{
    match a {
        AtomicExpr::UnaryExpr(u) => 1 + unary_depth(u.expr.item),
        _ => 0,
    }
}

/// The text from `i` is whitespace, then a chain of `n` unary operator
/// words, then one run of digits whose value fits the machine word,
/// ending exactly at `j`.
pub open spec fn chain_shape(src: Seq<char>, i: int, j: int, n: nat) -> bool
    decreases n,
{
    if n == 0 {
        &&& digit_at(src, ws_end(src, i), j)
        &&& digits_val(src.subrange(ws_end(src, i), j)) <= usize::MAX
    } else {
        exists|o: Operators, m: int|
            {
                &&& op_assoc(o) == OperatorAssociativity::Unary
                &&& word_at(src, ws_end(src, i), m)
                &&& #[trigger] src.subrange(ws_end(src, i), m) == #[trigger] op_lexeme(o)
                &&& chain_shape(src, m, j, (n - 1) as nat)
            }
    }
}


/// A whitespace-padded chain of `n` unary operator words before one
/// fitting digit run is accepted by the grammar's acceptance model, with
/// a nesting allowance of `2n + 1`, ending exactly at the chain's end.
/// Together with the atomic rule's owed-success clause this says such an
/// input always parses — and by `lemma_unary_chain` it parses to exactly
/// `n` nested unary nodes wrapping the number.
pub proof fn lemma_chain_shape_accepted(src: Seq<char>, i: int, j: int, n: nat, depth: nat)
    requires
        0 <= i <= src.len(),
        chain_shape(src, i, j, n),
        depth >= 2 * n + 1,
    ensures
        atomic_accept_end(src, i, depth) == Some(j),
    decreases n,
{
    let s0 = ws_end(src, i);
    lemma_ws_end(src, i);
    if n == 0 {
        lemma_digit_end_of_run(src, s0, j);
        assert(!num_soft(src, i));
        lemma_digit_starts_no_lexeme(src, i);
        assert(char_soft(src, i));
        assert(string_soft(src, i));
        assert(number_accept_end(src, i) == Some(j));
    } else {
        let (o, m) = choose|o: Operators, m: int|
            {
                &&& op_assoc(o) == OperatorAssociativity::Unary
                &&& word_at(src, ws_end(src, i), m)
                &&& #[trigger] src.subrange(ws_end(src, i), m) == #[trigger] op_lexeme(o)
                &&& chain_shape(src, m, j, (n - 1) as nat)
            };
        lemma_op_word_facts(o);
        lemma_word_end_of_run(src, s0, m);
        assert(word_of(src, i) =~= op_lexeme(o));
        assert(word_of_end(src, i) == m);
        assert(is_unary_op_word(word_of(src, i)));
        assert(is_operator_word(word_of(src, i)));
        assert(src.subrange(s0, m).len() == m - s0);
        assert(src[s0] == op_lexeme(o)[0]);
        assert(!is_digit(src[s0]));
        assert(num_soft(src, i));
        assert(char_soft(src, i));
        assert(string_soft(src, i));
        assert(ident_soft(src, i));
        assert(fncall_soft(src, i));
        lemma_chain_shape_accepted(src, m, j, (n - 1) as nat, (depth - 2) as nat);
        assert(unary_accept_end(src, i, (depth - 1) as nat) == Some(j));
    }
}

/// Facts about each operator's lexeme that tell it apart from anything
/// else that can start an atomic expression.
proof fn lemma_op_word_facts(o: Operators)
    ensures
        op_lexeme(o).len() > 0,
        is_alpha(op_lexeme(o)[0]),
        !is_digit(op_lexeme(o)[0]),
        op_lexeme(o) != sym_lexeme(Symbol::Char),
        op_lexeme(o) != sym_lexeme(Symbol::String),
        op_lexeme(o) != sym_lexeme(Symbol::Block),
        op_lexeme(o) != sym_lexeme(Symbol::Parameter),
        is_operator_word(op_lexeme(o)),
{
    reveal_strlit("wen2");
    reveal_strlit("chuan4");
    reveal_strlit("han2");
    reveal_strlit("can1");
    assert(sym_lexeme(Symbol::Char).len() == 4 && sym_lexeme(Symbol::Char)[0] == 'w');
    assert(sym_lexeme(Symbol::String).len() == 6);
    assert(sym_lexeme(Symbol::String)[2] == 'u');
    assert(sym_lexeme(Symbol::Block).len() == 4 && sym_lexeme(Symbol::Block)[0] == 'h');
    assert(sym_lexeme(Symbol::Parameter).len() == 4 && sym_lexeme(Symbol::Parameter)[0] == 'c');
    assert(sym_lexeme(Symbol::Parameter)[1] == 'a');
    match o {
        Operators::Add => {
            reveal_strlit("jia1");
            assert(op_lexeme(o).len() == 4 && op_lexeme(o)[0] == 'j');
        },
        Operators::Sub => {
            reveal_strlit("jian3");
            assert(op_lexeme(o).len() == 5 && op_lexeme(o)[0] == 'j');
        },
        Operators::Mul => {
            reveal_strlit("cheng2");
            assert(op_lexeme(o).len() == 6 && op_lexeme(o)[0] == 'c');
            assert(op_lexeme(o)[2] == 'e');
        },
        Operators::Div => {
            reveal_strlit("chu2");
            assert(op_lexeme(o).len() == 4 && op_lexeme(o)[0] == 'c');
            assert(op_lexeme(o)[1] == 'h');
        },
        Operators::Not => {
            reveal_strlit("fei1");
            assert(op_lexeme(o).len() == 4 && op_lexeme(o)[0] == 'f');
        },
    }
    assert(is_operator_word(op_lexeme(o)));
}

/// The first character of a keyword's lexeme is a letter, never a digit.
proof fn lemma_sym_word_facts(s: Symbol)
    ensures
        sym_lexeme(s).len() > 0,
        !is_digit(sym_lexeme(s)[0]),
{
    match s {
        Symbol::FnCallL => reveal_strlit("ya1"),
        Symbol::FnCallR => reveal_strlit("ru4"),
        Symbol::BracketR => reveal_strlit("he2"),
        Symbol::Block => reveal_strlit("han2"),
        Symbol::Parameter => reveal_strlit("can1"),
        Symbol::Comment => reveal_strlit("shi4"),
        Symbol::Jie2 => reveal_strlit("jie2"),
        Symbol::Semicolon => reveal_strlit("fen1"),
        Symbol::Assign => reveal_strlit("wei2"),
        Symbol::GetElement => reveal_strlit("de1"),
        Symbol::Label => reveal_strlit("biao1"),
        Symbol::Char => reveal_strlit("wen2"),
        Symbol::String => reveal_strlit("chuan4"),
    }
}

/// The chain shape only looks at the text from the first non-whitespace
/// offset, so skipping whitespace first changes nothing.
proof fn lemma_chain_shape_norm(src: Seq<char>, x: int, j: int, k: nat)
    requires
        0 <= x <= src.len(),
    ensures
        chain_shape(src, x, j, k) <==> chain_shape(src, ws_end(src, x), j, k),
{
    lemma_ws_end_idempotent(src, x);
}

/// Every parsed atomic expression opens with a word character: the first
/// character of its first word or digit run.
proof fn lemma_atomic_rel_starts_word(src: Seq<char>, span: Span, a: AtomicExpr)
    requires
        atomic_rel(src, span, a),
    ensures
        (span.start as int) < src.len(),
        crate::lex::is_word_char(src[span.start as int]),
{
    crate::ast::lemma_atomic_nonempty(src, span, a);
    match a {
        AtomicExpr::CharLiteral(c) => {
            lemma_sym_word_facts(Symbol::Char);
            assert(src.subrange(c.zi4.span.start as int, c.zi4.span.end as int).len()
                == c.zi4.span.end - c.zi4.span.start);
        },
        AtomicExpr::StringLiteral(st) => {
            lemma_sym_word_facts(Symbol::String);
            assert(src.subrange(st.chuan4.span.start as int, st.chuan4.span.end as int).len()
                == st.chuan4.span.end - st.chuan4.span.start);
        },
        AtomicExpr::NumberLiteral(_) => {
            assert(is_digit(src[span.start as int]));
        },
        AtomicExpr::Variable(_) => {
        },
        AtomicExpr::FnCall(_) => {
        },
        AtomicExpr::UnaryExpr(u) => {
            lemma_op_word_facts(u.operator.item);
            assert(src.subrange(u.operator.span.start as int, u.operator.span.end as int).len()
                == u.operator.span.end - u.operator.span.start);
        },
        AtomicExpr::Initialization(ini) => {
            lemma_sym_word_facts(Symbol::Block);
            assert(src.subrange(ini.han2.span.start as int, ini.han2.span.end as int).len()
                == ini.han2.span.end - ini.han2.span.start);
        },
        AtomicExpr::BracketExpr(b) => {
            lemma_sym_word_facts(Symbol::Parameter);
            assert(src.subrange(b.can1.span.start as int, b.can1.span.end as int).len()
                == b.can1.span.end - b.can1.span.start);
        },
    }
}

/// A chain of `n` unary prefix operator words before one digit run
/// parses into exactly `n` nested unary nodes wrapping a number literal:
/// whenever a parsed atomic expression covers text of that shape, its
/// unary nesting depth is exactly `n`, for any `n` the parse could have
/// produced.
pub proof fn lemma_unary_chain(src: Seq<char>, span: Span, a: AtomicExpr, n: nat)
    requires
        atomic_rel(src, span, a),
        chain_shape(src, span.start as int, span.end as int, n),
    ensures
        unary_depth(a) == n,
        n == 0 ==> a is NumberLiteral,
    decreases a,
{
    lemma_atomic_rel_starts_word(src, span, a);
    lemma_word_char_not_ws(src[span.start as int]);
    assert(ws_end(src, span.start as int) == span.start as int);
    if n == 0 {
        assert(is_digit(src[span.start as int]));
        match a {
            AtomicExpr::NumberLiteral(_) => {},
            AtomicExpr::CharLiteral(c) => {
                lemma_sym_word_facts(Symbol::Char);
                assert(src[span.start as int] == sym_lexeme(Symbol::Char)[0]);
            },
            AtomicExpr::StringLiteral(s) => {
                lemma_sym_word_facts(Symbol::String);
                assert(src[span.start as int] == sym_lexeme(Symbol::String)[0]);
            },
            AtomicExpr::Variable(v) => {
                assert(is_alpha(src[span.start as int]) || src[span.start as int] == '_');
            },
            AtomicExpr::FnCall(f) => {
                assert(is_alpha(src[span.start as int]) || src[span.start as int] == '_');
            },
            AtomicExpr::UnaryExpr(u) => {
                lemma_op_word_facts(u.operator.item);
                assert(src[span.start as int] == op_lexeme(u.operator.item)[0]);
            },
            AtomicExpr::Initialization(ini) => {
                lemma_sym_word_facts(Symbol::Block);
                assert(src[span.start as int] == sym_lexeme(Symbol::Block)[0]);
            },
            AtomicExpr::BracketExpr(b) => {
                lemma_sym_word_facts(Symbol::Parameter);
                assert(src[span.start as int] == sym_lexeme(Symbol::Parameter)[0]);
            },
        }
    } else {
        let (o, m) = choose|o: Operators, m: int|
            {
                &&& op_assoc(o) == OperatorAssociativity::Unary
                &&& word_at(src, ws_end(src, span.start as int), m)
                &&& #[trigger] src.subrange(ws_end(src, span.start as int), m)
                    == #[trigger] op_lexeme(o)
                &&& chain_shape(src, m, span.end as int, (n - 1) as nat)
            };
        lemma_op_word_facts(o);
        assert(src.subrange(span.start as int, m).len() == m - span.start);
        assert(src[span.start as int] == op_lexeme(o)[0]);
        match a {
            AtomicExpr::UnaryExpr(u) => {
                lemma_word_at_unique(src, span.start as int, m, u.operator.span.end as int);
                lemma_chain_shape_norm(src, m, span.end as int, (n - 1) as nat);
                lemma_unary_chain(src, u.expr.span, u.expr.item, (n - 1) as nat);
            },
            AtomicExpr::NumberLiteral(_) => {
                assert(is_digit(src[span.start as int]));
            },
            AtomicExpr::Variable(v) => {
                lemma_word_at_unique(src, span.start as int, m, span.end as int);
                assert(v.ident.item@ == op_lexeme(o));
            },
            AtomicExpr::FnCall(f) => {
                lemma_word_at_unique(src, span.start as int, m, f.fn_name.span.end as int);
                assert(f.fn_name.item.ident.item@ == op_lexeme(o));
            },
            AtomicExpr::CharLiteral(c) => {
                lemma_word_at_unique(src, span.start as int, m, c.zi4.span.end as int);
                assert(sym_lexeme(Symbol::Char) == op_lexeme(o));
            },
            AtomicExpr::StringLiteral(s) => {
                lemma_word_at_unique(src, span.start as int, m, s.chuan4.span.end as int);
                assert(sym_lexeme(Symbol::String) == op_lexeme(o));
            },
            AtomicExpr::Initialization(ini) => {
                lemma_word_at_unique(src, span.start as int, m, ini.han2.span.end as int);
                assert(sym_lexeme(Symbol::Block) == op_lexeme(o));
            },
            AtomicExpr::BracketExpr(b) => {
                lemma_word_at_unique(src, span.start as int, m, b.can1.span.end as int);
                assert(sym_lexeme(Symbol::Parameter) == op_lexeme(o));
            },
        }
    }
}

} // verus!
