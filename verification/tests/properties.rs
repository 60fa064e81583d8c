//! Concrete instances of the library's stated properties: exact root
//! spans, associativity and precedence shapes, unary chain depths, hard
//! errors for unclosed delimiters, and side-effect-free backtracking.

use pin1yin1_parser::ast::{AtomicExpr, Expr, FnCall, Ident, Initialization, NumberLiteral,
    StringLiteral, UnaryExpr};
use pin1yin1_parser::ast::BracketExpr;
use pin1yin1_parser::ops::Operators;
use pin1yin1_parser::parser::Parser;
use pin1yin1_parser::span::PU;

fn parser_of(text: &str) -> Parser {
    let chars: Vec<char> = text.chars().collect();
    Parser::new(&chars)
}

fn number_of(e: &Expr) -> usize {
    match e {
        Expr::Atomic(AtomicExpr::NumberLiteral(NumberLiteral::Digit { number })) => *number,
        _ => panic!("expected a number leaf"),
    }
}

/// The root token of a fully accepted input covers the whole input.
#[test]
fn root_span_covers_the_input() {
    let text = "1919 jia1 810";
    let chars: Vec<char> = text.chars().collect();
    let t = Expr::parse_all(&chars).unwrap();
    assert_eq!(t.span.start, 0);
    assert_eq!(t.span.end, chars.len());
}

#[test]
fn root_span_excludes_surrounding_whitespace_only() {
    let text = "  1919 jia1 810 ";
    let chars: Vec<char> = text.chars().collect();
    let t = Expr::parse_all(&chars).unwrap();
    assert_eq!(t.span.start, 2);
    assert_eq!(t.span.end, 15);
}

#[test]
fn unconsumed_trailing_text_is_an_error() {
    let text = "1919 810";
    let chars: Vec<char> = text.chars().collect();
    assert!(Expr::parse_all(&chars).is_err());
}

/// Equal-priority binary operators associate left: `1 + 2 - 3` parses as
/// `(1 + 2) - 3`.
#[test]
fn equal_priority_associates_left() {
    let mut p = parser_of("1 jia1 2 jian3 3");
    let t = p.parse::<Expr>().unwrap();
    match t.item {
        Expr::Binary(l, o, r) => {
            assert_eq!(o.item, Operators::Sub);
            assert_eq!(number_of(&r.item), 3);
            match l.item {
                Expr::Binary(ll, lo, lr) => {
                    assert_eq!(lo.item, Operators::Add);
                    assert_eq!(number_of(&ll.item), 1);
                    assert_eq!(number_of(&lr.item), 2);
                }
                _ => panic!("expected the addition on the left"),
            }
        }
        _ => panic!("expected a binary root"),
    }
}

/// Higher-priority operators bind tighter: `1 + 2 * 3` parses as
/// `1 + (2 * 3)`.
#[test]
fn tighter_operator_binds_deeper() {
    let mut p = parser_of("1 jia1 2 cheng2 3");
    let t = p.parse::<Expr>().unwrap();
    match t.item {
        Expr::Binary(l, o, r) => {
            assert_eq!(o.item, Operators::Add);
            assert_eq!(number_of(&l.item), 1);
            match r.item {
                Expr::Binary(rl, ro, rr) => {
                    assert_eq!(ro.item, Operators::Mul);
                    assert_eq!(number_of(&rl.item), 2);
                    assert_eq!(number_of(&rr.item), 3);
                }
                _ => panic!("expected the multiplication on the right"),
            }
        }
        _ => panic!("expected a binary root"),
    }
}

/// `1919 + 810 * 114514 - 12` parses to
/// `Binary(Binary(1919, +, Binary(810, *, 114514)), -, 12)`.
#[test]
fn mixed_priorities_shape() {
    let mut p = parser_of("1919 jia1 810 cheng2 114514 jian3 12");
    let t = p.parse::<Expr>().unwrap();
    match t.item {
        Expr::Binary(l, o, r) => {
            assert_eq!(o.item, Operators::Sub);
            assert_eq!(number_of(&r.item), 12);
            match l.item {
                Expr::Binary(ll, lo, lr) => {
                    assert_eq!(lo.item, Operators::Add);
                    assert_eq!(number_of(&ll.item), 1919);
                    match lr.item {
                        Expr::Binary(m_l, m_o, m_r) => {
                            assert_eq!(m_o.item, Operators::Mul);
                            assert_eq!(number_of(&m_l.item), 810);
                            assert_eq!(number_of(&m_r.item), 114514);
                        }
                        _ => panic!("expected the multiplication inside"),
                    }
                }
                _ => panic!("expected the addition on the left"),
            }
        }
        _ => panic!("expected a binary root"),
    }
}

fn unary_chain_depth(mut t: &PU<AtomicExpr>) -> (usize, usize) {
    let mut depth = 0;
    loop {
        match &t.item {
            AtomicExpr::UnaryExpr(u) => {
                assert_eq!(u.operator.item, Operators::Not);
                depth += 1;
                t = &u.expr;
            }
            AtomicExpr::NumberLiteral(NumberLiteral::Digit { number }) => {
                return (depth, *number);
            }
            _ => panic!("expected a unary chain over a number"),
        }
    }
}

/// Four chained unary operators wrap the literal in exactly four nested
/// unary nodes.
#[test]
fn four_unaries_nest_four_deep() {
    let mut p = parser_of("fei1 fei1 fei1 fei1 191810");
    let t = p.parse::<AtomicExpr>().unwrap();
    let (depth, number) = unary_chain_depth(&t);
    assert_eq!(depth, 4);
    assert_eq!(number, 191810);
}

#[test]
fn ten_unaries_nest_ten_deep() {
    let text = format!("{}7", "fei1 ".repeat(10));
    let mut p = parser_of(&text);
    let t = p.parse::<AtomicExpr>().unwrap();
    let (depth, number) = unary_chain_depth(&t);
    assert_eq!(depth, 10);
    assert_eq!(number, 7);
}

/// Nesting past the configured ceiling is a dedicated hard error, not a
/// crashed stack.
#[test]
fn nesting_past_the_ceiling_is_a_hard_error() {
    let text = format!("{}7", "fei1 ".repeat(200));
    let mut p = parser_of(&text);
    let r = p.parse::<AtomicExpr>();
    assert!(matches!(r, Err(Some(_))));
}

/// A matched opener without its closer is always a hard error, never a
/// soft mismatch that would let a sibling alternative run instead.
#[test]
fn unclosed_initializer_is_hard() {
    let mut p = parser_of("han2 1 2");
    let r = p.parse::<Initialization>();
    assert!(matches!(r, Err(Some(_))));
}

#[test]
fn unclosed_bracket_is_hard() {
    let mut p = parser_of("can1 1 jia1 2");
    let r = p.parse::<BracketExpr>();
    assert!(matches!(r, Err(Some(_))));
}

#[test]
fn unclosed_call_is_hard() {
    let mut p = parser_of("qiu2 can1 1 fen1 2");
    let r = p.parse::<FnCall>();
    assert!(matches!(r, Err(Some(_))));
}

/// An unclosed opener never lets an unrelated alternative succeed: the
/// whole atomic dispatch reports the hard error.
#[test]
fn unclosed_opener_stops_the_alternation() {
    let mut p = parser_of("han2 1 2");
    let r = p.parse::<AtomicExpr>();
    assert!(matches!(r, Err(Some(_))));
}

/// A string literal with a dangling escape is a hard error, not a
/// truncated value.
#[test]
fn dangling_escape_is_hard() {
    let mut p = parser_of("chuan4 abc_");
    let r = p.parse::<StringLiteral>();
    assert!(matches!(r, Err(Some(_))));
}

#[test]
fn unknown_escape_is_hard() {
    let mut p = parser_of("chuan4 a_xb");
    let r = p.parse::<StringLiteral>();
    assert!(matches!(r, Err(Some(_))));
}

/// Backtracking is side-effect-free: after an alternative consumes a
/// prefix and fails softly, the next alternative parses from the original
/// position.
#[test]
fn soft_failure_restores_the_position() {
    // a call attempt consumes the name, then fails softly on the missing
    // `can1`; the identifier rule must still see the name from the start
    let mut p = parser_of("mou3 he2");
    let r = p.parse::<FnCall>();
    assert!(matches!(r, Err(None)));
    let t = p.parse::<Ident>().unwrap();
    let expected: Vec<char> = "mou3".chars().collect();
    assert_eq!(t.item.ident.item, expected);
    assert_eq!(t.span.start, 0);
    assert_eq!(t.span.end, 4);
}

/// A unary expression with its operand missing is a hard error: the
/// operator commits it.
#[test]
fn unary_without_operand_is_hard() {
    let mut p = parser_of("fei1");
    let r = p.parse::<UnaryExpr>();
    assert!(matches!(r, Err(Some(_))));
}

/// A binary operator with its right operand missing is a hard error: the
/// operator commits the expression.
#[test]
fn binary_without_operand_is_hard() {
    let mut p = parser_of("1 jia1");
    let r = p.parse::<Expr>();
    assert!(matches!(r, Err(Some(_))));
}

/// Spans compose: every composite node starts at its first child's start
/// and ends at its last child's end.
#[test]
fn spans_compose_from_children() {
    let mut p = parser_of("1919 jia1 810");
    let t = p.parse::<Expr>().unwrap();
    assert_eq!(t.span.start, 0);
    assert_eq!(t.span.end, 13);
    match t.item {
        Expr::Binary(l, o, r) => {
            assert_eq!(l.span.start, 0);
            assert_eq!(l.span.end, 4);
            assert_eq!(o.span.start, 5);
            assert_eq!(o.span.end, 9);
            assert_eq!(r.span.start, 10);
            assert_eq!(r.span.end, 13);
            assert_eq!(t.span.start, l.span.start);
            assert_eq!(t.span.end, r.span.end);
        }
        _ => panic!("expected a binary root"),
    }
}

/// A nested mix of the owed-success forms parses as one expression: a
/// call whose arguments are an initializer and a unary chain, added to a
/// bracketed subtraction.
#[test]
fn nested_composite_input_parses_fully() {
    let text = "qiu2 can1 han2 1 2 jie2 fen1 fei1 3 jie2 jia1 can1 4 jian3 5 jie2";
    let chars: Vec<char> = text.chars().collect();
    let t = Expr::parse_all(&chars).unwrap();
    assert_eq!(t.span.start, 0);
    assert_eq!(t.span.end, chars.len());
    match t.item {
        Expr::Binary(l, o, r) => {
            assert_eq!(o.item, Operators::Add);
            assert!(matches!(l.item, Expr::Atomic(AtomicExpr::FnCall(_))));
            assert!(matches!(r.item, Expr::Atomic(AtomicExpr::BracketExpr(_))));
        }
        _ => panic!("expected a binary root"),
    }
}
