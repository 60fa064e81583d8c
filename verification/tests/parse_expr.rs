//! The grammar's accepted inputs: literals, calls, unary chains,
//! brackets, initializers and full expressions.

use pin1yin1_parser::ast::{AtomicExpr, CharLiteral, Expr, Ident, Initialization, NumberLiteral,
    StringLiteral, UnaryExpr};
use pin1yin1_parser::expr::BinaryOp;
use pin1yin1_parser::ast::{BracketExpr, FnCall};
use pin1yin1_parser::parser::Parser;

fn parser_of(text: &str) -> Parser {
    let chars: Vec<char> = text.chars().collect();
    Parser::new(&chars)
}

#[test]
fn char() {
    let mut p = parser_of("wen2 _t");
    assert!(p.parse::<CharLiteral>().is_ok());
}

#[test]
fn string() {
    let mut p = parser_of("chuan4 _t11514___na");
    assert!(p.parse::<StringLiteral>().is_ok());
}

#[test]
fn number1() {
    let mut p = parser_of("114514");
    assert!(p.parse::<NumberLiteral>().is_ok());
}

#[test]
fn number2() {
    // number literals are integral: the run of digits parses and the
    // dot stays unconsumed, since fractional values cannot live in the
    // verified core
    let mut p = parser_of("114514.");
    assert!(p.parse::<NumberLiteral>().is_ok());
}

#[test]
fn number3() {
    // as in `number2`: the integral part parses, `.810` stays unconsumed
    let mut p = parser_of("1919.810");
    assert!(p.parse::<NumberLiteral>().is_ok());
}

#[test]
fn initialization() {
    let mut p = parser_of("han2 1 1 4 5 1 4 jie2");
    assert!(p.parse::<Initialization>().is_ok());
}

#[test]
fn function_call() {
    let mut p = parser_of("han2shu41 can1 1919810 fen1 chuan4 acminoac jie2");
    assert!(p.parse::<FnCall>().is_ok());
}

#[test]
fn unary() {
    let mut p = parser_of("fei1 191810");
    assert!(p.parse::<UnaryExpr>().is_ok());
}

#[test]
fn nested_unary() {
    let mut p = parser_of("fei1 fei1 fei1 fei1 191810");
    assert!(p.parse::<UnaryExpr>().is_ok());
}

#[test]
fn bracket() {
    // unary + bracket
    let mut p = parser_of("fei1 can1 114514 jie2");
    assert!(p.parse::<UnaryExpr>().is_ok());
}

#[test]
fn complex_expr() {
    // 1919 + 810 * 114514 - 12
    let mut p = parser_of("1919 jia1 810 cheng2 114514 jian3 12");
    assert!(p.parse::<Expr>().is_ok());
}

#[test]
fn char_literal_value() {
    let mut p = parser_of("wen2 _t");
    let t = p.parse::<CharLiteral>().unwrap();
    assert_eq!(t.item.parsed, '\t');
    assert_eq!(t.span.start, 0);
    assert_eq!(t.span.end, 7);

    let mut p = parser_of("wen2 a");
    let t = p.parse::<CharLiteral>().unwrap();
    assert_eq!(t.item.parsed, 'a');
}

#[test]
fn char_literal_bad_body_is_hard() {
    let mut p = parser_of("wen2 abc");
    let r = p.parse::<CharLiteral>();
    assert!(matches!(r, Err(Some(_))));
}

#[test]
fn string_literal_value() {
    let mut p = parser_of("chuan4 ab_nc__d");
    let t = p.parse::<StringLiteral>().unwrap();
    let expected: Vec<char> = "ab\nc_d".chars().collect();
    assert_eq!(t.item.parsed, expected);
}

#[test]
fn number_value_and_span() {
    let mut p = parser_of("  114514");
    let t = p.parse::<NumberLiteral>().unwrap();
    let NumberLiteral::Digit { number } = t.item;
    assert_eq!(number, 114514);
    assert_eq!(t.span.start, 2);
    assert_eq!(t.span.end, 8);
}

#[test]
fn number_too_large_is_hard() {
    let mut p = parser_of("99999999999999999999999999999999999999");
    let r = p.parse::<NumberLiteral>();
    assert!(matches!(r, Err(Some(_))));
}

#[test]
fn identifier_excludes_reserved_words() {
    let mut p = parser_of("jie2");
    assert!(matches!(p.parse::<Ident>(), Err(None)));
    let mut p = parser_of("jia1");
    assert!(matches!(p.parse::<Ident>(), Err(None)));
    let mut p = parser_of("mou3ming2");
    let t = p.parse::<Ident>().unwrap();
    let expected: Vec<char> = "mou3ming2".chars().collect();
    assert_eq!(t.item.ident.item, expected);
}

#[test]
fn initializer_has_exactly_six_arguments_and_no_leftover() {
    let mut p = parser_of("han2 1 1 4 5 1 4 jie2");
    let t = p.parse::<Initialization>().unwrap();
    assert_eq!(t.item.args.len(), 6);
    for arg in &t.item.args {
        assert!(matches!(arg.item, AtomicExpr::NumberLiteral(_)));
    }
    // the initializer consumed everything: nothing but the end remains
    assert!(p.peek().is_none());
}

#[test]
fn ident_then_call_opener_is_a_call_not_a_variable() {
    let mut p = parser_of("qiu2 can1 1 jie2");
    let t = p.parse::<AtomicExpr>().unwrap();
    assert!(matches!(t.item, AtomicExpr::FnCall(_)));
}

#[test]
fn bare_ident_is_a_variable() {
    let mut p = parser_of("qiu2");
    let t = p.parse::<AtomicExpr>().unwrap();
    assert!(matches!(t.item, AtomicExpr::Variable(_)));
}

#[test]
fn call_arguments_and_separators() {
    let mut p = parser_of("qiu2 can1 1 fen1 2 fen1 3 jie2");
    let t = p.parse::<FnCall>().unwrap();
    assert_eq!(t.item.args.item.args.len(), 3);
    assert_eq!(t.item.args.item.semicolons.len(), 2);
}

#[test]
fn empty_call_argument_list() {
    let mut p = parser_of("qiu2 can1 jie2");
    let t = p.parse::<FnCall>().unwrap();
    assert_eq!(t.item.args.item.args.len(), 0);
}

#[test]
fn binary_operator_rule_rejects_unary_hard() {
    let mut p = parser_of("fei1");
    let r = p.parse::<BinaryOp>();
    assert!(matches!(r, Err(Some(_))));
    let mut p = parser_of("qiu2");
    let r = p.parse::<BinaryOp>();
    assert!(matches!(r, Err(None)));
}

#[test]
fn bracket_expression_overrides_precedence() {
    // (1 + 2) * 3: the bracket keeps the addition below the multiplication
    let mut p = parser_of("can1 1 jia1 2 jie2 cheng2 3");
    let t = p.parse::<Expr>().unwrap();
    match t.item {
        Expr::Binary(l, o, r) => {
            assert_eq!(o.item, pin1yin1_parser::ops::Operators::Mul);
            assert!(matches!(l.item, Expr::Atomic(AtomicExpr::BracketExpr(_))));
            assert!(matches!(r.item, Expr::Atomic(AtomicExpr::NumberLiteral(_))));
        }
        _ => panic!("expected a binary root"),
    }
}

#[test]
fn bracket_keeps_inner_expression() {
    let mut p = parser_of("can1 114514 jie2");
    let t = p.parse::<BracketExpr>().unwrap();
    assert!(matches!(t.item.expr.item, Expr::Atomic(AtomicExpr::NumberLiteral(_))));
}

#[test]
fn keyword_is_never_taken_as_a_prefix() {
    // `han2x` is one word: it is not the keyword `han2` followed by `x`
    let mut p = parser_of("han2x 1 jie2");
    assert!(matches!(p.parse::<Initialization>(), Err(None)));
}
