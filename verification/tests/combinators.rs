//! The attempt machinery itself: the alternation combinator, the upgrade
//! operation, literal matching, escapes, scanning, and the definition
//! tables.

use pin1yin1_parser::ast::Ident;
use pin1yin1_parser::defs::{FnDefinition, VarDefinition};
use pin1yin1_parser::expr::{escape, BinaryOp, UnaryOp};
use pin1yin1_parser::keywords::{chars_eq_str, sym_lookup, Symbol};
use pin1yin1_parser::ops::{op_lookup, OperatorAssociativity, Operators};
use pin1yin1_parser::parse_unit::{ReverseParser, Try};
use pin1yin1_parser::parser::Parser;
use pin1yin1_parser::span::{Span, PU};

fn parser_of(text: &str) -> Parser {
    let chars: Vec<char> = text.chars().collect();
    Parser::new(&chars)
}

#[test]
fn alternation_takes_the_first_success() {
    let mut p = parser_of("jia1 5");
    let mut alt: Try<Operators> = Try::new();
    alt.or_try::<BinaryOp>(&mut p);
    // already decided: this candidate must not run
    alt.or_try::<UnaryOp>(&mut p);
    let t = alt.finish().unwrap();
    assert_eq!(t.item, Operators::Add);
}

#[test]
fn alternation_falls_through_soft_candidates() {
    let mut p = parser_of("fei1 5");
    let mut alt: Try<Operators> = Try::new();
    alt.or_try::<UnaryOp>(&mut p);
    let t = alt.finish().unwrap();
    assert_eq!(t.item, Operators::Not);
}

#[test]
fn alternation_commits_to_a_hard_error() {
    // `fei1` is an operator word, but not a binary one: the binary rule
    // commits a hard error and later candidates are not tried
    let mut p = parser_of("fei1 5");
    let mut alt: Try<Operators> = Try::new();
    alt.or_try::<BinaryOp>(&mut p);
    alt.or_try::<UnaryOp>(&mut p);
    let r = alt.finish();
    assert!(matches!(r, Err(Some(_))));
}

#[test]
fn alternation_default_error() {
    let mut p = parser_of("777");
    let mut alt: Try<Operators> = Try::new();
    alt.or_try::<BinaryOp>(&mut p);
    alt.or_error(&mut p, "expect an operator");
    let r = alt.finish();
    assert!(matches!(r, Err(Some(_))));
}

#[test]
fn alternation_undecided_is_soft() {
    let mut p = parser_of("777");
    let mut alt: Try<Operators> = Try::new();
    alt.or_try::<BinaryOp>(&mut p);
    let r = alt.finish();
    assert!(matches!(r, Err(None)));
}

#[test]
fn must_match_upgrades_only_soft() {
    let mut p = parser_of("qiu2");
    let soft: Result<PU<Symbol>, Option<pin1yin1_parser::span::ParseError>> = Err(None);
    let upgraded = p.must_match(soft, "expected a keyword");
    assert!(matches!(upgraded, Err(Some(_))));
    let ok: Result<PU<Symbol>, Option<pin1yin1_parser::span::ParseError>> =
        Ok(PU { span: Span { start: 0, end: 0 }, item: Symbol::Jie2 });
    let kept = p.must_match(ok, "unused");
    assert!(kept.is_ok());
}

#[test]
fn reverse_parse_matches_exact_characters() {
    let mut p = parser_of("jia1 5");
    assert!("jia1".reverse_parse(&mut p).is_ok());
    // the cursor moved past the matched text: the next character is the space
    assert_eq!(p.peek(), Some(' '));
}

#[test]
fn reverse_parse_rejects_different_text() {
    let mut p = parser_of("jian3");
    let r = "jia1".reverse_parse(&mut p);
    assert!(matches!(r, Err(None)));
}

#[test]
fn escape_table() {
    let tok = PU { span: Span { start: 0, end: 1 }, item: vec!['_'] };
    assert_eq!(escape(&tok, '_').unwrap(), '_');
    assert_eq!(escape(&tok, 't').unwrap(), '\t');
    assert_eq!(escape(&tok, 'n').unwrap(), '\n');
    assert_eq!(escape(&tok, 's').unwrap(), ' ');
    assert!(escape(&tok, 'x').is_err());
}

#[test]
fn keyword_lookup_is_exact() {
    let w: Vec<char> = "han2".chars().collect();
    assert_eq!(sym_lookup(&w), Some(Symbol::Block));
    let w: Vec<char> = "han2x".chars().collect();
    assert_eq!(sym_lookup(&w), None);
    let w: Vec<char> = "jie2".chars().collect();
    assert_eq!(sym_lookup(&w), Some(Symbol::Jie2));
}

#[test]
fn operator_lookup_and_table() {
    let w: Vec<char> = "cheng2".chars().collect();
    let o = op_lookup(&w).unwrap();
    assert_eq!(o, Operators::Mul);
    assert_eq!(o.associativity(), OperatorAssociativity::Binary);
    assert!(o.priority() < Operators::Add.priority());
    assert_eq!(Operators::Add.priority(), Operators::Sub.priority());
    assert_eq!(Operators::Not.associativity(), OperatorAssociativity::Unary);
    let w: Vec<char> = "cheng".chars().collect();
    assert_eq!(op_lookup(&w), None);
}

#[test]
fn word_comparison() {
    let w: Vec<char> = "abc1".chars().collect();
    assert!(chars_eq_str(&w, "abc1"));
    assert!(!chars_eq_str(&w, "abc"));
    assert!(!chars_eq_str(&w, "abd1"));
}

#[test]
fn scanning_skips_whitespace_and_takes_words() {
    let mut p = parser_of("  \t mou3ming2 rest");
    let w = p.take_word();
    let expected: Vec<char> = "mou3ming2".chars().collect();
    assert_eq!(w, expected);
    // a second scan takes the next word, probing over one space
    let w2 = p.take_word();
    let expected2: Vec<char> = "rest".chars().collect();
    assert_eq!(w2, expected2);
}

#[test]
fn take_digits_stops_at_nondigits() {
    let mut p = parser_of("114514.x");
    let w = p.take_digits();
    let expected: Vec<char> = "114514".chars().collect();
    assert_eq!(w, expected);
    assert_eq!(p.peek(), Some('.'));
}

#[test]
fn repeated_probes_of_one_word_agree() {
    // two rules probing the same position see the same word: the second
    // probe is answered from the scan cache
    let mut p = parser_of("mou3 he2");
    assert!(matches!(p.parse::<pin1yin1_parser::ast::CharLiteral>(), Err(None)));
    assert!(matches!(p.parse::<pin1yin1_parser::ast::NumberLiteral>(), Err(None)));
    let t = p.parse::<Ident>().unwrap();
    let expected: Vec<char> = "mou3".chars().collect();
    assert_eq!(t.item.ident.item, expected);
}

#[test]
fn definition_tables_hold_their_fields() {
    let v = VarDefinition::new("zheng3".to_owned());
    assert_eq!(v.ty, "zheng3");
    let f = FnDefinition::new(Vec::new());
    assert_eq!(f.overdrives.len(), 0);
}
