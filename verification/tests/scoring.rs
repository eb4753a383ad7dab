//! The two scoring policies, value by value.  Costs are in tenths of a
//! scoring unit.

use tokdiff::scoring::{AffineScoring, UniformScoring};
use tokdiff::tokenizer::{Token, TokenType};
use tokdiff::types::AlignmentScoring;

fn word(text: &str) -> Token {
    Token { text: text.to_string(), start: 0, t: TokenType::Word }
}

#[test]
fn uniform_insert_is_one_unit() {
    let scoring = UniformScoring {};
    assert_eq!(scoring.insert_score(&word("x"), false), 10);
    assert_eq!(scoring.insert_score(&word("x"), true), 10);
}

#[test]
fn uniform_mutation_cases() {
    let scoring = UniformScoring {};
    assert_eq!(scoring.mutation_score(&word("foo"), &word("foo")), 0);
    assert_eq!(scoring.mutation_score(&word("foo"), &word("bar")), 10);
    let special = Token { text: "+".to_string(), start: 0, t: TokenType::SpecialCharacter };
    assert_eq!(scoring.mutation_score(&word("foo"), &special), 1000);
}

#[test]
fn uniform_mutation_is_case_folded() {
    let scoring = UniformScoring {};
    assert_eq!(scoring.mutation_score(&word("FOO"), &word("foo")), 0);
    assert_eq!(scoring.mutation_score(&word("Fou"), &word("foo")), 10);
}

#[test]
fn affine_insert_start_versus_extend() {
    let scoring = AffineScoring::default();
    assert_eq!(scoring.insert_score(&word("x"), false), 7);
    assert_eq!(scoring.insert_score(&word("x"), true), 3);
}

#[test]
fn affine_block_end_insert_penalty() {
    let scoring = AffineScoring::default();
    let end = Token { text: String::new(), start: 0, t: TokenType::BlockEnd(2) };
    assert_eq!(scoring.insert_score(&end, false), 17);
    assert_eq!(scoring.insert_score(&end, true), 13);
    let start = Token { text: String::new(), start: 0, t: TokenType::BlockStart(2) };
    assert_eq!(scoring.insert_score(&start, false), 7);
}

#[test]
fn affine_mutation_on_block_markers_charges_indent_difference() {
    let scoring = AffineScoring::default();
    let two = Token { text: String::new(), start: 0, t: TokenType::BlockStart(2) };
    let four = Token { text: String::new(), start: 0, t: TokenType::BlockStart(4) };
    assert_eq!(scoring.mutation_score(&two, &four), 20);
    assert_eq!(scoring.mutation_score(&four, &two), 20);
    assert_eq!(scoring.mutation_score(&two, &two), 0);
}

#[test]
fn affine_mutation_across_kinds() {
    let scoring = AffineScoring::default();
    let start = Token { text: String::new(), start: 0, t: TokenType::BlockStart(2) };
    let end = Token { text: String::new(), start: 0, t: TokenType::BlockEnd(2) };
    assert_eq!(scoring.mutation_score(&start, &end), 1000);
    assert_eq!(scoring.mutation_score(&word("x"), &start), 1000);
}

#[test]
fn affine_mutation_on_texts() {
    let scoring = AffineScoring::default();
    assert_eq!(scoring.mutation_score(&word("Same"), &word("sAME")), 0);
    assert_eq!(scoring.mutation_score(&word("one"), &word("two")), 10);
}

#[test]
fn token_methods_use_default_affine_weights() {
    let t = word("x");
    assert_eq!(t.insert_score(false), 7);
    assert_eq!(t.insert_score(true), 3);
    let two = Token { text: String::new(), start: 0, t: TokenType::BlockStart(2) };
    let four = Token { text: String::new(), start: 0, t: TokenType::BlockStart(4) };
    assert_eq!(two.mutation_score(&four), 20);
    assert_eq!(t.mutation_score(&word("X")), 0);
}
