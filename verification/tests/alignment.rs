//! The aligner: optimal scripts, projections, and the universal laws on
//! concrete inputs.

use tokdiff::alignment::{align, Alignment, AlignmentOperation};
use tokdiff::scoring::{AffineScoring, UniformScoring};
use tokdiff::tokenizer::{partition_tokens, tokenize, Token, TokenType};
use tokdiff::types::AlignmentScoring;

fn significant(source: &str) -> Vec<Token> {
    partition_tokens(tokenize(source)).0
}

fn left_texts(ops: &[AlignmentOperation<Token>]) -> String {
    let mut s = String::new();
    for op in ops {
        if let Some(t) = op.left() {
            s.push_str(&t.text);
        }
    }
    s
}

fn right_texts(ops: &[AlignmentOperation<Token>]) -> String {
    let mut s = String::new();
    for op in ops {
        if let Some(t) = op.right() {
            s.push_str(&t.text);
        }
    }
    s
}

#[derive(PartialEq, Clone, Copy)]
enum Last {
    Mutation,
    InsertLeft,
    InsertRight,
}

/// The cost of a finished script, charging each insert by whether the
/// operation before it is an insert on the same side.
fn walk_cost<S: AlignmentScoring>(scoring: &S, ops: &[AlignmentOperation<Token>]) -> u64 {
    let mut total: u64 = 0;
    let mut last = Last::Mutation;
    for op in ops {
        match op {
            AlignmentOperation::Mutation { left, right } => {
                total += scoring.mutation_score(left, right);
                last = Last::Mutation;
            }
            AlignmentOperation::InsertLeft { left } => {
                total += scoring.insert_score(left, last == Last::InsertLeft);
                last = Last::InsertLeft;
            }
            AlignmentOperation::InsertRight { right } => {
                total += scoring.insert_score(right, last == Last::InsertRight);
                last = Last::InsertRight;
            }
        }
    }
    total
}

fn add(a: Option<u64>, b: u64) -> Option<u64> {
    a.map(|x| x.saturating_add(b))
}

fn min3(a: Option<u64>, b: Option<u64>, c: Option<u64>) -> Option<u64> {
    [a, b, c].into_iter().flatten().min()
}

/// A naive full-table three-layer reference dynamic program.
fn naive_cost<S: AlignmentScoring>(scoring: &S, left: &[Token], right: &[Token]) -> u64 {
    let m = left.len();
    let n = right.len();
    let mut table = vec![vec![(None::<u64>, None::<u64>, None::<u64>); m + 1]; n + 1];
    table[0][0].0 = Some(0);
    for r in 0..=n {
        for l in 0..=m {
            if l > 0 {
                let prev = table[r][l - 1];
                table[r][l].1 = min3(
                    add(prev.0, scoring.insert_score(&left[l - 1], false)),
                    add(prev.1, scoring.insert_score(&left[l - 1], true)),
                    add(prev.2, scoring.insert_score(&left[l - 1], false)),
                );
            }
            if r > 0 {
                let prev = table[r - 1][l];
                table[r][l].2 = min3(
                    add(prev.0, scoring.insert_score(&right[r - 1], false)),
                    add(prev.1, scoring.insert_score(&right[r - 1], false)),
                    add(prev.2, scoring.insert_score(&right[r - 1], true)),
                );
            }
            if r > 0 && l > 0 {
                let prev = table[r - 1][l - 1];
                let c = scoring.mutation_score(&left[l - 1], &right[r - 1]);
                table[r][l].0 = min3(add(prev.0, c), add(prev.1, c), add(prev.2, c));
            }
        }
    }
    let last = table[n][m];
    min3(last.0, last.1, last.2).unwrap()
}

#[test]
fn single_mutation_for_single_differing_tokens() {
    let left = significant("foo");
    let right = significant("bar");
    let a = align(&UniformScoring {}, &left, &right);
    assert_eq!(a.operations.len(), 1);
    match &a.operations[0] {
        AlignmentOperation::Mutation { left, right } => {
            assert_eq!(left.text, "foo");
            assert_eq!(right.text, "bar");
        }
        _ => panic!("expected a mutation"),
    }
}

#[test]
fn dropped_token_becomes_insert_left() {
    let left = significant("a b c");
    let right = significant("a c");
    let a = align(&UniformScoring {}, &left, &right);
    let shape: Vec<String> = a
        .operations
        .iter()
        .map(|op| match op {
            AlignmentOperation::Mutation { left, right } => {
                format!("M({},{})", left.text, right.text)
            }
            AlignmentOperation::InsertLeft { left } => format!("L({})", left.text),
            AlignmentOperation::InsertRight { right } => format!("R({})", right.text),
        })
        .collect();
    assert_eq!(shape, vec!["M(a,a)", "L(b)", "M(c,c)"]);
}

#[test]
fn round_trip_on_left() {
    let left = significant("a b c");
    let right = significant("a x z");
    let a = align(&UniformScoring {}, &left, &right);
    assert_eq!(left_texts(&a.operations), "abc");
}

#[test]
fn round_trip_on_right() {
    let left = significant("a b c");
    let right = significant("quite different ( things )");
    let a = align(&UniformScoring {}, &left, &right);
    assert_eq!(right_texts(&a.operations), "quitedifferent(things)");
}

#[test]
fn identical_inputs_align_with_cost_zero() {
    let left = significant("one two three");
    let right = significant("one two three");
    let a = align(&UniformScoring {}, &left, &right);
    assert_eq!(a.operations.len(), 3);
    for op in &a.operations {
        match op {
            AlignmentOperation::Mutation { left, right } => {
                assert_eq!(left.text, right.text);
                assert_eq!(left.t, right.t);
            }
            _ => panic!("expected mutations only"),
        }
    }
    assert_eq!(walk_cost(&UniformScoring {}, &a.operations), 0);
}

#[test]
fn empty_left_yields_insert_rights_in_order() {
    let left: Vec<Token> = Vec::new();
    let right = significant("x y z");
    let a = align(&UniformScoring {}, &left, &right);
    assert_eq!(a.operations.len(), 3);
    let expected = ["x", "y", "z"];
    for (op, want) in a.operations.iter().zip(expected.iter()) {
        match op {
            AlignmentOperation::InsertRight { right } => assert_eq!(&right.text, want),
            _ => panic!("expected insert-right only"),
        }
    }
}

#[test]
fn empty_right_yields_insert_lefts_in_order() {
    let left = significant("x y z");
    let right: Vec<Token> = Vec::new();
    let a = align(&UniformScoring {}, &left, &right);
    assert_eq!(a.operations.len(), 3);
    let expected = ["x", "y", "z"];
    for (op, want) in a.operations.iter().zip(expected.iter()) {
        match op {
            AlignmentOperation::InsertLeft { left } => assert_eq!(&left.text, want),
            _ => panic!("expected insert-left only"),
        }
    }
}

#[test]
fn cost_matches_naive_reference_dp() {
    let cases = [
        ("a b c", "a c"),
        ("foo", "bar"),
        ("", "x y"),
        ("if x:\n  y", "if x:\n    y"),
        ("one two three four", "one three five four"),
        ("Case FOLD", "case fold"),
    ];
    for (l, r) in cases {
        let left = significant(l);
        let right = significant(r);
        let uniform = UniformScoring {};
        let a = align(&uniform, &left, &right);
        assert_eq!(
            walk_cost(&uniform, &a.operations),
            naive_cost(&uniform, &left, &right),
            "uniform cost for {l:?} vs {r:?}"
        );
        let affine = AffineScoring::default();
        let b = align(&affine, &left, &right);
        assert_eq!(
            walk_cost(&affine, &b.operations),
            naive_cost(&affine, &left, &right),
            "affine cost for {l:?} vs {r:?}"
        );
    }
}

#[test]
fn affine_prefers_marker_inserts_over_wide_indent_mutation() {
    // Re-indenting from two to four spaces: inserting both markers costs
    // 0.7 + 0.7 against a mutation of |2 - 4| = 2.0.
    let left = significant("if x:\n  y");
    let right = significant("if x:\n    y");
    let a = align(&AffineScoring::default(), &left, &right);
    let mut saw_left_marker = false;
    let mut saw_right_marker = false;
    for op in &a.operations {
        match op {
            AlignmentOperation::InsertLeft { left } => {
                assert_eq!(left.t, TokenType::BlockStart(2));
                saw_left_marker = true;
            }
            AlignmentOperation::InsertRight { right } => {
                assert_eq!(right.t, TokenType::BlockStart(4));
                saw_right_marker = true;
            }
            AlignmentOperation::Mutation { left, right } => {
                assert_eq!(left.text, right.text);
            }
        }
    }
    assert!(saw_left_marker && saw_right_marker);
    assert_eq!(walk_cost(&AffineScoring::default(), &a.operations), 14);
}

#[test]
fn extract_path_preserves_script_order() {
    let left = significant("p q");
    let right = significant("p r");
    let a = align(&UniformScoring {}, &left, &right);
    let firsts: Vec<Option<String>> = a
        .operations
        .iter()
        .map(|op| op.left().map(|t| t.text.clone()))
        .collect();
    assert_eq!(
        firsts,
        vec![Some("p".to_string()), Some("q".to_string())]
    );
    let _ = Alignment { operations: Vec::new() };
}
