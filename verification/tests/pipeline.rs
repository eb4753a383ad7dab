//! The whole pipeline, scenario by scenario, plus the interleaver's
//! order preservation on concrete inputs.

use tokdiff::alignment::AlignmentOperation;
use tokdiff::diff_alignment;
use tokdiff::diff_output_lines;
use tokdiff::render::{Markup, OutputLine, Span};
use tokdiff::tokenizer::{tokenize, Token};

fn visible(spans: &[Span]) -> String {
    let mut s = String::new();
    for span in spans {
        s.push_str(&span.text);
    }
    s
}

fn line_kinds(lines: &[OutputLine]) -> Vec<String> {
    lines
        .iter()
        .map(|line| match line {
            OutputLine::Same { line } => format!("  {line}"),
            OutputLine::Change { left, right } => {
                let mut s = String::new();
                if let Some(left) = left {
                    s.push_str(&format!("-{}", visible(left)));
                }
                if let Some(right) = right {
                    s.push_str(&format!("+{}", visible(right)));
                }
                s
            }
        })
        .collect()
}

#[test]
fn equal_inputs_render_as_one_same_line() {
    let lines = diff_output_lines("foo", "foo");
    assert_eq!(line_kinds(&lines), vec!["  foo"]);
}

#[test]
fn differing_words_render_as_removed_and_added() {
    let lines = diff_output_lines("foo", "bar");
    assert_eq!(lines.len(), 1);
    match &lines[0] {
        OutputLine::Change { left, right } => {
            let left = left.as_ref().expect("left side present");
            let right = right.as_ref().expect("right side present");
            assert_eq!(visible(left), "foo");
            assert_eq!(left[0].mark, Markup::Removed);
            assert_eq!(visible(right), "bar");
            assert_eq!(right[0].mark, Markup::Added);
        }
        _ => panic!("expected a change line"),
    }
}

#[test]
fn extra_whitespace_is_treated_as_equal() {
    let lines = diff_output_lines("a b", "a  b");
    assert_eq!(line_kinds(&lines), vec!["  a  b"]);
}

#[test]
fn reindentation_shows_the_line_reindented() {
    let lines = diff_output_lines("if x:\n  y", "if x:\n    y");
    assert_eq!(lines.len(), 2);
    match &lines[1] {
        OutputLine::Change { left, right } => {
            assert!(left.is_none());
            assert_eq!(visible(right.as_ref().unwrap()), "    y");
        }
        _ => panic!("expected the re-indented line as a change"),
    }
}

#[test]
fn dropped_word_is_struck_through() {
    let lines = diff_output_lines("a b c", "a c");
    assert_eq!(lines.len(), 1);
    match &lines[0] {
        OutputLine::Change { left, right } => {
            assert!(left.is_none(), "left side is all padding");
            let right = right.as_ref().unwrap();
            assert_eq!(visible(right), "a b c");
            let struck: String = right
                .iter()
                .filter(|s| s.mark == Markup::RemovedInsert)
                .map(|s| s.text.clone())
                .collect();
            assert_eq!(struck, " b");
        }
        _ => panic!("expected a change line"),
    }
}

#[test]
fn empty_left_renders_as_added_line() {
    let lines = diff_output_lines("", "x");
    assert_eq!(lines.len(), 1);
    match &lines[0] {
        OutputLine::Change { left, right } => {
            assert!(left.is_none());
            let right = right.as_ref().unwrap();
            assert_eq!(visible(right), "x");
            assert_eq!(right[0].mark, Markup::Added);
        }
        _ => panic!("expected a change line"),
    }
}

fn left_tokens_of(ops: &[AlignmentOperation<Token>]) -> Vec<(String, usize)> {
    ops.iter()
        .filter_map(|op| op.left().map(|t| (t.text.clone(), t.start)))
        .collect()
}

fn right_tokens_of(ops: &[AlignmentOperation<Token>]) -> Vec<(String, usize)> {
    ops.iter()
        .filter_map(|op| op.right().map(|t| (t.text.clone(), t.start)))
        .collect()
}

#[test]
fn interleaver_preserves_both_token_sequences() {
    for (l, r) in [
        ("a b c", "a c"),
        ("if x:\n  y", "if x:\n    y"),
        ("  lead", "lead  "),
        ("one\ntwo\n", "one two"),
    ] {
        let merged = diff_alignment(l, r);
        let all_left: Vec<(String, usize)> = tokenize(l)
            .iter()
            .map(|t| (t.text.clone(), t.start))
            .collect();
        let all_right: Vec<(String, usize)> = tokenize(r)
            .iter()
            .map(|t| (t.text.clone(), t.start))
            .collect();
        assert_eq!(left_tokens_of(&merged.operations), all_left, "left of {l:?} vs {r:?}");
        assert_eq!(right_tokens_of(&merged.operations), all_right, "right of {l:?} vs {r:?}");
    }
}

#[test]
fn multiline_inserts_flush_between_segments() {
    let lines = diff_output_lines("a", "a\nb");
    let rendered = line_kinds(&lines);
    assert_eq!(rendered.len(), 2);
    assert_eq!(rendered[0], "  a");
    assert_eq!(rendered[1], "+b");
}
