//! The line machine on its own.

use tokdiff::render::{DiffLineOutput, Markup, OutputLine, Span};

fn visible(spans: &[Span]) -> String {
    let mut s = String::new();
    for span in spans {
        s.push_str(&span.text);
    }
    s
}

#[test]
fn equal_material_flushes_as_same() {
    let mut out = DiffLineOutput::new();
    out.add_same("hello");
    out.flush();
    let lines = out.output();
    assert_eq!(lines.len(), 1);
    match &lines[0] {
        OutputLine::Same { line } => assert_eq!(line, "hello"),
        _ => panic!("expected a same line"),
    }
}

#[test]
fn mutation_pads_the_shorter_side() {
    let mut out = DiffLineOutput::new();
    out.add_mutation("ab", "wxyz");
    out.flush();
    let lines = out.output();
    match &lines[0] {
        OutputLine::Change { left, right } => {
            let left = left.as_ref().unwrap();
            let right = right.as_ref().unwrap();
            // Both sides end up the same visible width.
            assert_eq!(visible(left), "ab  ");
            assert_eq!(visible(right), "wxyz");
            assert_eq!(left[0].mark, Markup::Removed);
            assert_eq!(right[0].mark, Markup::Added);
            assert_eq!(left[1].mark, Markup::Plain);
        }
        _ => panic!("expected a change line"),
    }
}

#[test]
fn insert_right_space_keeps_the_line_equal() {
    let mut out = DiffLineOutput::new();
    out.add_same("a");
    out.insert_right_space("  ");
    out.add_same("b");
    out.flush();
    let lines = out.output();
    match &lines[0] {
        OutputLine::Same { line } => assert_eq!(line, "a  b"),
        _ => panic!("whitespace copied to both sides keeps the line equal"),
    }
}

#[test]
fn whitespace_only_sides_are_left_out() {
    let mut out = DiffLineOutput::new();
    out.insert_right("x");
    out.flush();
    let lines = out.output();
    match &lines[0] {
        OutputLine::Change { left, right } => {
            assert!(left.is_none());
            assert_eq!(visible(right.as_ref().unwrap()), "x");
        }
        _ => panic!("expected a change line"),
    }
}

#[test]
fn insert_left_strikes_through_on_the_right() {
    let mut out = DiffLineOutput::new();
    out.insert_left("gone");
    out.flush();
    let lines = out.output();
    match &lines[0] {
        OutputLine::Change { left, right } => {
            assert!(left.is_none());
            let right = right.as_ref().unwrap();
            assert_eq!(visible(right), "gone");
            assert_eq!(right[0].mark, Markup::RemovedInsert);
        }
        _ => panic!("expected a change line"),
    }
}

#[test]
fn pad_width_counts_characters_not_bytes() {
    let mut out = DiffLineOutput::new();
    // Two characters of two bytes each against three of one byte.
    out.add_mutation("\u{3b1}\u{3b2}", "abc");
    out.flush();
    let lines = out.output();
    match &lines[0] {
        OutputLine::Change { left, right } => {
            let left = left.as_ref().unwrap();
            assert_eq!(visible(left), "\u{3b1}\u{3b2} ");
            assert_eq!(visible(right.as_ref().unwrap()), "abc");
        }
        _ => panic!("expected a change line"),
    }
}

#[test]
fn each_flush_starts_a_fresh_line() {
    let mut out = DiffLineOutput::new();
    out.add_same("one");
    out.flush();
    out.insert_right("two");
    out.flush();
    let lines = out.output();
    assert_eq!(lines.len(), 2);
    assert!(matches!(&lines[0], OutputLine::Same { .. }));
    assert!(matches!(&lines[1], OutputLine::Change { .. }));
}
