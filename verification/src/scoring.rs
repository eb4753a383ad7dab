//! The two scoring policies: a uniform baseline and the affine-gap
//! production policy.
//!
//! All costs are counted in tenths of a scoring unit, so the affine
//! policy's fractional weights (0.7, 0.3, ...) stay exact integers.

use vstd::prelude::*;

use crate::chars::{eq_folded, lower_of};
use crate::cost::{cost_add, spec_cost_add};
use crate::tokenizer::{Token, TokenType, TokenView};
use crate::types::AlignmentScoring;

verus! {

/// Whether two kind tags agree, disregarding the indentation width that
/// block markers carry.
pub open spec fn same_kind(a: TokenType, b: TokenType) -> bool {
    match (a, b) {
        (TokenType::WhiteSpace, TokenType::WhiteSpace) => true,
        (TokenType::SpecialCharacter, TokenType::SpecialCharacter) => true,
        (TokenType::Word, TokenType::Word) => true,
        (TokenType::BlockStart(_), TokenType::BlockStart(_)) => true,
        (TokenType::BlockEnd(_), TokenType::BlockEnd(_)) => true,
        _ => false,
    }
}

/// Executable twin of [`same_kind`].
pub fn kinds_match(a: TokenType, b: TokenType) -> (r: bool)
    ensures
        r == same_kind(a, b),
{
    match (a, b) {
        (TokenType::WhiteSpace, TokenType::WhiteSpace) => true,
        (TokenType::SpecialCharacter, TokenType::SpecialCharacter) => true,
        (TokenType::Word, TokenType::Word) => true,
        (TokenType::BlockStart(_), TokenType::BlockStart(_)) => true,
        (TokenType::BlockEnd(_), TokenType::BlockEnd(_)) => true,
        _ => false,
    }
}

/// The absolute difference of two indentation widths, scaled to tenths.
pub open spec fn spec_indent_diff_cost(a: usize, b: usize) -> u64 {
    let d = if a < b {
        b - a
    } else {
        a - b
    };
    if d * 10 > u64::MAX {
        u64::MAX
    } else {
        (d * 10) as u64
    }
}

/// Executable twin of [`spec_indent_diff_cost`].
pub fn indent_diff_cost(a: usize, b: usize) -> (c: u64)
    ensures
        c == spec_indent_diff_cost(a, b),
{
    let d: u64 = if a < b {
        (b - a) as u64
    } else {
        (a - b) as u64
    };
    if d > u64::MAX / 10 {
        u64::MAX
    } else {
        d * 10
    }
}

/// The baseline policy: every insert costs one unit; a mutation costs
/// nothing between same-kind tokens with case-folded-equal texts, one
/// unit between same-kind tokens with different texts, and a hundred
/// units across kinds.
pub struct UniformScoring {
}

impl AlignmentScoring for UniformScoring {
    open spec fn spec_insert_score(&self, t: TokenView, previous_is_same: bool) -> u64 {
        10
    }

    open spec fn spec_mutation_score(&self, left: TokenView, right: TokenView) -> u64 {
        if !same_kind(left.t, right.t) {
            1000
        } else if lower_of(left.text) == lower_of(right.text) {
            0
        } else {
            10
        }
    }

    fn insert_score(&self, inserted: &Token, previous_is_same: bool) -> (c: u64) {
        10
    }

    fn mutation_score(&self, left: &Token, right: &Token) -> (c: u64) {
        if !kinds_match(left.t, right.t) {
            1000
        } else if eq_folded(left.text.as_str(), right.text.as_str()) {
            0
        } else {
            10
        }
    }
}

/// The production policy: starting an insertion run costs more than
/// extending it, inserting a block end carries an extra penalty, and
/// mutations are charged by kind and text differences; for block markers
/// of the same kind the charge is the indentation difference.
pub struct AffineScoring {
    pub start_insert: u64,
    pub extend_insert: u64,
    pub block_end_insert_penalty: u64,
    pub mismatched_type_penalty: u64,
    pub mismatched_text_penalty: u64,
}

impl Default for AffineScoring {
    /// The default weights: 0.7 to start an insert, 0.3 to extend it,
    /// 1.0 extra for inserting a block end, 100.0 across kinds and 1.0
    /// for a text mismatch, all in tenths.
    fn default() -> (s: Self)
        ensures
            s == AffineScoring::default_spec(),
    {
        AffineScoring {
            start_insert: 7,
            extend_insert: 3,
            block_end_insert_penalty: 10,
            mismatched_type_penalty: 1000,
            mismatched_text_penalty: 10,
        }
    }
}

impl AffineScoring {
    /// The default weights as a spec value.
    pub open spec fn default_spec() -> AffineScoring {
        AffineScoring {
            start_insert: 7,
            extend_insert: 3,
            block_end_insert_penalty: 10,
            mismatched_type_penalty: 1000,
            mismatched_text_penalty: 10,
        }
    }
}

impl AlignmentScoring for AffineScoring {
    open spec fn spec_insert_score(&self, t: TokenView, previous_is_same: bool) -> u64 {
        let base = if previous_is_same {
            self.extend_insert
        } else {
            self.start_insert
        };
        let add = if t.t is BlockEnd {
            self.block_end_insert_penalty
        } else {
            0
        };
        spec_cost_add(base, add)
    }

    open spec fn spec_mutation_score(&self, left: TokenView, right: TokenView) -> u64 {
        if !same_kind(left.t, right.t) {
            self.mismatched_type_penalty
        } else {
            match (left.t, right.t) {
                (TokenType::BlockStart(i), TokenType::BlockStart(j)) => spec_indent_diff_cost(
                    i,
                    j,
                ),
                (TokenType::BlockEnd(i), TokenType::BlockEnd(j)) => spec_indent_diff_cost(i, j),
                _ => {
                    if lower_of(left.text) == lower_of(right.text) {
                        0
                    } else {
                        self.mismatched_text_penalty
                    }
                },
            }
        }
    }

    fn insert_score(&self, inserted: &Token, previous_is_same: bool) -> (c: u64) {
        let base = if previous_is_same {
            self.extend_insert
        } else {
            self.start_insert
        };
        let add = match inserted.t {
            TokenType::BlockEnd(_) => self.block_end_insert_penalty,
            _ => 0,
        };
        cost_add(base, add)
    }

    fn mutation_score(&self, left: &Token, right: &Token) -> (c: u64) {
        if !kinds_match(left.t, right.t) {
            self.mismatched_type_penalty
        } else {
            match (left.t, right.t) {
                (TokenType::BlockStart(i), TokenType::BlockStart(j)) => indent_diff_cost(i, j),
                (TokenType::BlockEnd(i), TokenType::BlockEnd(j)) => indent_diff_cost(i, j),
                _ => {
                    if eq_folded(left.text.as_str(), right.text.as_str()) {
                        0
                    } else {
                        self.mismatched_text_penalty
                    }
                },
            }
        }
    }
}

impl Token {
    /// Insert cost of this token under the default affine weights.
    pub fn insert_score(&self, previous_is_same: bool) -> (c: u64)
        ensures
            c == AffineScoring::default_spec().spec_insert_score(self@, previous_is_same),
    {
        let scoring = AffineScoring::default();
        scoring.insert_score(self, previous_is_same)
    }

    /// Mutation cost of this token against `other` under the default
    /// affine weights.
    pub fn mutation_score(&self, other: &Token) -> (c: u64)
        ensures
            c == AffineScoring::default_spec().spec_mutation_score(self@, other@),
    {
        let scoring = AffineScoring::default();
        scoring.mutation_score(self, other)
    }
}

} // verus!
