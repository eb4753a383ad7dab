//! The pluggable scoring interface of the aligner.

use vstd::prelude::*;

use crate::tokenizer::{Token, TokenView};

verus! {

/// A cost function over tokens.  Costs are `u64` values counted in tenths
/// of a scoring unit; lower is better.  Unreachable alignments are
/// represented by the aligner itself (as `None`), never by a cost.
///
/// Each executable method is pinned to a spec-level twin, so that the
/// aligner's contract can speak about the costs a policy assigns.
pub trait AlignmentScoring: Sized {
    /// The cost of inserting `t`, given whether the operation just before
    /// it in the script is an insert on the same side.
    spec fn spec_insert_score(&self, t: TokenView, previous_is_same: bool) -> u64;

    /// The cost of aligning `left` against `right` as a mutation.
    spec fn spec_mutation_score(&self, left: TokenView, right: TokenView) -> u64;

    /// Executable insert cost.
    fn insert_score(&self, inserted: &Token, previous_is_same: bool) -> (c: u64)
        ensures
            c == self.spec_insert_score(inserted@, previous_is_same),
    ;

    /// Executable mutation cost.
    fn mutation_score(&self, left: &Token, right: &Token) -> (c: u64)
        ensures
            c == self.spec_mutation_score(left@, right@),
    ;
}

} // verus!
