//! Token-level visual diff: a structure-aware tokenizer, an affine-gap
//! sequence aligner, a whitespace interleaver, and a line renderer.
//!
//! The pipeline: a source string is tokenized with synthetic block
//! markers for indentation changes; whitespace tokens are set aside; the
//! significant tokens of both sides are aligned by a three-layer
//! affine-gap dynamic program; the whitespace is spliced back in at its
//! positional anchors; and the merged script is folded into output
//! lines with structural markup.

pub mod alignment;
pub mod chars;
pub mod cost;
pub mod interleave;
pub mod render;
pub mod scoring;
pub mod tokenizer;
pub mod types;

use vstd::prelude::*;

use crate::alignment::{
    align, alignment_cost, concat_left_texts, concat_right_texts, left_proj,
    lemma_concat_texts_skip_markers, lemma_round_trip_left, lemma_round_trip_right, right_proj,
    script_cost, valid_script, Alignment, AlignmentOperation,
};
use crate::interleave::{lemma_interleave_reconstructs, spec_interleave};
use crate::render::{spec_output_lines, OutputLine};
use crate::scoring::AffineScoring;
use crate::tokenizer::{
    lemma_block_markers_empty, lemma_token_stream_offsets, lemma_tokenizer_totality,
    lemma_ws_tokens_nonempty, partition_tokens, significant_views, spec_tokens, tokenize,
    whitespace_views, TokenView,
};

verus! {

/// The element-wise view of a sequence of viewable values.
pub open spec fn seq_views<T: View>(s: Seq<T>) -> Seq<T::V> {
    s.map_values(|t: T| t@)
}

/// The significant tokens of a source string.
pub open spec fn significant_of(src: Seq<char>) -> Seq<TokenView> {
    significant_views(spec_tokens(src, 0, 0, 0))
}

/// The whitespace tokens of a source string.
pub open spec fn whitespace_of(src: Seq<char>) -> Seq<TokenView> {
    whitespace_views(spec_tokens(src, 0, 0, 0))
}

/// What the whole diff pipeline promises of its script: the whitespace
/// of both sides is interleaved into an alignment of the significant
/// tokens that is optimal under the default affine policy.
pub open spec fn diff_script_ok(
    ops: Seq<AlignmentOperation<TokenView>>,
    l: Seq<char>,
    r: Seq<char>,
) -> bool {
    exists|sig: Seq<AlignmentOperation<TokenView>>|
        {
            &&& #[trigger] valid_script(sig, significant_of(l), significant_of(r))
            &&& Some(script_cost(AffineScoring::default_spec(), sig)) == alignment_cost(
                AffineScoring::default_spec(),
                significant_of(l),
                significant_of(r),
            )
            &&& ops == spec_interleave(sig, whitespace_of(l), whitespace_of(r), None, None)
        }
}

/// Diff two sources into one merged alignment script, under the default
/// affine policy.  Each side of the merged script reads back as the full
/// tokenization of its source, whitespace included, and concatenating
/// its texts reproduces that source, character for character.
pub fn diff_alignment(left_text: &str, right_text: &str) -> (a: Alignment)
    ensures
        diff_script_ok(seq_views(a.operations@), left_text@, right_text@),
        left_proj(seq_views(a.operations@)) == spec_tokens(left_text@, 0, 0, 0),
        right_proj(seq_views(a.operations@)) == spec_tokens(right_text@, 0, 0, 0),
        concat_left_texts(seq_views(a.operations@)) == left_text@,
        concat_right_texts(seq_views(a.operations@)) == right_text@,
{
    let left_tokens = tokenize(left_text);
    let right_tokens = tokenize(right_text);
    let (left_significant, left_whitespace) = partition_tokens(left_tokens);
    let (right_significant, right_whitespace) = partition_tokens(right_tokens);
    let scoring = AffineScoring::default();
    let aligned = align(&scoring, &left_significant, &right_significant);
    let ghost sig = seq_views(aligned.operations@);
    let merged = aligned.interleave_tokens(&left_whitespace, &right_whitespace);
    proof {
        assert(valid_script(sig, significant_of(left_text@), significant_of(right_text@)));
        lemma_token_stream_offsets(left_text@, 0, 0, 0);
        lemma_token_stream_offsets(right_text@, 0, 0, 0);
        lemma_ws_tokens_nonempty(left_text@, 0, 0, 0);
        lemma_ws_tokens_nonempty(right_text@, 0, 0, 0);
        lemma_interleave_reconstructs(
            sig,
            spec_tokens(left_text@, 0, 0, 0),
            spec_tokens(right_text@, 0, 0, 0),
            0,
            0,
        );
        lemma_round_trip_left(
            seq_views(merged.operations@),
            spec_tokens(left_text@, 0, 0, 0),
            spec_tokens(right_text@, 0, 0, 0),
        );
        lemma_round_trip_right(
            seq_views(merged.operations@),
            spec_tokens(left_text@, 0, 0, 0),
            spec_tokens(right_text@, 0, 0, 0),
        );
        lemma_block_markers_empty(left_text@, 0, 0, 0);
        lemma_block_markers_empty(right_text@, 0, 0, 0);
        lemma_concat_texts_skip_markers(spec_tokens(left_text@, 0, 0, 0));
        lemma_concat_texts_skip_markers(spec_tokens(right_text@, 0, 0, 0));
        lemma_tokenizer_totality(left_text@, 0, 0, 0);
        lemma_tokenizer_totality(right_text@, 0, 0, 0);
        assert(left_text@.skip(0) =~= left_text@);
        assert(right_text@.skip(0) =~= right_text@);
    }
    merged
}

/// Diff two sources into rendered output lines.
pub fn diff_output_lines(left_text: &str, right_text: &str) -> (lines: Vec<OutputLine>)
    ensures
        exists|ops: Seq<AlignmentOperation<TokenView>>|
            {
                &&& #[trigger] diff_script_ok(ops, left_text@, right_text@)
                &&& left_proj(ops) == spec_tokens(left_text@, 0, 0, 0)
                &&& right_proj(ops) == spec_tokens(right_text@, 0, 0, 0)
                &&& seq_views(lines@) == spec_output_lines(ops)
            },
{
    let merged = diff_alignment(left_text, right_text);
    let lines = merged.output_lines();
    proof {
        let ops = seq_views(merged.operations@);
        assert(diff_script_ok(ops, left_text@, right_text@) && seq_views(lines@)
            == spec_output_lines(ops));
    }
    lines
}

} // verus!
