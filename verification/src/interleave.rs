//! Splicing whitespace tokens back into an alignment script.
//!
//! The aligner works on the significant tokens only.  The interleaver
//! walks the finished script and re-inserts the whitespace tokens of both
//! sides at their positional anchors: a secondary token is emitted as
//! soon as the script is about to move past its start offset.  Within
//! each step the right side is drained before the left one.

use vstd::prelude::*;

use crate::alignment::{left_proj, right_proj, Alignment, AlignmentOperation};
use crate::chars::utf8_len;
use crate::seq_views;
use crate::tokenizer::{
    significant_views, whitespace_tokens_nonempty, whitespace_views, Token, TokenView,
};

verus! {

/// Whether a token starting at `start` comes before the position last
/// seen on its side; with no position seen yet, nothing does.
pub open spec fn before_position(start: int, pos: Option<int>) -> bool {
    match pos {
        Some(p) => start < p,
        None => false,
    }
}

/// The interleaved script: the reference walk that `interleave_tokens`
/// is proved to produce.  `lp` and `rp` are the start offsets of the
/// most recent tokens seen on each side.
pub open spec fn spec_interleave(
    ops: Seq<AlignmentOperation<TokenView>>,
    ls: Seq<TokenView>,
    rs: Seq<TokenView>,
    lp: Option<int>,
    rp: Option<int>,
) -> Seq<AlignmentOperation<TokenView>>
    decreases ops.len() + ls.len() + rs.len(),
{
    if ops.len() == 0 {
        rs.map_values(|t: TokenView| AlignmentOperation::InsertRight { right: t })
            + ls.map_values(|t: TokenView| AlignmentOperation::InsertLeft { left: t })
    } else {
        let rp2 = match ops[0].spec_right() {
            Some(t) => Some(t.start),
            None => rp,
        };
        let lp2 = match ops[0].spec_left() {
            Some(t) => Some(t.start),
            None => lp,
        };
        if rs.len() > 0 && before_position(rs[0].start, rp2) {
            seq![AlignmentOperation::InsertRight { right: rs[0] }] + spec_interleave(
                ops,
                ls,
                rs.drop_first(),
                lp,
                rp,
            )
        } else if ls.len() > 0 && before_position(ls[0].start, lp2) {
            seq![AlignmentOperation::InsertLeft { left: ls[0] }] + spec_interleave(
                ops,
                ls.drop_first(),
                rs,
                lp,
                rp,
            )
        } else {
            seq![ops[0]] + spec_interleave(ops.drop_first(), ls, rs, lp2, rp2)
        }
    }
}

/// `m` interleaves `a` and `b`: it contains exactly the elements of
/// both, each in its original order.
pub open spec fn is_merge<A>(m: Seq<A>, a: Seq<A>, b: Seq<A>) -> bool
    decreases m.len(),
{
    if m.len() == 0 {
        a.len() == 0 && b.len() == 0
    } else {
        ||| (a.len() > 0 && m[0] == a[0] && is_merge(m.drop_first(), a.drop_first(), b))
        ||| (b.len() > 0 && m[0] == b[0] && is_merge(m.drop_first(), a, b.drop_first()))
    }
}

/// A sequence is a merge of nothing and itself.
proof fn lemma_merge_self<A>(b: Seq<A>)
    ensures
        is_merge(b, Seq::empty(), b),
    decreases b.len(),
{
    if b.len() > 0 {
        lemma_merge_self(b.drop_first());
    }
}

/// The projections of a script starting with one operation.
proof fn lemma_proj_cons(op: AlignmentOperation<TokenView>, rest: Seq<AlignmentOperation<
    TokenView,
>>)
    ensures
        left_proj(seq![op] + rest) == match op.spec_left() {
            Some(t) => seq![t] + left_proj(rest),
            None => left_proj(rest),
        },
        right_proj(seq![op] + rest) == match op.spec_right() {
            Some(t) => seq![t] + right_proj(rest),
            None => right_proj(rest),
        },
{
    assert((seq![op] + rest)[0] == op);
    assert((seq![op] + rest).drop_first() =~= rest);
}

/// Projections of the tail flush: the mapped insert-rights contribute
/// all of `rs` on the right and nothing on the left, and the mapped
/// insert-lefts the reverse.
proof fn lemma_proj_flush(rs: Seq<TokenView>, ls: Seq<TokenView>)
    ensures
        left_proj(
            rs.map_values(|t: TokenView| AlignmentOperation::InsertRight { right: t })
                + ls.map_values(|t: TokenView| AlignmentOperation::InsertLeft { left: t }),
        ) == ls,
        right_proj(
            rs.map_values(|t: TokenView| AlignmentOperation::InsertRight { right: t })
                + ls.map_values(|t: TokenView| AlignmentOperation::InsertLeft { left: t }),
        ) == rs,
    decreases rs.len() + ls.len(),
{
    let irs = rs.map_values(|t: TokenView| AlignmentOperation::InsertRight { right: t });
    let ils = ls.map_values(|t: TokenView| AlignmentOperation::InsertLeft { left: t });
    if rs.len() > 0 {
        lemma_proj_flush(rs.drop_first(), ls);
        assert(irs + ils =~= seq![AlignmentOperation::InsertRight { right: rs[0] }] + (
        rs.drop_first().map_values(
            |t: TokenView| AlignmentOperation::InsertRight { right: t },
        ) + ils));
        lemma_proj_cons(
            AlignmentOperation::InsertRight { right: rs[0] },
            rs.drop_first().map_values(|t: TokenView| AlignmentOperation::InsertRight { right: t })
                + ils,
        );
        assert(seq![rs[0]] + rs.drop_first() =~= rs);
    } else if ls.len() > 0 {
        lemma_proj_flush(rs, ls.drop_first());
        let tail = ls.drop_first().map_values(
            |t: TokenView| AlignmentOperation::InsertLeft { left: t },
        );
        assert(irs =~= Seq::<AlignmentOperation<TokenView>>::empty());
        assert(irs + tail =~= tail);
        assert(irs + ils =~= seq![AlignmentOperation::InsertLeft { left: ls[0] }] + tail);
        lemma_proj_cons(AlignmentOperation::InsertLeft { left: ls[0] }, tail);
        assert(seq![ls[0]] + ls.drop_first() =~= ls);
    } else {
        assert(irs + ils =~= Seq::<AlignmentOperation<TokenView>>::empty());
    }
}

/// Interleaver order preservation: on each side, the output's tokens are
/// a merge of the script's tokens and the secondary tokens, both in
/// their original order.
pub proof fn lemma_interleave_order(
    ops: Seq<AlignmentOperation<TokenView>>,
    ls: Seq<TokenView>,
    rs: Seq<TokenView>,
    lp: Option<int>,
    rp: Option<int>,
)
    ensures
        is_merge(left_proj(spec_interleave(ops, ls, rs, lp, rp)), left_proj(ops), ls),
        is_merge(right_proj(spec_interleave(ops, ls, rs, lp, rp)), right_proj(ops), rs),
    decreases ops.len() + ls.len() + rs.len(),
{
    let out = spec_interleave(ops, ls, rs, lp, rp);
    if ops.len() == 0 {
        lemma_proj_flush(rs, ls);
        lemma_merge_self(ls);
        lemma_merge_self(rs);
        assert(left_proj(ops) =~= Seq::<TokenView>::empty());
        assert(right_proj(ops) =~= Seq::<TokenView>::empty());
    } else {
        let rp2 = match ops[0].spec_right() {
            Some(t) => Some(t.start),
            None => rp,
        };
        let lp2 = match ops[0].spec_left() {
            Some(t) => Some(t.start),
            None => lp,
        };
        if rs.len() > 0 && before_position(rs[0].start, rp2) {
            let rest = spec_interleave(ops, ls, rs.drop_first(), lp, rp);
            lemma_interleave_order(ops, ls, rs.drop_first(), lp, rp);
            lemma_proj_cons(AlignmentOperation::InsertRight { right: rs[0] }, rest);
            assert(out.drop_first() =~= rest);
            assert(left_proj(out) == left_proj(rest));
            assert(right_proj(out) == seq![rs[0]] + right_proj(rest));
            assert(right_proj(out)[0] == rs[0]);
            assert(right_proj(out).drop_first() =~= right_proj(rest));
        } else if ls.len() > 0 && before_position(ls[0].start, lp2) {
            let rest = spec_interleave(ops, ls.drop_first(), rs, lp, rp);
            lemma_interleave_order(ops, ls.drop_first(), rs, lp, rp);
            lemma_proj_cons(AlignmentOperation::InsertLeft { left: ls[0] }, rest);
            assert(out.drop_first() =~= rest);
            assert(right_proj(out) == right_proj(rest));
            assert(left_proj(out) == seq![ls[0]] + left_proj(rest));
            assert(left_proj(out)[0] == ls[0]);
            assert(left_proj(out).drop_first() =~= left_proj(rest));
        } else {
            let rest = spec_interleave(ops.drop_first(), ls, rs, lp2, rp2);
            lemma_interleave_order(ops.drop_first(), ls, rs, lp2, rp2);
            lemma_proj_cons(ops[0], rest);
            assert(out.drop_first() =~= rest);
            assert(ops[0] == (seq![ops[0]] + ops.drop_first())[0]);
            assert(ops =~= seq![ops[0]] + ops.drop_first());
            lemma_proj_cons(ops[0], ops.drop_first());
            match ops[0].spec_left() {
                Some(t) => {
                    assert(left_proj(ops) == seq![t] + left_proj(ops.drop_first()));
                    assert(left_proj(out) == seq![t] + left_proj(rest));
                    assert(left_proj(out)[0] == t);
                    assert(left_proj(ops)[0] == t);
                    assert(left_proj(out).drop_first() =~= left_proj(rest));
                    assert(left_proj(ops).drop_first() =~= left_proj(ops.drop_first()));
                },
                None => {
                    assert(left_proj(out) == left_proj(rest));
                    assert(left_proj(ops) == left_proj(ops.drop_first()));
                },
            }
            match ops[0].spec_right() {
                Some(t) => {
                    assert(right_proj(ops) == seq![t] + right_proj(ops.drop_first()));
                    assert(right_proj(out) == seq![t] + right_proj(rest));
                    assert(right_proj(out)[0] == t);
                    assert(right_proj(ops)[0] == t);
                    assert(right_proj(out).drop_first() =~= right_proj(rest));
                    assert(right_proj(ops).drop_first() =~= right_proj(ops.drop_first()));
                },
                None => {
                    assert(right_proj(out) == right_proj(rest));
                    assert(right_proj(ops) == right_proj(ops.drop_first()));
                },
            }
        }
    }
}

/// Start offsets never decrease along the sequence.
pub open spec fn sorted_starts(ts: Seq<TokenView>) -> bool {
    forall|k1: int, k2: int|
        0 <= k1 <= k2 < ts.len() ==> (#[trigger] ts[k1]).start <= (#[trigger] ts[k2]).start
}

/// Every later token starts at or after the end of every earlier one.
pub open spec fn chained_offsets(ts: Seq<TokenView>) -> bool {
    forall|k1: int, k2: int|
        0 <= k1 < k2 < ts.len() ==> (#[trigger] ts[k2]).start >= (#[trigger] ts[k1]).start
            + utf8_len(ts[k1].text)
}

/// An anchor position lies at or before every token of `ts`.
pub open spec fn anchor_ok(pos: Option<int>, ts: Seq<TokenView>) -> bool {
    match pos {
        Some(p) => forall|k: int| 0 <= k < ts.len() ==> (#[trigger] ts[k]).start >= p,
        None => true,
    }
}

/// Merge two token sequences by start offset: the next secondary token is
/// taken whenever it starts strictly before the next primary one.
pub open spec fn position_merge(sig: Seq<TokenView>, ws: Seq<TokenView>) -> Seq<TokenView>
    decreases sig.len() + ws.len(),
{
    if ws.len() == 0 {
        sig
    } else if sig.len() == 0 {
        ws
    } else if ws[0].start < sig[0].start {
        seq![ws[0]] + position_merge(sig, ws.drop_first())
    } else {
        seq![sig[0]] + position_merge(sig.drop_first(), ws)
    }
}

/// Adjacent offset bounds chain across any gap.
proof fn lemma_offsets_gap(ts: Seq<TokenView>, byte: int, k1: int, k2: int)
    requires
        crate::tokenizer::stream_offsets_ok(ts, byte),
        0 <= k1 < k2 < ts.len(),
    ensures
        ts[k2].start >= ts[k1].start + utf8_len(ts[k1].text),
    decreases k2 - k1,
{
    if k2 > k1 + 1 {
        lemma_offsets_gap(ts, byte, k1 + 1, k2);
    }
}

/// A stream with chained adjacent offsets has chained offsets outright.
pub proof fn lemma_chained_offsets(ts: Seq<TokenView>, byte: int)
    requires
        crate::tokenizer::stream_offsets_ok(ts, byte),
    ensures
        chained_offsets(ts),
{
    assert forall|k1: int, k2: int| 0 <= k1 < k2 < ts.len() implies (#[trigger] ts[k2]).start >= (
    #[trigger] ts[k1]).start + utf8_len(ts[k1].text) by {
        lemma_offsets_gap(ts, byte, k1, k2);
    }
}

/// Chained offsets restrict to the tail.
proof fn lemma_chained_drop(ts: Seq<TokenView>)
    requires
        chained_offsets(ts),
        ts.len() > 0,
    ensures
        chained_offsets(ts.drop_first()),
        whitespace_tokens_nonempty(ts) ==> whitespace_tokens_nonempty(ts.drop_first()),
{
    let tail = ts.drop_first();
    assert forall|k1: int, k2: int| 0 <= k1 < k2 < tail.len() implies (#[trigger] tail[k2]).start
        >= (#[trigger] tail[k1]).start + utf8_len(tail[k1].text) by {
        assert(tail[k1] == ts[k1 + 1]);
        assert(tail[k2] == ts[k2 + 1]);
    }
    if whitespace_tokens_nonempty(ts) {
        assert forall|k: int|
            0 <= k < tail.len() && (#[trigger] tail[k]).is_whitespace() implies tail[k].text.len()
            >= 1 by {
            assert(tail[k] == ts[k + 1]);
        }
    }
}

/// Both partition halves inherit a lower bound on start offsets.
proof fn lemma_partition_start_bound(ts: Seq<TokenView>, b: int)
    requires
        forall|k: int| 0 <= k < ts.len() ==> (#[trigger] ts[k]).start >= b,
    ensures
        forall|k: int|
            0 <= k < significant_views(ts).len() ==> (#[trigger] significant_views(ts)[k]).start
                >= b,
        forall|k: int|
            0 <= k < whitespace_views(ts).len() ==> (#[trigger] whitespace_views(ts)[k]).start
                >= b,
    decreases ts.len(),
{
    if ts.len() > 0 {
        let tail = ts.drop_first();
        assert forall|k: int| 0 <= k < tail.len() implies (#[trigger] tail[k]).start >= b by {
            assert(tail[k] == ts[k + 1]);
        }
        lemma_partition_start_bound(tail, b);
        if ts[0].is_whitespace() {
            assert(significant_views(ts) == significant_views(tail));
            assert forall|k: int|
                0 <= k < whitespace_views(ts).len() implies (#[trigger] whitespace_views(
                ts,
            )[k]).start >= b by {
                if k >= 1 {
                    assert(whitespace_views(ts)[k] == whitespace_views(tail)[k - 1]);
                }
            }
        } else {
            assert(whitespace_views(ts) == whitespace_views(tail));
            assert forall|k: int|
                0 <= k < significant_views(ts).len() implies (#[trigger] significant_views(
                ts,
            )[k]).start >= b by {
                if k >= 1 {
                    assert(significant_views(ts)[k] == significant_views(tail)[k - 1]);
                }
            }
        }
    }
}

/// The significant subsequence of a chained stream is sorted by start.
proof fn lemma_significant_sorted(ts: Seq<TokenView>)
    requires
        chained_offsets(ts),
    ensures
        sorted_starts(significant_views(ts)),
    decreases ts.len(),
{
    if ts.len() > 0 {
        let tail = ts.drop_first();
        lemma_chained_drop(ts);
        lemma_significant_sorted(tail);
        let sig = significant_views(ts);
        if ts[0].is_whitespace() {
            assert(sig == significant_views(tail));
        } else {
            assert forall|k: int| 0 <= k < tail.len() implies (#[trigger] tail[k]).start
                >= ts[0].start by {
                assert(tail[k] == ts[k + 1]);
            }
            lemma_partition_start_bound(tail, ts[0].start);
            assert forall|k1: int, k2: int| 0 <= k1 <= k2 < sig.len() implies (
            #[trigger] sig[k1]).start <= (#[trigger] sig[k2]).start by {
                if k1 >= 1 {
                    assert(sig[k1] == significant_views(tail)[k1 - 1]);
                    assert(sig[k2] == significant_views(tail)[k2 - 1]);
                } else if k2 >= 1 {
                    assert(sig[k2] == significant_views(tail)[k2 - 1]);
                }
            }
        }
    }
}

/// Merging the two partition halves of a chained stream by position gives
/// the stream back.
pub proof fn lemma_position_merge_reconstructs(ts: Seq<TokenView>)
    requires
        chained_offsets(ts),
        whitespace_tokens_nonempty(ts),
    ensures
        position_merge(significant_views(ts), whitespace_views(ts)) == ts,
    decreases ts.len(),
{
    if ts.len() == 0 {
        assert(position_merge(significant_views(ts), whitespace_views(ts)) =~= ts);
    } else {
        let tail = ts.drop_first();
        lemma_chained_drop(ts);
        lemma_position_merge_reconstructs(tail);
        let sig = significant_views(ts);
        let ws = whitespace_views(ts);
        assert forall|k: int| 0 <= k < tail.len() implies (#[trigger] tail[k]).start >= ts[0].start
            + utf8_len(ts[0].text) by {
            assert(tail[k] == ts[k + 1]);
        }
        lemma_partition_start_bound(tail, ts[0].start + utf8_len(ts[0].text) as int);
        if ts[0].is_whitespace() {
            assert(ws == seq![ts[0]] + whitespace_views(tail));
            assert(sig == significant_views(tail));
            assert(ws[0] == ts[0]);
            assert(ws.drop_first() =~= whitespace_views(tail));
            assert(utf8_len(ts[0].text) >= 1) by {
                crate::chars::lemma_utf8_len_lower(ts[0].text);
            }
            if sig.len() > 0 {
                assert(sig[0].start >= ts[0].start + utf8_len(ts[0].text));
                assert(ws[0].start < sig[0].start);
                assert(position_merge(sig, ws) == seq![ts[0]] + position_merge(
                    sig,
                    ws.drop_first(),
                ));
            } else {
                assert(position_merge(sig, ws) == ws);
                assert(position_merge(significant_views(tail), whitespace_views(tail)) == tail);
                assert(whitespace_views(tail) =~= tail);
            }
            assert(position_merge(sig, ws) =~= seq![ts[0]] + tail);
            assert(seq![ts[0]] + tail =~= ts);
        } else {
            assert(sig == seq![ts[0]] + significant_views(tail));
            assert(ws == whitespace_views(tail));
            assert(sig[0] == ts[0]);
            assert(sig.drop_first() =~= significant_views(tail));
            if ws.len() > 0 {
                assert(ws[0].start >= ts[0].start + utf8_len(ts[0].text));
                assert(!(ws[0].start < sig[0].start));
                assert(position_merge(sig, ws) == seq![ts[0]] + position_merge(
                    sig.drop_first(),
                    ws,
                ));
            } else {
                assert(position_merge(sig, ws) == sig);
                assert(position_merge(significant_views(tail), whitespace_views(tail)) == tail);
                assert(significant_views(tail) =~= tail);
            }
            assert(position_merge(sig, ws) =~= seq![ts[0]] + tail);
            assert(seq![ts[0]] + tail =~= ts);
        }
    }
}

/// On the left side, the interleaver's walk emits exactly the position
/// merge of the script's left tokens with the secondary tokens, as long
/// as the script's left tokens are sorted and lie at or after the anchor.
proof fn lemma_itl_left(
    ops: Seq<AlignmentOperation<TokenView>>,
    ls: Seq<TokenView>,
    rs: Seq<TokenView>,
    lp: Option<int>,
    rp: Option<int>,
)
    requires
        sorted_starts(left_proj(ops)),
        anchor_ok(lp, left_proj(ops)),
    ensures
        left_proj(spec_interleave(ops, ls, rs, lp, rp)) == position_merge(left_proj(ops), ls),
    decreases ops.len() + ls.len() + rs.len(),
{
    let out = spec_interleave(ops, ls, rs, lp, rp);
    let sig = left_proj(ops);
    if ops.len() == 0 {
        lemma_proj_flush(rs, ls);
        assert(sig =~= Seq::<TokenView>::empty());
        if ls.len() == 0 {
            assert(position_merge(sig, ls) =~= ls);
        }
    } else {
        let rp2 = match ops[0].spec_right() {
            Some(t) => Some(t.start),
            None => rp,
        };
        let lp2 = match ops[0].spec_left() {
            Some(t) => Some(t.start),
            None => lp,
        };
        assert(ops =~= seq![ops[0]] + ops.drop_first());
        lemma_proj_cons(ops[0], ops.drop_first());
        if rs.len() > 0 && before_position(rs[0].start, rp2) {
            let rest = spec_interleave(ops, ls, rs.drop_first(), lp, rp);
            lemma_itl_left(ops, ls, rs.drop_first(), lp, rp);
            lemma_proj_cons(AlignmentOperation::InsertRight { right: rs[0] }, rest);
            assert(out.drop_first() =~= rest);
            assert(left_proj(out) == left_proj(rest));
        } else if ls.len() > 0 && before_position(ls[0].start, lp2) {
            let rest = spec_interleave(ops, ls.drop_first(), rs, lp, rp);
            lemma_itl_left(ops, ls.drop_first(), rs, lp, rp);
            lemma_proj_cons(AlignmentOperation::InsertLeft { left: ls[0] }, rest);
            assert(out.drop_first() =~= rest);
            assert(left_proj(out) == seq![ls[0]] + left_proj(rest));
            if sig.len() == 0 {
                assert(position_merge(sig, ls) == ls);
                assert(position_merge(sig, ls.drop_first()) == if ls.drop_first().len() == 0 {
                    sig
                } else {
                    ls.drop_first()
                });
                assert(position_merge(sig, ls.drop_first()) =~= ls.drop_first());
                assert(seq![ls[0]] + ls.drop_first() =~= ls);
            } else {
                match ops[0].spec_left() {
                    Some(t) => {
                        assert(sig[0] == t);
                        assert(ls[0].start < sig[0].start);
                    },
                    None => {
                        assert(sig[0].start >= lp.unwrap());
                        assert(ls[0].start < sig[0].start);
                    },
                }
                assert(position_merge(sig, ls) == seq![ls[0]] + position_merge(
                    sig,
                    ls.drop_first(),
                ));
            }
        } else {
            let rest = spec_interleave(ops.drop_first(), ls, rs, lp2, rp2);
            assert(out.drop_first() =~= rest);
            lemma_proj_cons(ops[0], rest);
            match ops[0].spec_left() {
                Some(t) => {
                    assert(sig == seq![t] + left_proj(ops.drop_first()));
                    assert(sig[0] == t);
                    assert(sig.drop_first() =~= left_proj(ops.drop_first()));
                    assert forall|k1: int, k2: int|
                        0 <= k1 <= k2 < left_proj(ops.drop_first()).len() implies (
                    #[trigger] left_proj(ops.drop_first())[k1]).start <= (#[trigger] left_proj(
                        ops.drop_first(),
                    )[k2]).start by {
                        assert(left_proj(ops.drop_first())[k1] == sig[k1 + 1]);
                        assert(left_proj(ops.drop_first())[k2] == sig[k2 + 1]);
                    }
                    assert forall|k: int|
                        0 <= k < left_proj(ops.drop_first()).len() implies (#[trigger] left_proj(
                        ops.drop_first(),
                    )[k]).start >= t.start by {
                        assert(left_proj(ops.drop_first())[k] == sig[k + 1]);
                    }
                    lemma_itl_left(ops.drop_first(), ls, rs, lp2, rp2);
                    assert(left_proj(out) == seq![t] + left_proj(rest));
                    if ls.len() == 0 {
                        assert(position_merge(sig, ls) == sig);
                        assert(position_merge(sig.drop_first(), ls) == sig.drop_first());
                        assert(seq![t] + sig.drop_first() =~= sig);
                    } else {
                        assert(!(ls[0].start < sig[0].start));
                        assert(position_merge(sig, ls) == seq![sig[0]] + position_merge(
                            sig.drop_first(),
                            ls,
                        ));
                    }
                },
                None => {
                    assert(sig == left_proj(ops.drop_first()));
                    lemma_itl_left(ops.drop_first(), ls, rs, lp2, rp2);
                    assert(left_proj(out) == left_proj(rest));
                },
            }
        }
    }
}

/// The mirror image of [`lemma_itl_left`] for the right side.
proof fn lemma_itl_right(
    ops: Seq<AlignmentOperation<TokenView>>,
    ls: Seq<TokenView>,
    rs: Seq<TokenView>,
    lp: Option<int>,
    rp: Option<int>,
)
    requires
        sorted_starts(right_proj(ops)),
        anchor_ok(rp, right_proj(ops)),
    ensures
        right_proj(spec_interleave(ops, ls, rs, lp, rp)) == position_merge(right_proj(ops), rs),
    decreases ops.len() + ls.len() + rs.len(),
{
    let out = spec_interleave(ops, ls, rs, lp, rp);
    let sig = right_proj(ops);
    if ops.len() == 0 {
        lemma_proj_flush(rs, ls);
        assert(sig =~= Seq::<TokenView>::empty());
        if rs.len() == 0 {
            assert(position_merge(sig, rs) =~= rs);
        }
    } else {
        let rp2 = match ops[0].spec_right() {
            Some(t) => Some(t.start),
            None => rp,
        };
        let lp2 = match ops[0].spec_left() {
            Some(t) => Some(t.start),
            None => lp,
        };
        assert(ops =~= seq![ops[0]] + ops.drop_first());
        lemma_proj_cons(ops[0], ops.drop_first());
        if rs.len() > 0 && before_position(rs[0].start, rp2) {
            let rest = spec_interleave(ops, ls, rs.drop_first(), lp, rp);
            lemma_itl_right(ops, ls, rs.drop_first(), lp, rp);
            lemma_proj_cons(AlignmentOperation::InsertRight { right: rs[0] }, rest);
            assert(out.drop_first() =~= rest);
            assert(right_proj(out) == seq![rs[0]] + right_proj(rest));
            if sig.len() == 0 {
                assert(position_merge(sig, rs) == rs);
                assert(position_merge(sig, rs.drop_first()) == if rs.drop_first().len() == 0 {
                    sig
                } else {
                    rs.drop_first()
                });
                assert(position_merge(sig, rs.drop_first()) =~= rs.drop_first());
                assert(seq![rs[0]] + rs.drop_first() =~= rs);
            } else {
                match ops[0].spec_right() {
                    Some(t) => {
                        assert(sig[0] == t);
                        assert(rs[0].start < sig[0].start);
                    },
                    None => {
                        assert(sig[0].start >= rp.unwrap());
                        assert(rs[0].start < sig[0].start);
                    },
                }
                assert(position_merge(sig, rs) == seq![rs[0]] + position_merge(
                    sig,
                    rs.drop_first(),
                ));
            }
        } else if ls.len() > 0 && before_position(ls[0].start, lp2) {
            let rest = spec_interleave(ops, ls.drop_first(), rs, lp, rp);
            lemma_itl_right(ops, ls.drop_first(), rs, lp, rp);
            lemma_proj_cons(AlignmentOperation::InsertLeft { left: ls[0] }, rest);
            assert(out.drop_first() =~= rest);
            assert(right_proj(out) == right_proj(rest));
        } else {
            let rest = spec_interleave(ops.drop_first(), ls, rs, lp2, rp2);
            assert(out.drop_first() =~= rest);
            lemma_proj_cons(ops[0], rest);
            match ops[0].spec_right() {
                Some(t) => {
                    assert(sig == seq![t] + right_proj(ops.drop_first()));
                    assert(sig[0] == t);
                    assert(sig.drop_first() =~= right_proj(ops.drop_first()));
                    assert forall|k1: int, k2: int|
                        0 <= k1 <= k2 < right_proj(ops.drop_first()).len() implies (
                    #[trigger] right_proj(ops.drop_first())[k1]).start <= (#[trigger] right_proj(
                        ops.drop_first(),
                    )[k2]).start by {
                        assert(right_proj(ops.drop_first())[k1] == sig[k1 + 1]);
                        assert(right_proj(ops.drop_first())[k2] == sig[k2 + 1]);
                    }
                    assert forall|k: int|
                        0 <= k < right_proj(ops.drop_first()).len() implies (#[trigger] right_proj(
                        ops.drop_first(),
                    )[k]).start >= t.start by {
                        assert(right_proj(ops.drop_first())[k] == sig[k + 1]);
                    }
                    lemma_itl_right(ops.drop_first(), ls, rs, lp2, rp2);
                    assert(right_proj(out) == seq![t] + right_proj(rest));
                    if rs.len() == 0 {
                        assert(position_merge(sig, rs) == sig);
                        assert(position_merge(sig.drop_first(), rs) == sig.drop_first());
                        assert(seq![t] + sig.drop_first() =~= sig);
                    } else {
                        assert(!(rs[0].start < sig[0].start));
                        assert(position_merge(sig, rs) == seq![sig[0]] + position_merge(
                            sig.drop_first(),
                            rs,
                        ));
                    }
                },
                None => {
                    assert(sig == right_proj(ops.drop_first()));
                    lemma_itl_right(ops.drop_first(), ls, rs, lp2, rp2);
                    assert(right_proj(out) == right_proj(rest));
                },
            }
        }
    }
}

/// Interleaving the whitespace of two chained token streams into an
/// alignment of their significant tokens reproduces both streams whole:
/// each side of the merged script reads back as the full tokenization.
pub proof fn lemma_interleave_reconstructs(
    ops: Seq<AlignmentOperation<TokenView>>,
    ltoks: Seq<TokenView>,
    rtoks: Seq<TokenView>,
    lbyte: int,
    rbyte: int,
)
    requires
        left_proj(ops) == significant_views(ltoks),
        right_proj(ops) == significant_views(rtoks),
        crate::tokenizer::stream_offsets_ok(ltoks, lbyte),
        crate::tokenizer::stream_offsets_ok(rtoks, rbyte),
        whitespace_tokens_nonempty(ltoks),
        whitespace_tokens_nonempty(rtoks),
    ensures
        left_proj(
            spec_interleave(ops, whitespace_views(ltoks), whitespace_views(rtoks), None, None),
        ) == ltoks,
        right_proj(
            spec_interleave(ops, whitespace_views(ltoks), whitespace_views(rtoks), None, None),
        ) == rtoks,
{
    lemma_chained_offsets(ltoks, lbyte);
    lemma_chained_offsets(rtoks, rbyte);
    lemma_significant_sorted(ltoks);
    lemma_significant_sorted(rtoks);
    lemma_itl_left(ops, whitespace_views(ltoks), whitespace_views(rtoks), None, None);
    lemma_itl_right(ops, whitespace_views(ltoks), whitespace_views(rtoks), None, None);
    lemma_position_merge_reconstructs(ltoks);
    lemma_position_merge_reconstructs(rtoks);
}

/// The payloads of an operation's view are the views of its payloads.
proof fn lemma_op_view_payloads(op: AlignmentOperation<Token>)
    ensures
        (op@.spec_left() is Some) == (op.spec_left() is Some),
        (op@.spec_right() is Some) == (op.spec_right() is Some),
        op.spec_left() matches Some(t) ==> op@.spec_left() == Some(t@),
        op.spec_right() matches Some(t) ==> op@.spec_right() == Some(t@),
{
    match op {
        AlignmentOperation::Mutation { .. } => {},
        AlignmentOperation::InsertLeft { .. } => {},
        AlignmentOperation::InsertRight { .. } => {},
    }
}

/// The view of an `Option<usize>` position.
pub open spec fn position_view(p: Option<usize>) -> Option<int> {
    match p {
        Some(u) => Some(u as int),
        None => None,
    }
}

impl Alignment {
    /// Splice the whitespace tokens of both sides back into the script,
    /// each at its positional anchor.  On each side, the output's tokens
    /// are a merge of the script's and the spliced ones, both in order.
    pub fn interleave_tokens(self, left: &Vec<Token>, right: &Vec<Token>) -> (a: Alignment)
        ensures
            seq_views(a.operations@) == spec_interleave(
                seq_views(self.operations@),
                seq_views(left@),
                seq_views(right@),
                None,
                None,
            ),
            is_merge(
                left_proj(seq_views(a.operations@)),
                left_proj(seq_views(self.operations@)),
                seq_views(left@),
            ),
            is_merge(
                right_proj(seq_views(a.operations@)),
                right_proj(seq_views(self.operations@)),
                seq_views(right@),
            ),
    {
        let old_ops = self.operations;
        let ghost opsv = seq_views(old_ops@);
        let ghost lsv = seq_views(left@);
        let ghost rsv = seq_views(right@);
        let ghost target = spec_interleave(opsv, lsv, rsv, None, None);
        let mut out: Vec<AlignmentOperation<Token>> = Vec::new();
        let mut oi: usize = 0;
        let mut li: usize = 0;
        let mut ri: usize = 0;
        let mut left_position: Option<usize> = None;
        let mut right_position: Option<usize> = None;
        proof {
            assert(opsv.skip(0) =~= opsv);
            assert(lsv.skip(0) =~= lsv);
            assert(rsv.skip(0) =~= rsv);
        }
        while oi < old_ops.len()
            invariant
                oi <= old_ops@.len(),
                li <= left@.len(),
                ri <= right@.len(),
                opsv == seq_views(old_ops@),
                lsv == seq_views(left@),
                rsv == seq_views(right@),
                target == seq_views(out@) + spec_interleave(
                    opsv.skip(oi as int),
                    lsv.skip(li as int),
                    rsv.skip(ri as int),
                    position_view(left_position),
                    position_view(right_position),
                ),
            decreases old_ops@.len() - oi,
        {
            let op = &old_ops[oi];
            proof {
                lemma_op_view_payloads(*op);
                assert(opsv.skip(oi as int)[0] == op@);
            }
            let rp2: Option<usize> = match op.right() {
                Some(t) => Some(t.start),
                None => right_position,
            };
            let lp2: Option<usize> = match op.left() {
                Some(t) => Some(t.start),
                None => left_position,
            };
            proof {
                assert(position_view(rp2) == (match opsv.skip(oi as int)[0].spec_right() {
                    Some(t) => Some(t.start),
                    None => position_view(right_position),
                }));
                assert(position_view(lp2) == (match opsv.skip(oi as int)[0].spec_left() {
                    Some(t) => Some(t.start),
                    None => position_view(left_position),
                }));
            }
            if let Some(p) = rp2 {
                while ri < right.len() && right[ri].start < p
                    invariant
                        oi < old_ops@.len(),
                        ri <= right@.len(),
                        opsv == seq_views(old_ops@),
                        lsv == seq_views(left@),
                        rsv == seq_views(right@),
                        rp2 == Some::<usize>(p),
                        Some(p as int) == (match opsv.skip(oi as int)[0].spec_right() {
                            Some(t) => Some(t.start),
                            None => position_view(right_position),
                        }),
                        target == seq_views(out@) + spec_interleave(
                            opsv.skip(oi as int),
                            lsv.skip(li as int),
                            rsv.skip(ri as int),
                            position_view(left_position),
                            position_view(right_position),
                        ),
                    decreases right@.len() - ri,
                {
                    let ghost before = seq_views(out@);
                    let ghost rem = spec_interleave(
                        opsv.skip(oi as int),
                        lsv.skip(li as int),
                        rsv.skip(ri as int),
                        position_view(left_position),
                        position_view(right_position),
                    );
                    out.push(AlignmentOperation::InsertRight { right: right[ri].clone() });
                    proof {
                        assert(rsv.skip(ri as int)[0] == rsv[ri as int]);
                        assert(rsv.skip(ri as int).drop_first() =~= rsv.skip(ri + 1));
                        assert(rem == seq![
                            AlignmentOperation::InsertRight { right: rsv[ri as int] },
                        ] + spec_interleave(
                            opsv.skip(oi as int),
                            lsv.skip(li as int),
                            rsv.skip(ri + 1),
                            position_view(left_position),
                            position_view(right_position),
                        ));
                        assert(seq_views(out@) =~= before.push(
                            AlignmentOperation::InsertRight { right: rsv[ri as int] },
                        ));
                        assert(seq_views(out@) + spec_interleave(
                            opsv.skip(oi as int),
                            lsv.skip(li as int),
                            rsv.skip(ri + 1),
                            position_view(left_position),
                            position_view(right_position),
                        ) =~= before + rem);
                    }
                    ri = ri + 1;
                }
            }
            if let Some(p) = lp2 {
                while li < left.len() && left[li].start < p
                    invariant
                        oi < old_ops@.len(),
                        li <= left@.len(),
                        ri <= right@.len(),
                        opsv == seq_views(old_ops@),
                        lsv == seq_views(left@),
                        rsv == seq_views(right@),
                        lp2 == Some::<usize>(p),
                        Some(p as int) == (match opsv.skip(oi as int)[0].spec_left() {
                            Some(t) => Some(t.start),
                            None => position_view(left_position),
                        }),
                        ri == right@.len() || !before_position(
                            rsv.skip(ri as int)[0].start,
                            match opsv.skip(oi as int)[0].spec_right() {
                                Some(t) => Some(t.start),
                                None => position_view(right_position),
                            },
                        ),
                        target == seq_views(out@) + spec_interleave(
                            opsv.skip(oi as int),
                            lsv.skip(li as int),
                            rsv.skip(ri as int),
                            position_view(left_position),
                            position_view(right_position),
                        ),
                    decreases left@.len() - li,
                {
                    let ghost before = seq_views(out@);
                    let ghost rem = spec_interleave(
                        opsv.skip(oi as int),
                        lsv.skip(li as int),
                        rsv.skip(ri as int),
                        position_view(left_position),
                        position_view(right_position),
                    );
                    out.push(AlignmentOperation::InsertLeft { left: left[li].clone() });
                    proof {
                        assert(lsv.skip(li as int)[0] == lsv[li as int]);
                        assert(lsv.skip(li as int).drop_first() =~= lsv.skip(li + 1));
                        assert(rsv.skip(ri as int).len() > 0 ==> !before_position(
                            rsv.skip(ri as int)[0].start,
                            match opsv.skip(oi as int)[0].spec_right() {
                                Some(t) => Some(t.start),
                                None => position_view(right_position),
                            },
                        ));
                        assert(rem == seq![
                            AlignmentOperation::InsertLeft { left: lsv[li as int] },
                        ] + spec_interleave(
                            opsv.skip(oi as int),
                            lsv.skip(li + 1),
                            rsv.skip(ri as int),
                            position_view(left_position),
                            position_view(right_position),
                        ));
                        assert(seq_views(out@) =~= before.push(
                            AlignmentOperation::InsertLeft { left: lsv[li as int] },
                        ));
                        assert(seq_views(out@) + spec_interleave(
                            opsv.skip(oi as int),
                            lsv.skip(li + 1),
                            rsv.skip(ri as int),
                            position_view(left_position),
                            position_view(right_position),
                        ) =~= before + rem);
                    }
                    li = li + 1;
                }
            }
            let ghost before = seq_views(out@);
            let ghost rem = spec_interleave(
                opsv.skip(oi as int),
                lsv.skip(li as int),
                rsv.skip(ri as int),
                position_view(left_position),
                position_view(right_position),
            );
            out.push(op.clone());
            proof {
                assert(rsv.skip(ri as int).len() > 0 ==> !before_position(
                    rsv.skip(ri as int)[0].start,
                    match opsv.skip(oi as int)[0].spec_right() {
                        Some(t) => Some(t.start),
                        None => position_view(right_position),
                    },
                ));
                assert(lsv.skip(li as int).len() > 0 ==> !before_position(
                    lsv.skip(li as int)[0].start,
                    match opsv.skip(oi as int)[0].spec_left() {
                        Some(t) => Some(t.start),
                        None => position_view(left_position),
                    },
                ));
                assert(opsv.skip(oi as int).drop_first() =~= opsv.skip(oi + 1));
                assert(rem == seq![opsv.skip(oi as int)[0]] + spec_interleave(
                    opsv.skip(oi + 1),
                    lsv.skip(li as int),
                    rsv.skip(ri as int),
                    position_view(lp2),
                    position_view(rp2),
                ));
                assert(seq_views(out@) =~= before.push(opsv.skip(oi as int)[0]));
                assert(seq_views(out@) + spec_interleave(
                    opsv.skip(oi + 1),
                    lsv.skip(li as int),
                    rsv.skip(ri as int),
                    position_view(lp2),
                    position_view(rp2),
                ) =~= before + rem);
            }
            left_position = lp2;
            right_position = rp2;
            oi = oi + 1;
        }
        proof {
            assert(opsv.skip(oi as int).len() == 0);
        }
        while ri < right.len()
            invariant
                oi == old_ops@.len(),
                li <= left@.len(),
                ri <= right@.len(),
                opsv == seq_views(old_ops@),
                lsv == seq_views(left@),
                rsv == seq_views(right@),
                target == seq_views(out@) + spec_interleave(
                    opsv.skip(oi as int),
                    lsv.skip(li as int),
                    rsv.skip(ri as int),
                    position_view(left_position),
                    position_view(right_position),
                ),
            decreases right@.len() - ri,
        {
            let ghost before = seq_views(out@);
            let ghost rem = spec_interleave(
                opsv.skip(oi as int),
                lsv.skip(li as int),
                rsv.skip(ri as int),
                position_view(left_position),
                position_view(right_position),
            );
            out.push(AlignmentOperation::InsertRight { right: right[ri].clone() });
            proof {
                lemma_flush_unfold_right(
                    rsv.skip(ri as int),
                    lsv.skip(li as int),
                );
                assert(rsv.skip(ri as int).drop_first() =~= rsv.skip(ri + 1));
                assert(rsv.skip(ri as int)[0] == rsv[ri as int]);
                assert(seq_views(out@) =~= before.push(
                    AlignmentOperation::InsertRight { right: rsv[ri as int] },
                ));
                assert(seq_views(out@) + spec_interleave(
                    opsv.skip(oi as int),
                    lsv.skip(li as int),
                    rsv.skip(ri + 1),
                    position_view(left_position),
                    position_view(right_position),
                ) =~= before + rem);
            }
            ri = ri + 1;
        }
        while li < left.len()
            invariant
                oi == old_ops@.len(),
                li <= left@.len(),
                ri == right@.len(),
                opsv == seq_views(old_ops@),
                lsv == seq_views(left@),
                rsv == seq_views(right@),
                target == seq_views(out@) + spec_interleave(
                    opsv.skip(oi as int),
                    lsv.skip(li as int),
                    rsv.skip(ri as int),
                    position_view(left_position),
                    position_view(right_position),
                ),
            decreases left@.len() - li,
        {
            let ghost before = seq_views(out@);
            let ghost rem = spec_interleave(
                opsv.skip(oi as int),
                lsv.skip(li as int),
                rsv.skip(ri as int),
                position_view(left_position),
                position_view(right_position),
            );
            out.push(AlignmentOperation::InsertLeft { left: left[li].clone() });
            proof {
                lemma_flush_unfold_left(lsv.skip(li as int), rsv.skip(ri as int));
                assert(lsv.skip(li as int).drop_first() =~= lsv.skip(li + 1));
                assert(lsv.skip(li as int)[0] == lsv[li as int]);
                assert(seq_views(out@) =~= before.push(
                    AlignmentOperation::InsertLeft { left: lsv[li as int] },
                ));
                assert(seq_views(out@) + spec_interleave(
                    opsv.skip(oi as int),
                    lsv.skip(li + 1),
                    rsv.skip(ri as int),
                    position_view(left_position),
                    position_view(right_position),
                ) =~= before + rem);
            }
            li = li + 1;
        }
        proof {
            assert(lsv.skip(li as int).len() == 0);
            assert(rsv.skip(ri as int).len() == 0);
            assert(spec_interleave(
                opsv.skip(oi as int),
                lsv.skip(li as int),
                rsv.skip(ri as int),
                position_view(left_position),
                position_view(right_position),
            ) =~= Seq::<AlignmentOperation<TokenView>>::empty());
            assert(seq_views(out@) =~= target);
            lemma_interleave_order(opsv, lsv, rsv, None, None);
        }
        Alignment { operations: out }
    }
}

/// Unfolding the tail flush when the script is exhausted and right-side
/// tokens remain: the first remaining right token is emitted next.
proof fn lemma_flush_unfold_right(rs: Seq<TokenView>, ls: Seq<TokenView>)
    requires
        rs.len() > 0,
    ensures
        forall|ops: Seq<AlignmentOperation<TokenView>>, lp: Option<int>, rp: Option<int>|
            ops.len() == 0 ==> #[trigger] spec_interleave(ops, ls, rs, lp, rp) == seq![
                AlignmentOperation::InsertRight { right: rs[0] },
            ] + spec_interleave(ops, ls, rs.drop_first(), lp, rp),
{
    assert forall|ops: Seq<AlignmentOperation<TokenView>>, lp: Option<int>, rp: Option<int>|
        ops.len() == 0 implies #[trigger] spec_interleave(ops, ls, rs, lp, rp) == seq![
        AlignmentOperation::InsertRight { right: rs[0] },
    ] + spec_interleave(ops, ls, rs.drop_first(), lp, rp) by {
        let f = |t: TokenView| AlignmentOperation::InsertRight { right: t };
        let g = |t: TokenView| AlignmentOperation::InsertLeft { left: t };
        assert(rs.map_values(f) =~= seq![f(rs[0])] + rs.drop_first().map_values(f));
        assert(spec_interleave(ops, ls, rs, lp, rp) =~= seq![f(rs[0])] + (
        rs.drop_first().map_values(f) + ls.map_values(g)));
    }
}

/// Unfolding the tail flush when only left-side tokens remain.
proof fn lemma_flush_unfold_left(ls: Seq<TokenView>, rs: Seq<TokenView>)
    requires
        ls.len() > 0,
        rs.len() == 0,
    ensures
        forall|ops: Seq<AlignmentOperation<TokenView>>, lp: Option<int>, rp: Option<int>|
            ops.len() == 0 ==> #[trigger] spec_interleave(ops, ls, rs, lp, rp) == seq![
                AlignmentOperation::InsertLeft { left: ls[0] },
            ] + spec_interleave(ops, ls.drop_first(), rs, lp, rp),
{
    assert forall|ops: Seq<AlignmentOperation<TokenView>>, lp: Option<int>, rp: Option<int>|
        ops.len() == 0 implies #[trigger] spec_interleave(ops, ls, rs, lp, rp) == seq![
        AlignmentOperation::InsertLeft { left: ls[0] },
    ] + spec_interleave(ops, ls.drop_first(), rs, lp, rp) by {
        let f = |t: TokenView| AlignmentOperation::InsertRight { right: t };
        let g = |t: TokenView| AlignmentOperation::InsertLeft { left: t };
        assert(rs.map_values(f) =~= Seq::<AlignmentOperation<TokenView>>::empty());
        assert(ls.map_values(g) =~= seq![g(ls[0])] + ls.drop_first().map_values(g));
        assert(spec_interleave(ops, ls, rs, lp, rp) =~= seq![g(ls[0])] + (
        rs.map_values(f) + ls.drop_first().map_values(g)));
    }
}

} // verus!
