//! The global sequence aligner.
//!
//! A three-layer affine-gap dynamic program: each cell of the (virtual)
//! table keeps, for each possible last operation (mutation, insert-left,
//! insert-right), the cheapest cost of reaching it and the path of
//! decisions taken, stored as a persistent linked list whose tails are
//! shared between cells.  Only two rows are alive at a time.

use std::rc::Rc;

use vstd::prelude::*;

use crate::cost::{
    opt_cost_add, opt_cost_add_exec, opt_le, opt_lt, opt_lt_exec, opt_min3, spec_cost_add,
};
use crate::seq_views;
use crate::tokenizer::{Token, TokenView};
use crate::types::AlignmentScoring;

verus! {

/// One step of an edit script: align two tokens against each other, or
/// keep a token that only one side has.
#[derive(Debug)]
pub enum AlignmentOperation<T> {
    Mutation { left: T, right: T },
    InsertLeft { left: T },
    InsertRight { right: T },
}

impl<T: View> View for AlignmentOperation<T> {
    type V = AlignmentOperation<T::V>;

    open spec fn view(&self) -> AlignmentOperation<T::V> {
        match self {
            AlignmentOperation::Mutation { left, right } => AlignmentOperation::Mutation {
                left: left@,
                right: right@,
            },
            AlignmentOperation::InsertLeft { left } => AlignmentOperation::InsertLeft {
                left: left@,
            },
            AlignmentOperation::InsertRight { right } => AlignmentOperation::InsertRight {
                right: right@,
            },
        }
    }
}

impl Clone for AlignmentOperation<Token> {
    fn clone(&self) -> (r: Self)
        ensures
            r == *self,
    {
        match self {
            AlignmentOperation::Mutation { left, right } => AlignmentOperation::Mutation {
                left: left.clone(),
                right: right.clone(),
            },
            AlignmentOperation::InsertLeft { left } => AlignmentOperation::InsertLeft {
                left: left.clone(),
            },
            AlignmentOperation::InsertRight { right } => AlignmentOperation::InsertRight {
                right: right.clone(),
            },
        }
    }
}

impl<T> AlignmentOperation<T> {
    /// The left payload, if the operation carries one.
    pub open spec fn spec_left(self) -> Option<T> {
        match self {
            AlignmentOperation::Mutation { left, right: _ } => Some(left),
            AlignmentOperation::InsertLeft { left } => Some(left),
            AlignmentOperation::InsertRight { right: _ } => None,
        }
    }

    /// The right payload, if the operation carries one.
    pub open spec fn spec_right(self) -> Option<T> {
        match self {
            AlignmentOperation::Mutation { left: _, right } => Some(right),
            AlignmentOperation::InsertLeft { left: _ } => None,
            AlignmentOperation::InsertRight { right } => Some(right),
        }
    }

    /// The token this operation consumes from the left sequence.
    pub fn left(&self) -> (r: Option<&T>)
        ensures
            match r {
                Some(l) => self.spec_left() == Some(*l),
                None => self.spec_left() is None,
            },
    {
        match self {
            AlignmentOperation::Mutation { left, right: _ } => Some(left),
            AlignmentOperation::InsertLeft { left } => Some(left),
            AlignmentOperation::InsertRight { right: _ } => None,
        }
    }

    /// The token this operation consumes from the right sequence.
    pub fn right(&self) -> (r: Option<&T>)
        ensures
            match r {
                Some(x) => self.spec_right() == Some(*x),
                None => self.spec_right() is None,
            },
    {
        match self {
            AlignmentOperation::Mutation { left: _, right } => Some(right),
            AlignmentOperation::InsertLeft { left: _ } => None,
            AlignmentOperation::InsertRight { right } => Some(right),
        }
    }
}

/// A persistent singly-linked list of operations.  Extending it allocates
/// one node; many cells of the dynamic program share the same tail.
#[derive(Debug)]
pub enum PathList<T> {
    End,
    Node { payload: T, previous: Rc<PathList<T>> },
}

/// The operations of a path, in script order (the newest node last).
pub open spec fn path_seq<T: View>(p: PathList<T>) -> Seq<T::V>
    decreases p,
{
    match p {
        PathList::End => Seq::empty(),
        PathList::Node { payload, previous } => path_seq(*previous).push(payload@),
    }
}

impl PathList<AlignmentOperation<Token>> {
    /// Flatten the chain into a vector of operations in script order.
    pub fn extract_path(&self) -> (out: Vec<AlignmentOperation<Token>>)
        ensures
            seq_views(out@) == path_seq(*self),
    {
        let mut rev: Vec<AlignmentOperation<Token>> = Vec::new();
        let mut cur: &PathList<AlignmentOperation<Token>> = self;
        proof {
            assert(path_seq(*self) =~= path_seq(*cur) + seq_views(rev@).reverse());
        }
        loop
            invariant
                path_seq(*self) == path_seq(*cur) + seq_views(rev@).reverse(),
            ensures
                path_seq(*self) == seq_views(rev@).reverse(),
            decreases path_seq(*cur).len(),
        {
            match cur {
                PathList::End => {
                    proof {
                        assert(path_seq(*cur) =~= Seq::<AlignmentOperation<TokenView>>::empty());
                        assert(path_seq(*self) =~= seq_views(rev@).reverse());
                    }
                    break ;
                },
                PathList::Node { payload, previous } => {
                    let ghost old_rev = rev@;
                    proof {
                        assert(path_seq(*cur) == path_seq(**previous).push(payload@));
                    }
                    rev.push(payload.clone());
                    proof {
                        assert(seq_views(rev@) =~= seq_views(old_rev).push(payload@));
                        assert(seq_views(rev@).reverse() =~= seq![payload@] + seq_views(
                            old_rev,
                        ).reverse());
                        assert(path_seq(**previous) + seq_views(rev@).reverse() =~= path_seq(
                            **previous,
                        ).push(payload@) + seq_views(old_rev).reverse());
                    }
                    cur = &**previous;
                },
            }
        }
        let mut out: Vec<AlignmentOperation<Token>> = Vec::new();
        let mut j = rev.len();
        while j > 0
            invariant
                j <= rev@.len(),
                seq_views(out@) == seq_views(rev@).subrange(j as int, rev@.len() as int)
                    .reverse(),
            decreases j,
        {
            j = j - 1;
            let ghost old_out = out@;
            out.push(rev[j].clone());
            proof {
                assert(seq_views(out@) =~= seq_views(old_out).push(rev@[j as int]@));
                assert(seq_views(out@) =~= seq_views(rev@).subrange(
                    j as int,
                    rev@.len() as int,
                ).reverse());
            }
        }
        proof {
            assert(seq_views(rev@).subrange(0, rev@.len() as int) =~= seq_views(rev@));
            assert(seq_views(out@) =~= path_seq(*self));
        }
        out
    }
}

/// Which layer of a cell an operation belongs to: the kind of the last
/// operation on the path.
pub enum LayerKind {
    Mutation,
    InsertLeft,
    InsertRight,
}

/// The layer an operation ends in.
pub open spec fn op_layer(op: AlignmentOperation<TokenView>) -> LayerKind {
    match op {
        AlignmentOperation::Mutation { .. } => LayerKind::Mutation,
        AlignmentOperation::InsertLeft { .. } => LayerKind::InsertLeft,
        AlignmentOperation::InsertRight { .. } => LayerKind::InsertRight,
    }
}

/// The tokens a script consumes from the left sequence, in order.
pub open spec fn left_proj(ops: Seq<AlignmentOperation<TokenView>>) -> Seq<TokenView>
    decreases ops.len(),
{
    if ops.len() == 0 {
        Seq::empty()
    } else {
        match ops[0] {
            AlignmentOperation::Mutation { left, right: _ } => seq![left] + left_proj(
                ops.drop_first(),
            ),
            AlignmentOperation::InsertLeft { left } => seq![left] + left_proj(ops.drop_first()),
            AlignmentOperation::InsertRight { right: _ } => left_proj(ops.drop_first()),
        }
    }
}

/// The tokens a script consumes from the right sequence, in order.
pub open spec fn right_proj(ops: Seq<AlignmentOperation<TokenView>>) -> Seq<TokenView>
    decreases ops.len(),
{
    if ops.len() == 0 {
        Seq::empty()
    } else {
        match ops[0] {
            AlignmentOperation::Mutation { left: _, right } => seq![right] + right_proj(
                ops.drop_first(),
            ),
            AlignmentOperation::InsertLeft { left: _ } => right_proj(ops.drop_first()),
            AlignmentOperation::InsertRight { right } => seq![right] + right_proj(
                ops.drop_first(),
            ),
        }
    }
}

/// A script is an alignment of `lts` against `rts` when its projections
/// give back both token sequences exactly.
pub open spec fn valid_script(
    ops: Seq<AlignmentOperation<TokenView>>,
    lts: Seq<TokenView>,
    rts: Seq<TokenView>,
) -> bool {
    left_proj(ops) == lts && right_proj(ops) == rts
}

/// Appending an operation appends its left payload, if any, to the left
/// projection, and likewise on the right.
pub proof fn lemma_proj_push(ops: Seq<AlignmentOperation<TokenView>>, op: AlignmentOperation<
    TokenView,
>)
    ensures
        left_proj(ops.push(op)) == match op.spec_left() {
            Some(t) => left_proj(ops).push(t),
            None => left_proj(ops),
        },
        right_proj(ops.push(op)) == match op.spec_right() {
            Some(t) => right_proj(ops).push(t),
            None => right_proj(ops),
        },
    decreases ops.len(),
{
    assert(ops.push(op)[0] == if ops.len() == 0 {
        op
    } else {
        ops[0]
    });
    if ops.len() == 0 {
        assert(ops.push(op).drop_first() =~= ops);
        assert(left_proj(ops) =~= Seq::<TokenView>::empty());
        assert(right_proj(ops) =~= Seq::<TokenView>::empty());
        match op {
            AlignmentOperation::Mutation { left, right } => {
                assert(left_proj(ops.push(op)) =~= left_proj(ops).push(left));
                assert(right_proj(ops.push(op)) =~= right_proj(ops).push(right));
            },
            AlignmentOperation::InsertLeft { left } => {
                assert(left_proj(ops.push(op)) =~= left_proj(ops).push(left));
                assert(right_proj(ops.push(op)) =~= right_proj(ops));
            },
            AlignmentOperation::InsertRight { right } => {
                assert(left_proj(ops.push(op)) =~= left_proj(ops));
                assert(right_proj(ops.push(op)) =~= right_proj(ops).push(right));
            },
        }
    } else {
        assert(ops.push(op).drop_first() =~= ops.drop_first().push(op));
        lemma_proj_push(ops.drop_first(), op);
        match op {
            AlignmentOperation::Mutation { left, right } => {
                assert(left_proj(ops.push(op)) =~= left_proj(ops).push(left));
                assert(right_proj(ops.push(op)) =~= right_proj(ops).push(right));
            },
            AlignmentOperation::InsertLeft { left } => {
                assert(left_proj(ops.push(op)) =~= left_proj(ops).push(left));
                assert(right_proj(ops.push(op)) =~= right_proj(ops));
            },
            AlignmentOperation::InsertRight { right } => {
                assert(left_proj(ops.push(op)) =~= left_proj(ops));
                assert(right_proj(ops.push(op)) =~= right_proj(ops).push(right));
            },
        }
    }
}

/// The cost an operation adds to a script, given the kind of the
/// operation standing just before it.
pub open spec fn spec_op_cost<S: AlignmentScoring>(
    s: S,
    op: AlignmentOperation<TokenView>,
    prev: LayerKind,
) -> u64 {
    match op {
        AlignmentOperation::Mutation { left, right } => s.spec_mutation_score(left, right),
        AlignmentOperation::InsertLeft { left } => s.spec_insert_score(
            left,
            prev is InsertLeft,
        ),
        AlignmentOperation::InsertRight { right } => s.spec_insert_score(
            right,
            prev is InsertRight,
        ),
    }
}

/// Total cost of a script whose predecessor operation has kind `prev`.
pub open spec fn script_cost_from<S: AlignmentScoring>(
    s: S,
    ops: Seq<AlignmentOperation<TokenView>>,
    prev: LayerKind,
) -> u64
    decreases ops.len(),
{
    if ops.len() == 0 {
        0
    } else {
        spec_cost_add(
            spec_op_cost(s, ops[0], prev),
            script_cost_from(s, ops.drop_first(), op_layer(ops[0])),
        )
    }
}

/// Total cost of a script under policy `s`.  The first operation is
/// charged as if a mutation preceded it: no insertion run is under way.
pub open spec fn script_cost<S: AlignmentScoring>(
    s: S,
    ops: Seq<AlignmentOperation<TokenView>>,
) -> u64 {
    script_cost_from(s, ops, LayerKind::Mutation)
}

/// The kind of the last operation, or `prev` for an empty script.
pub open spec fn last_layer(ops: Seq<AlignmentOperation<TokenView>>, prev: LayerKind) -> LayerKind {
    if ops.len() == 0 {
        prev
    } else {
        op_layer(ops.last())
    }
}

/// Appending an operation adds its cost, charged against the kind of the
/// previously last operation.
pub proof fn lemma_script_cost_push<S: AlignmentScoring>(
    s: S,
    ops: Seq<AlignmentOperation<TokenView>>,
    op: AlignmentOperation<TokenView>,
    prev: LayerKind,
)
    ensures
        script_cost_from(s, ops.push(op), prev) == spec_cost_add(
            script_cost_from(s, ops, prev),
            spec_op_cost(s, op, last_layer(ops, prev)),
        ),
    decreases ops.len(),
{
    if ops.len() == 0 {
        assert(ops.push(op).drop_first() =~= ops);
        assert(ops.push(op)[0] == op);
        assert(script_cost_from(s, ops.push(op).drop_first(), op_layer(op)) == 0);
        assert(script_cost_from(s, ops.push(op), prev) == spec_cost_add(
            spec_op_cost(s, op, prev),
            0,
        ));
        assert(script_cost_from(s, ops, prev) == 0);
        assert(last_layer(ops, prev) == prev);
        assert(spec_cost_add(spec_op_cost(s, op, prev), 0) == spec_cost_add(
            0,
            spec_op_cost(s, op, prev),
        ));
    } else {
        assert(ops.push(op)[0] == ops[0]);
        assert(ops.push(op).drop_first() =~= ops.drop_first().push(op));
        lemma_script_cost_push(s, ops.drop_first(), op, op_layer(ops[0]));
        if ops.len() == 1 {
            assert(ops.drop_first() =~= Seq::<AlignmentOperation<TokenView>>::empty());
            assert(last_layer(ops, prev) == op_layer(ops[0]));
        } else {
            assert(ops.drop_first().last() == ops.last());
        }
        let c0 = spec_op_cost(s, ops[0], prev);
        let rest = script_cost_from(s, ops.drop_first(), op_layer(ops[0]));
        let cn = spec_op_cost(s, op, last_layer(ops, prev));
        assert(script_cost_from(s, ops.push(op), prev) == spec_cost_add(
            c0,
            spec_cost_add(rest, cn),
        ));
        assert(spec_cost_add(c0, spec_cost_add(rest, cn)) == spec_cost_add(
            spec_cost_add(c0, rest),
            cn,
        ));
    }
}

/// Relies on `Rc::clone`: the clone is a handle to the same node.
#[verifier::external_body]
fn rc_clone<T>(rc: &Rc<T>) -> (r: Rc<T>)
    ensures
        r == *rc,
{
    rc.clone()
}

/// One layer of a cell of the dynamic program: the cost of the best path
/// whose last operation has this layer's kind, and that path.  A `None`
/// score means the layer is unreachable.
pub struct AlignmentData {
    pub score: Option<u64>,
    pub path: Rc<PathList<AlignmentOperation<Token>>>,
}

/// The operations of a layer's path, in script order.
pub open spec fn data_path(d: AlignmentData) -> Seq<AlignmentOperation<TokenView>> {
    path_seq(*d.path)
}

impl AlignmentData {
    /// The layer of the origin cell: an empty path of cost zero.
    pub fn new() -> (d: AlignmentData)
        ensures
            d.score == Some(0u64),
            data_path(d) == Seq::<AlignmentOperation<TokenView>>::empty(),
    {
        let d = AlignmentData { score: Some(0), path: Rc::new(PathList::End) };
        proof {
            assert(data_path(d) =~= Seq::<AlignmentOperation<TokenView>>::empty());
        }
        d
    }

    /// An unreachable layer.
    pub fn unreachable() -> (d: AlignmentData)
        ensures
            d.score is None,
            data_path(d) == Seq::<AlignmentOperation<TokenView>>::empty(),
    {
        let d = AlignmentData { score: None, path: Rc::new(PathList::End) };
        proof {
            assert(data_path(d) =~= Seq::<AlignmentOperation<TokenView>>::empty());
        }
        d
    }
}

/// One cell of the dynamic program: its three layers.
pub struct AlignmentState {
    pub last_was_mutation: AlignmentData,
    pub last_was_insert_left: AlignmentData,
    pub last_was_insert_right: AlignmentData,
}

/// The score and base path that `pick_best` chooses among the three
/// candidate transitions: the cheaper insert is preferred over the
/// mutation only when strictly cheaper, and insert-left is considered
/// before insert-right only when strictly cheaper than it.
pub open spec fn spec_pick(
    st: AlignmentState,
    mutation_score: Option<u64>,
    insert_left_score: Option<u64>,
    insert_right_score: Option<u64>,
) -> (Option<u64>, Seq<AlignmentOperation<TokenView>>) {
    if opt_lt(insert_left_score, insert_right_score) {
        if opt_lt(insert_left_score, mutation_score) {
            (insert_left_score, data_path(st.last_was_insert_left))
        } else {
            (mutation_score, data_path(st.last_was_mutation))
        }
    } else {
        if opt_lt(insert_right_score, mutation_score) {
            (insert_right_score, data_path(st.last_was_insert_right))
        } else {
            (mutation_score, data_path(st.last_was_mutation))
        }
    }
}

/// The layer that `extract_best` returns: the cheapest of the three, with
/// mutation preferred on ties against insert-left, and insert-right
/// preferred on the remaining ties.
pub open spec fn spec_extract_best(st: AlignmentState) -> (Option<
    u64,
>, Seq<AlignmentOperation<TokenView>>) {
    if opt_lt(st.last_was_mutation.score, st.last_was_insert_left.score) {
        if opt_lt(st.last_was_mutation.score, st.last_was_insert_right.score) {
            (st.last_was_mutation.score, data_path(st.last_was_mutation))
        } else {
            (st.last_was_insert_right.score, data_path(st.last_was_insert_right))
        }
    } else {
        if opt_lt(st.last_was_insert_left.score, st.last_was_insert_right.score) {
            (st.last_was_insert_left.score, data_path(st.last_was_insert_left))
        } else {
            (st.last_was_insert_right.score, data_path(st.last_was_insert_right))
        }
    }
}

/// The new layer value reached by inserting the left token `t`.
pub open spec fn spec_insert_left_step<S: AlignmentScoring>(
    st: AlignmentState,
    s: S,
    t: TokenView,
) -> (Option<u64>, Seq<AlignmentOperation<TokenView>>) {
    let m = opt_cost_add(st.last_was_mutation.score, s.spec_insert_score(t, false));
    let il = opt_cost_add(st.last_was_insert_left.score, s.spec_insert_score(t, true));
    let ir = opt_cost_add(st.last_was_insert_right.score, s.spec_insert_score(t, false));
    let pick = spec_pick(st, m, il, ir);
    (pick.0, pick.1.push(AlignmentOperation::InsertLeft { left: t }))
}

/// The new layer value reached by inserting the right token `t`.
pub open spec fn spec_insert_right_step<S: AlignmentScoring>(
    st: AlignmentState,
    s: S,
    t: TokenView,
) -> (Option<u64>, Seq<AlignmentOperation<TokenView>>) {
    let m = opt_cost_add(st.last_was_mutation.score, s.spec_insert_score(t, false));
    let il = opt_cost_add(st.last_was_insert_left.score, s.spec_insert_score(t, false));
    let ir = opt_cost_add(st.last_was_insert_right.score, s.spec_insert_score(t, true));
    let pick = spec_pick(st, m, il, ir);
    (pick.0, pick.1.push(AlignmentOperation::InsertRight { right: t }))
}

/// The new layer value reached by aligning `lt` against `rt`.
pub open spec fn spec_mutation_step<S: AlignmentScoring>(
    st: AlignmentState,
    s: S,
    lt: TokenView,
    rt: TokenView,
) -> (Option<u64>, Seq<AlignmentOperation<TokenView>>) {
    let c = s.spec_mutation_score(lt, rt);
    let m = opt_cost_add(st.last_was_mutation.score, c);
    let il = opt_cost_add(st.last_was_insert_left.score, c);
    let ir = opt_cost_add(st.last_was_insert_right.score, c);
    let pick = spec_pick(st, m, il, ir);
    (pick.0, pick.1.push(AlignmentOperation::Mutation { left: lt, right: rt }))
}

impl AlignmentState {
    /// Choose the cheapest of the three candidate transitions and extend
    /// its path by `payload`.
    pub fn pick_best(
        &self,
        payload: AlignmentOperation<Token>,
        mutation_score: Option<u64>,
        insert_left_score: Option<u64>,
        insert_right_score: Option<u64>,
    ) -> (d: AlignmentData)
        ensures
            d.score == spec_pick(*self, mutation_score, insert_left_score, insert_right_score).0,
            data_path(d) == spec_pick(
                *self,
                mutation_score,
                insert_left_score,
                insert_right_score,
            ).1.push(payload@),
    {
        let (score, previous) = if opt_lt_exec(&insert_left_score, &insert_right_score) {
            if opt_lt_exec(&insert_left_score, &mutation_score) {
                (insert_left_score, rc_clone(&self.last_was_insert_left.path))
            } else {
                (mutation_score, rc_clone(&self.last_was_mutation.path))
            }
        } else {
            if opt_lt_exec(&insert_right_score, &mutation_score) {
                (insert_right_score, rc_clone(&self.last_was_insert_right.path))
            } else {
                (mutation_score, rc_clone(&self.last_was_mutation.path))
            }
        };
        AlignmentData { score, path: Rc::new(PathList::Node { payload, previous }) }
    }

    /// The cheapest of the three layers of a finished cell.
    pub fn extract_best(self) -> (d: AlignmentData)
        ensures
            d.score == spec_extract_best(self).0,
            data_path(d) == spec_extract_best(self).1,
    {
        if opt_lt_exec(&self.last_was_mutation.score, &self.last_was_insert_left.score) {
            if opt_lt_exec(&self.last_was_mutation.score, &self.last_was_insert_right.score) {
                self.last_was_mutation
            } else {
                self.last_was_insert_right
            }
        } else {
            if opt_lt_exec(&self.last_was_insert_left.score, &self.last_was_insert_right.score) {
                self.last_was_insert_left
            } else {
                self.last_was_insert_right
            }
        }
    }

    /// The insert-left layer of the cell to the right of `self`.
    pub fn insert_left_score<S: AlignmentScoring>(&self, scoring: &S, l: &Token) -> (d:
        AlignmentData)
        ensures
            d.score == spec_insert_left_step(*self, *scoring, l@).0,
            data_path(d) == spec_insert_left_step(*self, *scoring, l@).1,
    {
        let mutation_score = opt_cost_add_exec(
            &self.last_was_mutation.score,
            scoring.insert_score(l, false),
        );
        let insert_left_score = opt_cost_add_exec(
            &self.last_was_insert_left.score,
            scoring.insert_score(l, true),
        );
        let insert_right_score = opt_cost_add_exec(
            &self.last_was_insert_right.score,
            scoring.insert_score(l, false),
        );
        self.pick_best(
            AlignmentOperation::InsertLeft { left: l.clone() },
            mutation_score,
            insert_left_score,
            insert_right_score,
        )
    }

    /// The insert-right layer of the cell below `self`.
    pub fn insert_right_score<S: AlignmentScoring>(&self, scoring: &S, r: &Token) -> (d:
        AlignmentData)
        ensures
            d.score == spec_insert_right_step(*self, *scoring, r@).0,
            data_path(d) == spec_insert_right_step(*self, *scoring, r@).1,
    {
        let mutation_score = opt_cost_add_exec(
            &self.last_was_mutation.score,
            scoring.insert_score(r, false),
        );
        let insert_left_score = opt_cost_add_exec(
            &self.last_was_insert_left.score,
            scoring.insert_score(r, false),
        );
        let insert_right_score = opt_cost_add_exec(
            &self.last_was_insert_right.score,
            scoring.insert_score(r, true),
        );
        self.pick_best(
            AlignmentOperation::InsertRight { right: r.clone() },
            mutation_score,
            insert_left_score,
            insert_right_score,
        )
    }

    /// The mutation layer of the cell diagonally below-right of `self`.
    pub fn mutation_score<S: AlignmentScoring>(&self, scoring: &S, l: &Token, r: &Token) -> (d:
        AlignmentData)
        ensures
            d.score == spec_mutation_step(*self, *scoring, l@, r@).0,
            data_path(d) == spec_mutation_step(*self, *scoring, l@, r@).1,
    {
        let s = scoring.mutation_score(l, r);
        let mutation_score = opt_cost_add_exec(&self.last_was_mutation.score, s);
        let insert_left_score = opt_cost_add_exec(&self.last_was_insert_left.score, s);
        let insert_right_score = opt_cost_add_exec(&self.last_was_insert_right.score, s);
        self.pick_best(
            AlignmentOperation::Mutation { left: l.clone(), right: r.clone() },
            mutation_score,
            insert_left_score,
            insert_right_score,
        )
    }
}

/// The reference dynamic program, layer by layer: the cheapest cost of
/// aligning the first `l` left tokens against the first `r` right tokens
/// with a path whose last operation has kind `k`; `None` when no such
/// path exists.
pub open spec fn dp<S: AlignmentScoring>(
    s: S,
    lts: Seq<TokenView>,
    rts: Seq<TokenView>,
    l: int,
    r: int,
    k: LayerKind,
) -> Option<u64>
    decreases l + r,
{
    if l < 0 || r < 0 {
        None
    } else if l == 0 && r == 0 {
        if k is Mutation {
            Some(0u64)
        } else {
            None
        }
    } else {
        match k {
            LayerKind::Mutation => {
                if l < 1 || r < 1 {
                    None
                } else {
                    let c = s.spec_mutation_score(lts[l - 1], rts[r - 1]);
                    opt_min3(
                        opt_cost_add(dp(s, lts, rts, l - 1, r - 1, LayerKind::Mutation), c),
                        opt_cost_add(dp(s, lts, rts, l - 1, r - 1, LayerKind::InsertLeft), c),
                        opt_cost_add(dp(s, lts, rts, l - 1, r - 1, LayerKind::InsertRight), c),
                    )
                }
            },
            LayerKind::InsertLeft => {
                if l < 1 {
                    None
                } else {
                    let t = lts[l - 1];
                    opt_min3(
                        opt_cost_add(
                            dp(s, lts, rts, l - 1, r, LayerKind::Mutation),
                            s.spec_insert_score(t, false),
                        ),
                        opt_cost_add(
                            dp(s, lts, rts, l - 1, r, LayerKind::InsertLeft),
                            s.spec_insert_score(t, true),
                        ),
                        opt_cost_add(
                            dp(s, lts, rts, l - 1, r, LayerKind::InsertRight),
                            s.spec_insert_score(t, false),
                        ),
                    )
                }
            },
            LayerKind::InsertRight => {
                if r < 1 {
                    None
                } else {
                    let t = rts[r - 1];
                    opt_min3(
                        opt_cost_add(
                            dp(s, lts, rts, l, r - 1, LayerKind::Mutation),
                            s.spec_insert_score(t, false),
                        ),
                        opt_cost_add(
                            dp(s, lts, rts, l, r - 1, LayerKind::InsertLeft),
                            s.spec_insert_score(t, false),
                        ),
                        opt_cost_add(
                            dp(s, lts, rts, l, r - 1, LayerKind::InsertRight),
                            s.spec_insert_score(t, true),
                        ),
                    )
                }
            },
        }
    }
}

/// The cost of the cheapest alignment of `lts` against `rts`: the best
/// layer of the final cell of the reference dynamic program.
pub open spec fn alignment_cost<S: AlignmentScoring>(
    s: S,
    lts: Seq<TokenView>,
    rts: Seq<TokenView>,
) -> Option<u64> {
    opt_min3(
        dp(s, lts, rts, lts.len() as int, rts.len() as int, LayerKind::Mutation),
        dp(s, lts, rts, lts.len() as int, rts.len() as int, LayerKind::InsertLeft),
        dp(s, lts, rts, lts.len() as int, rts.len() as int, LayerKind::InsertRight),
    )
}

/// What a layer's path must satisfy: it aligns exactly the first `l` and
/// `r` tokens, costs `c`, and ends in an operation of kind `k` (an empty
/// path counts as ending in a mutation).
pub open spec fn path_ok<S: AlignmentScoring>(
    s: S,
    ops: Seq<AlignmentOperation<TokenView>>,
    lts: Seq<TokenView>,
    rts: Seq<TokenView>,
    l: int,
    r: int,
    k: LayerKind,
    c: u64,
) -> bool {
    &&& left_proj(ops) == lts.subrange(0, l)
    &&& right_proj(ops) == rts.subrange(0, r)
    &&& script_cost(s, ops) == c
    &&& last_layer(ops, LayerKind::Mutation) == k
    &&& (ops.len() == 0 ==> k is Mutation)
}

/// A layer is correct when its score is the reference value and, if
/// reachable, its path witnesses that score.
pub open spec fn cell_ok<S: AlignmentScoring>(
    s: S,
    d: AlignmentData,
    lts: Seq<TokenView>,
    rts: Seq<TokenView>,
    l: int,
    r: int,
    k: LayerKind,
) -> bool {
    &&& d.score == dp(s, lts, rts, l, r, k)
    &&& match d.score {
        Some(c) => path_ok(s, data_path(d), lts, rts, l, r, k, c),
        None => true,
    }
}

/// All three layers of a cell are correct.
pub open spec fn state_ok<S: AlignmentScoring>(
    s: S,
    st: AlignmentState,
    lts: Seq<TokenView>,
    rts: Seq<TokenView>,
    l: int,
    r: int,
) -> bool {
    &&& cell_ok(s, st.last_was_mutation, lts, rts, l, r, LayerKind::Mutation)
    &&& cell_ok(s, st.last_was_insert_left, lts, rts, l, r, LayerKind::InsertLeft)
    &&& cell_ok(s, st.last_was_insert_right, lts, rts, l, r, LayerKind::InsertRight)
}

/// `spec_pick` returns the minimum of its three candidates.
proof fn lemma_pick_value(
    st: AlignmentState,
    m: Option<u64>,
    il: Option<u64>,
    ir: Option<u64>,
)
    ensures
        spec_pick(st, m, il, ir).0 == opt_min3(m, il, ir),
{
}

/// `spec_extract_best` returns the minimum of the three layer scores.
proof fn lemma_extract_value(st: AlignmentState)
    ensures
        spec_extract_best(st).0 == opt_min3(
            st.last_was_mutation.score,
            st.last_was_insert_left.score,
            st.last_was_insert_right.score,
        ),
{
}

/// Extending a correct layer's path by one fitting operation yields a
/// path witnessing the candidate cost at the advanced coordinates.
proof fn lemma_extend<S: AlignmentScoring>(
    s: S,
    d: AlignmentData,
    lts: Seq<TokenView>,
    rts: Seq<TokenView>,
    l0: int,
    r0: int,
    k0: LayerKind,
    op: AlignmentOperation<TokenView>,
    cand: Option<u64>,
    l1: int,
    r1: int,
)
    requires
        0 <= l0,
        0 <= r0,
        cell_ok(s, d, lts, rts, l0, r0, k0),
        cand == opt_cost_add(d.score, spec_op_cost(s, op, k0)),
        match op.spec_left() {
            Some(t) => l1 == l0 + 1 && l1 <= lts.len() && t == lts[l1 - 1],
            None => l1 == l0,
        },
        match op.spec_right() {
            Some(t) => r1 == r0 + 1 && r1 <= rts.len() && t == rts[r1 - 1],
            None => r1 == r0,
        },
    ensures
        match cand {
            Some(c) => path_ok(s, data_path(d).push(op), lts, rts, l1, r1, op_layer(op), c),
            None => true,
        },
{
    if cand is Some {
        let ops = data_path(d);
        lemma_proj_push(ops, op);
        lemma_script_cost_push(s, ops, op, LayerKind::Mutation);
        assert(last_layer(ops, LayerKind::Mutation) == k0);
        match op.spec_left() {
            Some(t) => {
                assert(lts.subrange(0, l0).push(lts[l1 - 1]) =~= lts.subrange(0, l1));
            },
            None => {},
        }
        match op.spec_right() {
            Some(t) => {
                assert(rts.subrange(0, r0).push(rts[r1 - 1]) =~= rts.subrange(0, r1));
            },
            None => {},
        }
        assert(ops.push(op).last() == op);
    }
}

/// The step function for the insert-left layer computes the reference
/// value at `(l, r)` and a witnessing path.
proof fn lemma_insert_left_step_ok<S: AlignmentScoring>(
    s: S,
    st: AlignmentState,
    lts: Seq<TokenView>,
    rts: Seq<TokenView>,
    l: int,
    r: int,
)
    requires
        1 <= l <= lts.len(),
        0 <= r <= rts.len(),
        state_ok(s, st, lts, rts, l - 1, r),
    ensures
        ({
            let step = spec_insert_left_step(st, s, lts[l - 1]);
            &&& step.0 == dp(s, lts, rts, l, r, LayerKind::InsertLeft)
            &&& match step.0 {
                Some(c) => path_ok(s, step.1, lts, rts, l, r, LayerKind::InsertLeft, c),
                None => true,
            }
        }),
{
    let t = lts[l - 1];
    let op = AlignmentOperation::InsertLeft { left: t };
    let m = opt_cost_add(st.last_was_mutation.score, s.spec_insert_score(t, false));
    let il = opt_cost_add(st.last_was_insert_left.score, s.spec_insert_score(t, true));
    let ir = opt_cost_add(st.last_was_insert_right.score, s.spec_insert_score(t, false));
    lemma_pick_value(st, m, il, ir);
    assert(dp(s, lts, rts, l, r, LayerKind::InsertLeft) == opt_min3(m, il, ir));
    if opt_lt(il, ir) {
        if opt_lt(il, m) {
            lemma_extend(
                s,
                st.last_was_insert_left,
                lts,
                rts,
                l - 1,
                r,
                LayerKind::InsertLeft,
                op,
                il,
                l,
                r,
            );
        } else {
            lemma_extend(
                s,
                st.last_was_mutation,
                lts,
                rts,
                l - 1,
                r,
                LayerKind::Mutation,
                op,
                m,
                l,
                r,
            );
        }
    } else {
        if opt_lt(ir, m) {
            lemma_extend(
                s,
                st.last_was_insert_right,
                lts,
                rts,
                l - 1,
                r,
                LayerKind::InsertRight,
                op,
                ir,
                l,
                r,
            );
        } else {
            lemma_extend(
                s,
                st.last_was_mutation,
                lts,
                rts,
                l - 1,
                r,
                LayerKind::Mutation,
                op,
                m,
                l,
                r,
            );
        }
    }
}

/// The step function for the insert-right layer computes the reference
/// value at `(l, r)` and a witnessing path.
proof fn lemma_insert_right_step_ok<S: AlignmentScoring>(
    s: S,
    st: AlignmentState,
    lts: Seq<TokenView>,
    rts: Seq<TokenView>,
    l: int,
    r: int,
)
    requires
        0 <= l <= lts.len(),
        1 <= r <= rts.len(),
        state_ok(s, st, lts, rts, l, r - 1),
    ensures
        ({
            let step = spec_insert_right_step(st, s, rts[r - 1]);
            &&& step.0 == dp(s, lts, rts, l, r, LayerKind::InsertRight)
            &&& match step.0 {
                Some(c) => path_ok(s, step.1, lts, rts, l, r, LayerKind::InsertRight, c),
                None => true,
            }
        }),
{
    let t = rts[r - 1];
    let op = AlignmentOperation::InsertRight { right: t };
    let m = opt_cost_add(st.last_was_mutation.score, s.spec_insert_score(t, false));
    let il = opt_cost_add(st.last_was_insert_left.score, s.spec_insert_score(t, false));
    let ir = opt_cost_add(st.last_was_insert_right.score, s.spec_insert_score(t, true));
    lemma_pick_value(st, m, il, ir);
    assert(dp(s, lts, rts, l, r, LayerKind::InsertRight) == opt_min3(m, il, ir));
    if opt_lt(il, ir) {
        if opt_lt(il, m) {
            lemma_extend(
                s,
                st.last_was_insert_left,
                lts,
                rts,
                l,
                r - 1,
                LayerKind::InsertLeft,
                op,
                il,
                l,
                r,
            );
        } else {
            lemma_extend(
                s,
                st.last_was_mutation,
                lts,
                rts,
                l,
                r - 1,
                LayerKind::Mutation,
                op,
                m,
                l,
                r,
            );
        }
    } else {
        if opt_lt(ir, m) {
            lemma_extend(
                s,
                st.last_was_insert_right,
                lts,
                rts,
                l,
                r - 1,
                LayerKind::InsertRight,
                op,
                ir,
                l,
                r,
            );
        } else {
            lemma_extend(
                s,
                st.last_was_mutation,
                lts,
                rts,
                l,
                r - 1,
                LayerKind::Mutation,
                op,
                m,
                l,
                r,
            );
        }
    }
}

/// The step function for the mutation layer computes the reference value
/// at `(l, r)` and a witnessing path.
proof fn lemma_mutation_step_ok<S: AlignmentScoring>(
    s: S,
    st: AlignmentState,
    lts: Seq<TokenView>,
    rts: Seq<TokenView>,
    l: int,
    r: int,
)
    requires
        1 <= l <= lts.len(),
        1 <= r <= rts.len(),
        state_ok(s, st, lts, rts, l - 1, r - 1),
    ensures
        ({
            let step = spec_mutation_step(st, s, lts[l - 1], rts[r - 1]);
            &&& step.0 == dp(s, lts, rts, l, r, LayerKind::Mutation)
            &&& match step.0 {
                Some(c) => path_ok(s, step.1, lts, rts, l, r, LayerKind::Mutation, c),
                None => true,
            }
        }),
{
    let op = AlignmentOperation::Mutation { left: lts[l - 1], right: rts[r - 1] };
    let c = s.spec_mutation_score(lts[l - 1], rts[r - 1]);
    let m = opt_cost_add(st.last_was_mutation.score, c);
    let il = opt_cost_add(st.last_was_insert_left.score, c);
    let ir = opt_cost_add(st.last_was_insert_right.score, c);
    lemma_pick_value(st, m, il, ir);
    assert(dp(s, lts, rts, l, r, LayerKind::Mutation) == opt_min3(m, il, ir));
    if opt_lt(il, ir) {
        if opt_lt(il, m) {
            lemma_extend(
                s,
                st.last_was_insert_left,
                lts,
                rts,
                l - 1,
                r - 1,
                LayerKind::InsertLeft,
                op,
                il,
                l,
                r,
            );
        } else {
            lemma_extend(
                s,
                st.last_was_mutation,
                lts,
                rts,
                l - 1,
                r - 1,
                LayerKind::Mutation,
                op,
                m,
                l,
                r,
            );
        }
    } else {
        if opt_lt(ir, m) {
            lemma_extend(
                s,
                st.last_was_insert_right,
                lts,
                rts,
                l - 1,
                r - 1,
                LayerKind::InsertRight,
                op,
                ir,
                l,
                r,
            );
        } else {
            lemma_extend(
                s,
                st.last_was_mutation,
                lts,
                rts,
                l - 1,
                r - 1,
                LayerKind::Mutation,
                op,
                m,
                l,
                r,
            );
        }
    }
}

/// Some layer of every cell is reachable: an all-insert path always
/// exists.
proof fn lemma_dp_reachable<S: AlignmentScoring>(
    s: S,
    lts: Seq<TokenView>,
    rts: Seq<TokenView>,
    l: int,
    r: int,
)
    requires
        0 <= l <= lts.len(),
        0 <= r <= rts.len(),
    ensures
        opt_min3(
            dp(s, lts, rts, l, r, LayerKind::Mutation),
            dp(s, lts, rts, l, r, LayerKind::InsertLeft),
            dp(s, lts, rts, l, r, LayerKind::InsertRight),
        ) is Some,
    decreases l + r,
{
    if l == 0 && r == 0 {
    } else if r >= 1 {
        lemma_dp_reachable(s, lts, rts, l, r - 1);
        assert(dp(s, lts, rts, l, r, LayerKind::InsertRight) is Some);
    } else {
        lemma_dp_reachable(s, lts, rts, l - 1, 0);
        assert(dp(s, lts, rts, l, r, LayerKind::InsertLeft) is Some);
    }
}

/// The finished alignment: the chosen script.
#[derive(Debug)]
pub struct Alignment {
    pub operations: Vec<AlignmentOperation<Token>>,
}

/// Global alignment: the cheapest edit script turning `left` into
/// `right` under the given policy.  The script's projections reproduce
/// both inputs, its total cost is exactly the optimum of the reference
/// dynamic program, and no valid script costs less.
pub fn align<S: AlignmentScoring>(scoring: &S, left: &Vec<Token>, right: &Vec<Token>) -> (a:
    Alignment)
    ensures
        valid_script(seq_views(a.operations@), seq_views(left@), seq_views(right@)),
        Some(script_cost(*scoring, seq_views(a.operations@))) == alignment_cost(
            *scoring,
            seq_views(left@),
            seq_views(right@),
        ),
        forall|other: Seq<AlignmentOperation<TokenView>>|
            #[trigger] valid_script(other, seq_views(left@), seq_views(right@))
                ==> script_cost(*scoring, seq_views(a.operations@)) <= script_cost(
                *scoring,
                other,
            ),
{
    let ghost lts = seq_views(left@);
    let ghost rts = seq_views(right@);
    let m = left.len();
    let n = right.len();
    let mut current: Vec<AlignmentState> = Vec::new();
    current.push(
        AlignmentState {
            last_was_mutation: AlignmentData::new(),
            last_was_insert_left: AlignmentData::unreachable(),
            last_was_insert_right: AlignmentData::unreachable(),
        },
    );
    proof {
        assert(lts.subrange(0, 0) =~= Seq::<TokenView>::empty());
        assert(rts.subrange(0, 0) =~= Seq::<TokenView>::empty());
        assert(state_ok(*scoring, current@[0], lts, rts, 0, 0));
    }
    let mut i: usize = 0;
    while i < m
        invariant
            m == lts.len(),
            n == rts.len(),
            m == left@.len(),
            n == right@.len(),
            lts == seq_views(left@),
            rts == seq_views(right@),
            i <= m,
            current@.len() == i + 1,
            forall|j: int|
                0 <= j <= i ==> state_ok(*scoring, #[trigger] current@[j], lts, rts, j, 0),
        decreases m - i,
    {
        let d = current[i].insert_left_score(scoring, &left[i]);
        proof {
            lemma_insert_left_step_ok(*scoring, current@[i as int], lts, rts, i + 1, 0);
        }
        current.push(
            AlignmentState {
                last_was_mutation: AlignmentData::unreachable(),
                last_was_insert_left: d,
                last_was_insert_right: AlignmentData::unreachable(),
            },
        );
        i = i + 1;
    }
    let mut r_i: usize = 0;
    while r_i < n
        invariant
            m == lts.len(),
            n == rts.len(),
            m == left@.len(),
            n == right@.len(),
            lts == seq_views(left@),
            rts == seq_views(right@),
            r_i <= n,
            current@.len() == m + 1,
            forall|j: int|
                0 <= j <= m ==> state_ok(
                    *scoring,
                    #[trigger] current@[j],
                    lts,
                    rts,
                    j,
                    r_i as int,
                ),
        decreases n - r_i,
    {
        let mut next: Vec<AlignmentState> = Vec::new();
        let d = current[0].insert_right_score(scoring, &right[r_i]);
        proof {
            lemma_insert_right_step_ok(*scoring, current@[0], lts, rts, 0, r_i + 1);
        }
        next.push(
            AlignmentState {
                last_was_mutation: AlignmentData::unreachable(),
                last_was_insert_left: AlignmentData::unreachable(),
                last_was_insert_right: d,
            },
        );
        let mut l_i: usize = 1;
        while l_i <= m
            invariant
                m == lts.len(),
                n == rts.len(),
                m == left@.len(),
                n == right@.len(),
                lts == seq_views(left@),
                rts == seq_views(right@),
                r_i < n,
                1 <= l_i <= m + 1,
                current@.len() == m + 1,
                next@.len() == l_i,
                forall|j: int|
                    0 <= j <= m ==> state_ok(
                        *scoring,
                        #[trigger] current@[j],
                        lts,
                        rts,
                        j,
                        r_i as int,
                    ),
                forall|j: int|
                    0 <= j < l_i ==> state_ok(
                        *scoring,
                        #[trigger] next@[j],
                        lts,
                        rts,
                        j,
                        r_i + 1,
                    ),
            decreases m + 1 - l_i,
        {
            let st = AlignmentState {
                last_was_mutation: current[l_i - 1].mutation_score(
                    scoring,
                    &left[l_i - 1],
                    &right[r_i],
                ),
                last_was_insert_left: next[l_i - 1].insert_left_score(scoring, &left[l_i - 1]),
                last_was_insert_right: current[l_i].insert_right_score(scoring, &right[r_i]),
            };
            proof {
                lemma_mutation_step_ok(
                    *scoring,
                    current@[l_i - 1],
                    lts,
                    rts,
                    l_i as int,
                    r_i + 1,
                );
                lemma_insert_left_step_ok(*scoring, next@[l_i - 1], lts, rts, l_i as int, r_i + 1);
                lemma_insert_right_step_ok(
                    *scoring,
                    current@[l_i as int],
                    lts,
                    rts,
                    l_i as int,
                    r_i + 1,
                );
            }
            next.push(st);
            l_i = l_i + 1;
        }
        current = next;
        r_i = r_i + 1;
    }
    let last = match current.pop() {
        Some(st) => st,
        None => {
            proof {
                assert(false);
            }
            unreached()
        },
    };
    proof {
        lemma_extract_value(last);
        lemma_dp_reachable(*scoring, lts, rts, m as int, n as int);
        assert(lts.subrange(0, m as int) =~= lts);
        assert(rts.subrange(0, n as int) =~= rts);
    }
    let best = last.extract_best();
    let operations = best.path.extract_path();
    proof {
        assert forall|other: Seq<AlignmentOperation<TokenView>>|
            #[trigger] valid_script(other, lts, rts) implies script_cost(
            *scoring,
            seq_views(operations@),
        ) <= script_cost(*scoring, other) by {
            lemma_alignment_cost_minimal(*scoring, other, lts, rts);
        }
    }
    Alignment { operations }
}

/// The layer a script's path ends in: the kind of its last operation,
/// with the empty script counting as ending in a mutation.
pub open spec fn script_layer(ops: Seq<AlignmentOperation<TokenView>>) -> LayerKind {
    last_layer(ops, LayerKind::Mutation)
}

/// The reference dynamic program bounds every script from below: a
/// valid partial script over the first `l` and `r` tokens never costs
/// less than the matching layer's value.
proof fn lemma_dp_lower_bound<S: AlignmentScoring>(
    s: S,
    ops: Seq<AlignmentOperation<TokenView>>,
    lts: Seq<TokenView>,
    rts: Seq<TokenView>,
    l: int,
    r: int,
)
    requires
        0 <= l <= lts.len(),
        0 <= r <= rts.len(),
        left_proj(ops) == lts.subrange(0, l),
        right_proj(ops) == rts.subrange(0, r),
    ensures
        opt_le(dp(s, lts, rts, l, r, script_layer(ops)), Some(script_cost(s, ops))),
    decreases ops.len(),
{
    if ops.len() == 0 {
        assert(left_proj(ops) =~= Seq::<TokenView>::empty());
        assert(right_proj(ops) =~= Seq::<TokenView>::empty());
        assert(l == 0);
        assert(r == 0);
    } else {
        let op = ops.last();
        let init = ops.drop_last();
        assert(ops =~= init.push(op));
        lemma_proj_push(init, op);
        lemma_script_cost_push(s, init, op, LayerKind::Mutation);
        let l1 = match op.spec_left() {
            Some(_) => l - 1,
            None => l,
        };
        let r1 = match op.spec_right() {
            Some(_) => r - 1,
            None => r,
        };
        match op.spec_left() {
            Some(t) => {
                assert(left_proj(init).push(t) == lts.subrange(0, l));
                assert(lts.subrange(0, l).len() == l);
                assert(l >= 1);
                assert(t == lts.subrange(0, l)[l - 1]);
                assert(t == lts[l - 1]);
                assert(left_proj(init) =~= lts.subrange(0, l - 1));
            },
            None => {},
        }
        match op.spec_right() {
            Some(t) => {
                assert(right_proj(init).push(t) == rts.subrange(0, r));
                assert(rts.subrange(0, r).len() == r);
                assert(r >= 1);
                assert(t == rts.subrange(0, r)[r - 1]);
                assert(right_proj(init) =~= rts.subrange(0, r - 1));
            },
            None => {},
        }
        lemma_dp_lower_bound(s, init, lts, rts, l1, r1);
        let k1 = script_layer(init);
        let oc = spec_op_cost(s, op, k1);
        assert(script_cost(s, ops) == spec_cost_add(script_cost(s, init), oc));
        let cand = opt_cost_add(dp(s, lts, rts, l1, r1, k1), oc);
        assert(opt_le(cand, Some(script_cost(s, ops))));
        match op {
            AlignmentOperation::Mutation { left: _, right: _ } => {
                assert(dp(s, lts, rts, l, r, LayerKind::Mutation) == opt_min3(
                    opt_cost_add(dp(s, lts, rts, l - 1, r - 1, LayerKind::Mutation), oc),
                    opt_cost_add(dp(s, lts, rts, l - 1, r - 1, LayerKind::InsertLeft), oc),
                    opt_cost_add(dp(s, lts, rts, l - 1, r - 1, LayerKind::InsertRight), oc),
                ));
            },
            AlignmentOperation::InsertLeft { left: _ } => {
                assert(dp(s, lts, rts, l, r, LayerKind::InsertLeft) == opt_min3(
                    opt_cost_add(
                        dp(s, lts, rts, l - 1, r, LayerKind::Mutation),
                        s.spec_insert_score(lts[l - 1], false),
                    ),
                    opt_cost_add(
                        dp(s, lts, rts, l - 1, r, LayerKind::InsertLeft),
                        s.spec_insert_score(lts[l - 1], true),
                    ),
                    opt_cost_add(
                        dp(s, lts, rts, l - 1, r, LayerKind::InsertRight),
                        s.spec_insert_score(lts[l - 1], false),
                    ),
                ));
            },
            AlignmentOperation::InsertRight { right: _ } => {
                assert(dp(s, lts, rts, l, r, LayerKind::InsertRight) == opt_min3(
                    opt_cost_add(
                        dp(s, lts, rts, l, r - 1, LayerKind::Mutation),
                        s.spec_insert_score(rts[r - 1], false),
                    ),
                    opt_cost_add(
                        dp(s, lts, rts, l, r - 1, LayerKind::InsertLeft),
                        s.spec_insert_score(rts[r - 1], false),
                    ),
                    opt_cost_add(
                        dp(s, lts, rts, l, r - 1, LayerKind::InsertRight),
                        s.spec_insert_score(rts[r - 1], true),
                    ),
                ));
            },
        }
        assert(opt_le(dp(s, lts, rts, l, r, op_layer(op)), cand));
    }
}

/// Cost optimality, the lower-bound half: no valid script costs less
/// than the optimum of the reference dynamic program.
pub proof fn lemma_alignment_cost_minimal<S: AlignmentScoring>(
    s: S,
    ops: Seq<AlignmentOperation<TokenView>>,
    lts: Seq<TokenView>,
    rts: Seq<TokenView>,
)
    requires
        valid_script(ops, lts, rts),
    ensures
        opt_le(alignment_cost(s, lts, rts), Some(script_cost(s, ops))),
{
    assert(lts.subrange(0, lts.len() as int) =~= lts);
    assert(rts.subrange(0, rts.len() as int) =~= rts);
    lemma_dp_lower_bound(s, ops, lts, rts, lts.len() as int, rts.len() as int);
}

/// The texts of a token sequence, concatenated.
pub open spec fn concat_texts(ts: Seq<TokenView>) -> Seq<char>
    decreases ts.len(),
{
    if ts.len() == 0 {
        Seq::empty()
    } else {
        ts[0].text + concat_texts(ts.drop_first())
    }
}

/// The texts of the tokens a script consumes from the left, concatenated.
pub open spec fn concat_left_texts(ops: Seq<AlignmentOperation<TokenView>>) -> Seq<char>
    decreases ops.len(),
{
    if ops.len() == 0 {
        Seq::empty()
    } else {
        match ops[0].spec_left() {
            Some(t) => t.text + concat_left_texts(ops.drop_first()),
            None => concat_left_texts(ops.drop_first()),
        }
    }
}

/// The texts of the tokens a script consumes from the right, concatenated.
pub open spec fn concat_right_texts(ops: Seq<AlignmentOperation<TokenView>>) -> Seq<char>
    decreases ops.len(),
{
    if ops.len() == 0 {
        Seq::empty()
    } else {
        match ops[0].spec_right() {
            Some(t) => t.text + concat_right_texts(ops.drop_first()),
            None => concat_right_texts(ops.drop_first()),
        }
    }
}

/// Concatenating the left texts of a script is the same as concatenating
/// the texts of its left projection; symmetrically on the right.
proof fn lemma_concat_proj_texts(ops: Seq<AlignmentOperation<TokenView>>)
    ensures
        concat_left_texts(ops) == concat_texts(left_proj(ops)),
        concat_right_texts(ops) == concat_texts(right_proj(ops)),
    decreases ops.len(),
{
    if ops.len() > 0 {
        lemma_concat_proj_texts(ops.drop_first());
        match ops[0].spec_left() {
            Some(t) => {
                assert((seq![t] + left_proj(ops.drop_first()))[0] == t);
                assert((seq![t] + left_proj(ops.drop_first())).drop_first() =~= left_proj(
                    ops.drop_first(),
                ));
            },
            None => {},
        }
        match ops[0].spec_right() {
            Some(t) => {
                assert((seq![t] + right_proj(ops.drop_first()))[0] == t);
                assert((seq![t] + right_proj(ops.drop_first())).drop_first() =~= right_proj(
                    ops.drop_first(),
                ));
            },
            None => {},
        }
    }
}

/// When block markers are the only empty-text tokens allowed to differ,
/// concatenating all texts is the same as concatenating the ordinary
/// ones: the markers contribute nothing.
pub proof fn lemma_concat_texts_skip_markers(ts: Seq<TokenView>)
    requires
        crate::tokenizer::block_markers_empty(ts),
    ensures
        concat_texts(ts) == crate::tokenizer::concat_nonblock_texts(ts),
    decreases ts.len(),
{
    if ts.len() > 0 {
        let tail = ts.drop_first();
        assert forall|k: int|
            0 <= k < tail.len() && (#[trigger] tail[k]).is_block_marker() implies tail[k].text.len()
            == 0 by {
            assert(tail[k] == ts[k + 1]);
        }
        lemma_concat_texts_skip_markers(tail);
        if ts[0].is_block_marker() {
            assert(ts[0].text =~= Seq::<char>::empty());
            assert(ts[0].text + concat_texts(tail) =~= concat_texts(tail));
        }
    }
}

/// Round trip on the left: for any valid script, the concatenation of
/// the texts of the left payloads of its operations equals the
/// concatenation of the left tokens' texts.
pub proof fn lemma_round_trip_left(
    ops: Seq<AlignmentOperation<TokenView>>,
    lts: Seq<TokenView>,
    rts: Seq<TokenView>,
)
    requires
        valid_script(ops, lts, rts),
    ensures
        concat_left_texts(ops) == concat_texts(lts),
{
    lemma_concat_proj_texts(ops);
}

/// Round trip on the right: for any valid script, the concatenation of
/// the texts of the right payloads of its operations equals the
/// concatenation of the right tokens' texts.
pub proof fn lemma_round_trip_right(
    ops: Seq<AlignmentOperation<TokenView>>,
    lts: Seq<TokenView>,
    rts: Seq<TokenView>,
)
    requires
        valid_script(ops, lts, rts),
    ensures
        concat_right_texts(ops) == concat_texts(rts),
{
    lemma_concat_proj_texts(ops);
}

/// Along equal inputs the mutation layer of the diagonal costs nothing
/// under the uniform policy.
proof fn lemma_dp_diag_zero(
    u: crate::scoring::UniformScoring,
    lts: Seq<TokenView>,
    rts: Seq<TokenView>,
    k: int,
)
    requires
        0 <= k <= lts.len(),
        lts.len() == rts.len(),
        forall|i: int|
            0 <= i < lts.len() ==> (#[trigger] lts[i]).t == rts[i].t && lts[i].text
                == rts[i].text,
    ensures
        dp(u, lts, rts, k, k, LayerKind::Mutation) == Some(0u64),
    decreases k,
{
    if k > 0 {
        lemma_dp_diag_zero(u, lts, rts, k - 1);
        assert(crate::scoring::same_kind(lts[k - 1].t, rts[k - 1].t));
        assert(u.spec_mutation_score(lts[k - 1], rts[k - 1]) == 0);
    }
}

/// A script of cost zero under the uniform policy contains no inserts.
proof fn lemma_zero_cost_mutations(
    u: crate::scoring::UniformScoring,
    ops: Seq<AlignmentOperation<TokenView>>,
    prev: LayerKind,
)
    requires
        script_cost_from(u, ops, prev) == 0,
    ensures
        forall|i: int| 0 <= i < ops.len() ==> (#[trigger] ops[i]) is Mutation,
    decreases ops.len(),
{
    if ops.len() > 0 {
        assert(spec_op_cost(u, ops[0], prev) == 0);
        assert(ops[0] is Mutation);
        lemma_zero_cost_mutations(u, ops.drop_first(), op_layer(ops[0]));
        assert forall|i: int| 0 <= i < ops.len() implies (#[trigger] ops[i]) is Mutation by {
            if i > 0 {
                assert(ops[i] == ops.drop_first()[i - 1]);
            }
        }
    }
}

/// A valid script made of mutations only pairs the inputs positionally.
proof fn lemma_all_mutations_pair(
    ops: Seq<AlignmentOperation<TokenView>>,
    lts: Seq<TokenView>,
    rts: Seq<TokenView>,
)
    requires
        valid_script(ops, lts, rts),
        forall|i: int| 0 <= i < ops.len() ==> (#[trigger] ops[i]) is Mutation,
    ensures
        ops.len() == lts.len(),
        ops.len() == rts.len(),
        forall|i: int|
            0 <= i < ops.len() ==> ops[i] == (AlignmentOperation::Mutation {
                left: lts[i],
                right: rts[i],
            }),
    decreases ops.len(),
{
    if ops.len() == 0 {
        assert(lts.len() == 0);
        assert(rts.len() == 0);
    } else {
        let rest = ops.drop_first();
        match ops[0] {
            AlignmentOperation::Mutation { left, right } => {
                assert(left_proj(ops) == seq![left] + left_proj(rest));
                assert(right_proj(ops) == seq![right] + right_proj(rest));
                assert(lts[0] == left);
                assert(rts[0] == right);
                assert(left_proj(rest) =~= lts.drop_first());
                assert(right_proj(rest) =~= rts.drop_first());
                assert(forall|i: int| 0 <= i < rest.len() ==> (#[trigger] rest[i]) is Mutation);
                lemma_all_mutations_pair(rest, lts.drop_first(), rts.drop_first());
                assert forall|i: int|
                    0 <= i < ops.len() implies ops[i] == (AlignmentOperation::Mutation {
                    left: lts[i],
                    right: rts[i],
                }) by {
                    if i > 0 {
                        assert(ops[i] == rest[i - 1]);
                        assert(lts[i] == lts.drop_first()[i - 1]);
                        assert(rts[i] == rts.drop_first()[i - 1]);
                    }
                }
            },
            _ => {
                assert(false);
            },
        }
    }
}

/// Identical inputs: over token-wise equal inputs (same kinds, same
/// texts), any valid script of optimal cost under the uniform policy is
/// one mutation per token pair, in order, with total cost zero.
pub proof fn lemma_identical_inputs(
    u: crate::scoring::UniformScoring,
    ops: Seq<AlignmentOperation<TokenView>>,
    lts: Seq<TokenView>,
    rts: Seq<TokenView>,
)
    requires
        lts.len() == rts.len(),
        forall|i: int|
            0 <= i < lts.len() ==> (#[trigger] lts[i]).t == rts[i].t && lts[i].text
                == rts[i].text,
        valid_script(ops, lts, rts),
        Some(script_cost(u, ops)) == alignment_cost(u, lts, rts),
    ensures
        script_cost(u, ops) == 0,
        ops.len() == lts.len(),
        forall|i: int|
            0 <= i < ops.len() ==> ops[i] == (AlignmentOperation::Mutation {
                left: lts[i],
                right: rts[i],
            }),
{
    let n = lts.len() as int;
    lemma_dp_diag_zero(u, lts, rts, n);
    assert(alignment_cost(u, lts, rts) == Some(0u64));
    lemma_zero_cost_mutations(u, ops, LayerKind::Mutation);
    lemma_all_mutations_pair(ops, lts, rts);
}

/// Empty left: a valid script over no left tokens consists of one
/// insert-right per right token, in order.
pub proof fn lemma_empty_left(ops: Seq<AlignmentOperation<TokenView>>, rts: Seq<TokenView>)
    requires
        valid_script(ops, Seq::empty(), rts),
    ensures
        ops.len() == rts.len(),
        forall|i: int|
            0 <= i < ops.len() ==> ops[i] == (AlignmentOperation::InsertRight {
                right: rts[i],
            }),
    decreases ops.len(),
{
    if ops.len() == 0 {
        assert(rts.len() == 0);
    } else {
        let rest = ops.drop_first();
        match ops[0] {
            AlignmentOperation::InsertRight { right } => {
                assert(right_proj(ops) == seq![right] + right_proj(rest));
                assert(rts[0] == right);
                assert(right_proj(rest) =~= rts.drop_first());
                assert(left_proj(rest) =~= Seq::<TokenView>::empty());
                lemma_empty_left(rest, rts.drop_first());
                assert forall|i: int|
                    0 <= i < ops.len() implies ops[i] == (AlignmentOperation::InsertRight {
                    right: rts[i],
                }) by {
                    if i > 0 {
                        assert(ops[i] == rest[i - 1]);
                        assert(rts[i] == rts.drop_first()[i - 1]);
                    }
                }
            },
            _ => {
                assert(left_proj(ops).len() > 0);
                assert(false);
            },
        }
    }
}

/// Empty right: a valid script over no right tokens consists of one
/// insert-left per left token, in order.
pub proof fn lemma_empty_right(ops: Seq<AlignmentOperation<TokenView>>, lts: Seq<TokenView>)
    requires
        valid_script(ops, lts, Seq::empty()),
    ensures
        ops.len() == lts.len(),
        forall|i: int|
            0 <= i < ops.len() ==> ops[i] == (AlignmentOperation::InsertLeft { left: lts[i] }),
    decreases ops.len(),
{
    if ops.len() == 0 {
        assert(lts.len() == 0);
    } else {
        let rest = ops.drop_first();
        match ops[0] {
            AlignmentOperation::InsertLeft { left } => {
                assert(left_proj(ops) == seq![left] + left_proj(rest));
                assert(lts[0] == left);
                assert(left_proj(rest) =~= lts.drop_first());
                assert(right_proj(rest) =~= Seq::<TokenView>::empty());
                lemma_empty_right(rest, lts.drop_first());
                assert forall|i: int|
                    0 <= i < ops.len() implies ops[i] == (AlignmentOperation::InsertLeft {
                    left: lts[i],
                }) by {
                    if i > 0 {
                        assert(ops[i] == rest[i - 1]);
                        assert(lts[i] == lts.drop_first()[i - 1]);
                    }
                }
            },
            _ => {
                assert(right_proj(ops).len() > 0);
                assert(false);
            },
        }
    }
}

} // verus!
