//! The line renderer.
//!
//! An interleaved script is folded into output lines.  Two span buffers
//! grow side by side: the right one carries the new text, the left one
//! the old text, each padded with spaces so the two stay the same
//! visible width.  A line is flushed as `Same` while only equal material
//! was appended, otherwise as `Change`, where each side appears only if
//! it holds a non-whitespace character.  Markup is structural: spans are
//! tagged plain, removed, added, or removed-insert, and a front end may
//! colour them as it pleases.

use vstd::prelude::*;
use vstd::string::StrSliceExecFns;

use crate::chars::{char_is_whitespace, is_whitespace_char};
use crate::seq_views;
use crate::tokenizer::TokenView;
use crate::alignment::{Alignment, AlignmentOperation};

verus! {

/// How a span of text is to be displayed.
#[derive(Clone, Copy, Debug, PartialEq, Eq, Structural)]
pub enum Markup {
    /// Unchanged material, or padding.
    Plain,
    /// Text that only the left side has, shown in a mutation.
    Removed,
    /// Text that only the right side has.
    Added,
    /// Text that only the left side has, shown as a struck-through insert.
    RemovedInsert,
}

/// A run of text with one markup tag.
#[derive(Debug)]
pub struct Span {
    pub text: String,
    pub mark: Markup,
}

/// The mathematical image of a [`Span`].
pub ghost struct SpanView {
    pub text: Seq<char>,
    pub mark: Markup,
}

impl View for Span {
    type V = SpanView;

    open spec fn view(&self) -> SpanView {
        SpanView { text: self.text@, mark: self.mark }
    }
}

impl Clone for Span {
    fn clone(&self) -> (r: Self)
        ensures
            r == *self,
    {
        Span { text: self.text.clone(), mark: self.mark }
    }
}

/// One rendered output line.
#[derive(Debug)]
pub enum OutputLine {
    /// A line both sides share, with its text.
    Same { line: String },
    /// A differing line; a side is present only when it has at least one
    /// non-whitespace character.
    Change { left: Option<Vec<Span>>, right: Option<Vec<Span>> },
}

/// The mathematical image of an [`OutputLine`].
pub ghost enum LineView {
    Same { line: Seq<char> },
    Change { left: Option<Seq<SpanView>>, right: Option<Seq<SpanView>> },
}

impl View for OutputLine {
    type V = LineView;

    open spec fn view(&self) -> LineView {
        match self {
            OutputLine::Same { line } => LineView::Same { line: line@ },
            OutputLine::Change { left, right } => LineView::Change {
                left: match left {
                    Some(v) => Some(seq_views(v@)),
                    None => None,
                },
                right: match right {
                    Some(v) => Some(seq_views(v@)),
                    None => None,
                },
            },
        }
    }
}

/// The whole state of the line machine.
pub ghost struct RenderState {
    pub left: Seq<SpanView>,
    pub right: Seq<SpanView>,
    pub equal: bool,
    pub out: Seq<LineView>,
}

/// The state the line machine starts in.
pub open spec fn init_render_state() -> RenderState {
    RenderState { left: Seq::empty(), right: Seq::empty(), equal: true, out: Seq::empty() }
}

/// A sequence of `n` spaces.
pub open spec fn spaces(n: int) -> Seq<char> {
    Seq::new(n as nat, |i: int| ' ')
}

/// The visible text of a span buffer.
pub open spec fn spans_text(sv: Seq<SpanView>) -> Seq<char>
    decreases sv.len(),
{
    if sv.len() == 0 {
        Seq::empty()
    } else {
        sv[0].text + spans_text(sv.drop_first())
    }
}

/// Whether a span buffer holds any non-whitespace character.
pub open spec fn spans_has_nonws(sv: Seq<SpanView>) -> bool {
    exists|i: int, j: int|
        0 <= i < sv.len() && 0 <= j < sv[i].text.len() && !char_is_whitespace(sv[i].text[j])
}

/// Close the current line: `Same` while everything appended was equal,
/// otherwise `Change` with each side present only if it shows something.
pub open spec fn rs_flush(st: RenderState) -> RenderState {
    let line = if st.equal {
        LineView::Same { line: spans_text(st.right) }
    } else {
        LineView::Change {
            left: if spans_has_nonws(st.left) {
                Some(st.left)
            } else {
                None
            },
            right: if spans_has_nonws(st.right) {
                Some(st.right)
            } else {
                None
            },
        }
    };
    RenderState { left: Seq::empty(), right: Seq::empty(), equal: true, out: st.out.push(line) }
}

/// Append text both sides share: the right buffer shows it, the left one
/// is padded to the same width.
pub open spec fn rs_add_same(st: RenderState, text: Seq<char>) -> RenderState {
    RenderState {
        left: st.left.push(SpanView { text: spaces(text.len() as int), mark: Markup::Plain }),
        right: st.right.push(SpanView { text, mark: Markup::Plain }),
        equal: st.equal,
        out: st.out,
    }
}

/// Append a mutation: removed text on the left, added text on the right,
/// the shorter side padded to the width of the longer.
pub open spec fn rs_add_mutation(st: RenderState, l: Seq<char>, r: Seq<char>) -> RenderState {
    let left1 = st.left.push(SpanView { text: l, mark: Markup::Removed });
    let right1 = st.right.push(SpanView { text: r, mark: Markup::Added });
    RenderState {
        left: if l.len() < r.len() {
            left1.push(SpanView { text: spaces(r.len() - l.len()), mark: Markup::Plain })
        } else {
            left1
        },
        right: if r.len() < l.len() {
            right1.push(SpanView { text: spaces(l.len() - r.len()), mark: Markup::Plain })
        } else {
            right1
        },
        equal: false,
        out: st.out,
    }
}

/// Append text only the left side has: struck through on the right,
/// padding on the left.
pub open spec fn rs_insert_left(st: RenderState, text: Seq<char>) -> RenderState {
    RenderState {
        left: st.left.push(SpanView { text: spaces(text.len() as int), mark: Markup::Plain }),
        right: st.right.push(SpanView { text, mark: Markup::RemovedInsert }),
        equal: false,
        out: st.out,
    }
}

/// Append text only the right side has: added on the right, padding on
/// the left.
pub open spec fn rs_insert_right(st: RenderState, text: Seq<char>) -> RenderState {
    RenderState {
        left: st.left.push(SpanView { text: spaces(text.len() as int), mark: Markup::Plain }),
        right: st.right.push(SpanView { text, mark: Markup::Added }),
        equal: false,
        out: st.out,
    }
}

/// Copy right-side whitespace verbatim to both buffers.
pub open spec fn rs_insert_right_space(st: RenderState, text: Seq<char>) -> RenderState {
    RenderState {
        left: st.left.push(SpanView { text, mark: Markup::Plain }),
        right: st.right.push(SpanView { text, mark: Markup::Plain }),
        equal: st.equal,
        out: st.out,
    }
}

/// The index of the first newline in `cs`, or `-1` when there is none.
pub open spec fn find_newline(cs: Seq<char>) -> int
    decreases cs.len(),
{
    if cs.len() == 0 {
        -1
    } else if cs[0] == '\n' {
        0
    } else if find_newline(cs.drop_first()) < 0 {
        -1
    } else {
        1 + find_newline(cs.drop_first())
    }
}

/// `find_newline` stays within bounds.
pub proof fn lemma_find_newline_bound(cs: Seq<char>)
    ensures
        -1 <= find_newline(cs) < cs.len(),
    decreases cs.len(),
{
    if cs.len() > 0 && cs[0] != '\n' {
        lemma_find_newline_bound(cs.drop_first());
    }
}

/// A position holding a newline with none before it is the first newline.
pub proof fn lemma_find_newline_exact(cs: Seq<char>, k: int)
    requires
        0 <= k < cs.len(),
        cs[k] == '\n',
        forall|b: int| 0 <= b < k ==> #[trigger] cs[b] != '\n',
    ensures
        find_newline(cs) == k,
    decreases cs.len(),
{
    if k > 0 {
        let tail = cs.drop_first();
        assert(tail[k - 1] == cs[k]);
        assert forall|b: int| 0 <= b < k - 1 implies #[trigger] tail[b] != '\n' by {
            assert(tail[b] == cs[b + 1]);
        }
        lemma_find_newline_exact(tail, k - 1);
    }
}

/// A sequence without newlines has no first newline.
pub proof fn lemma_find_newline_none(cs: Seq<char>)
    requires
        forall|b: int| 0 <= b < cs.len() ==> #[trigger] cs[b] != '\n',
    ensures
        find_newline(cs) == -1,
    decreases cs.len(),
{
    if cs.len() > 0 {
        let tail = cs.drop_first();
        assert forall|b: int| 0 <= b < tail.len() implies #[trigger] tail[b] != '\n' by {
            assert(tail[b] == cs[b + 1]);
        }
        lemma_find_newline_none(tail);
    }
}

/// Append right-side whitespace, flushing the line at every newline; the
/// text after the last newline stays in the buffers.
pub open spec fn rs_insert_right_ws(st: RenderState, cs: Seq<char>) -> RenderState
    decreases cs.len(),
    via rs_insert_right_ws_decreases
{
    let k = find_newline(cs);
    if k < 0 {
        rs_insert_right_space(st, cs)
    } else {
        rs_insert_right_ws(rs_flush(rs_insert_right_space(st, cs.take(k))), cs.skip(k + 1))
    }
}

#[via_fn]
proof fn rs_insert_right_ws_decreases(st: RenderState, cs: Seq<char>) {
    lemma_find_newline_bound(cs);
}

/// The effect of one script operation on the line machine, together with
/// the new "previous token was whitespace" flag.
pub ghost struct RenderStep {
    pub state: RenderState,
    pub prev_space: bool,
}

/// Process one operation.
pub open spec fn render_op(st: RenderState, prev_space: bool, op: AlignmentOperation<
    TokenView,
>) -> RenderStep {
    match op {
        AlignmentOperation::Mutation { left, right } => RenderStep {
            state: if left.text == right.text {
                rs_add_same(st, right.text)
            } else {
                rs_add_mutation(st, left.text, right.text)
            },
            prev_space: false,
        },
        AlignmentOperation::InsertLeft { left } => {
            if left.t is WhiteSpace {
                RenderStep {
                    state: if !prev_space {
                        rs_insert_left(st, seq![' '])
                    } else {
                        st
                    },
                    prev_space: true,
                }
            } else {
                RenderStep { state: rs_insert_left(st, left.text), prev_space: false }
            }
        },
        AlignmentOperation::InsertRight { right } => {
            if right.t is WhiteSpace {
                RenderStep { state: rs_insert_right_ws(st, right.text), prev_space: true }
            } else {
                RenderStep { state: rs_insert_right(st, right.text), prev_space: false }
            }
        },
    }
}

/// Process a whole script, starting from the initial state.
pub open spec fn render_fold(ops: Seq<AlignmentOperation<TokenView>>) -> RenderStep
    decreases ops.len(),
{
    if ops.len() == 0 {
        RenderStep { state: init_render_state(), prev_space: true }
    } else {
        let prior = render_fold(ops.drop_last());
        render_op(prior.state, prior.prev_space, ops.last())
    }
}

/// The lines a script renders to: the fold of all operations, followed
/// by a final flush.
pub open spec fn spec_output_lines(ops: Seq<AlignmentOperation<TokenView>>) -> Seq<LineView> {
    rs_flush(render_fold(ops).state).out
}

/// A string of `n` spaces.
fn spaces_string(n: usize) -> (s: String)
    ensures
        s@ == spaces(n as int),
{
    let mut s = String::new();
    let mut i: usize = 0;
    proof {
        reveal_strlit(" ");
        assert(" "@ =~= seq![' ']);
        assert(s@ =~= spaces(0));
    }
    while i < n
        invariant
            i <= n,
            s@ == spaces(i as int),
        decreases n - i,
    {
        s.append(" ");
        proof {
            reveal_strlit(" ");
            assert(" "@ =~= seq![' ']);
            assert(spaces(i as int) + " "@ =~= spaces(i + 1));
        }
        i = i + 1;
    }
    s
}

/// The visible text of a buffer grows by the appended span's text.
proof fn lemma_spans_text_push(sv: Seq<SpanView>, x: SpanView)
    ensures
        spans_text(sv.push(x)) == spans_text(sv) + x.text,
    decreases sv.len(),
{
    if sv.len() == 0 {
        assert(sv.push(x).drop_first() =~= sv);
        assert(sv.push(x)[0] == x);
        assert(spans_text(sv) + x.text =~= x.text);
        assert(x.text + spans_text(sv) =~= x.text);
    } else {
        assert(sv.push(x)[0] == sv[0]);
        assert(sv.push(x).drop_first() =~= sv.drop_first().push(x));
        lemma_spans_text_push(sv.drop_first(), x);
        assert(sv[0].text + (spans_text(sv.drop_first()) + x.text) =~= (sv[0].text + spans_text(
            sv.drop_first(),
        )) + x.text);
    }
}

/// The line machine.
pub struct DiffLineOutput {
    pub left: Vec<Span>,
    pub right: Vec<Span>,
    pub equal: bool,
    pub out: Vec<OutputLine>,
}

impl View for DiffLineOutput {
    type V = RenderState;

    open spec fn view(&self) -> RenderState {
        RenderState {
            left: seq_views(self.left@),
            right: seq_views(self.right@),
            equal: self.equal,
            out: seq_views(self.out@),
        }
    }
}

/// Copy a span buffer.
fn clone_spans(spans: &Vec<Span>) -> (r: Vec<Span>)
    ensures
        r@ == spans@,
{
    let mut r: Vec<Span> = Vec::new();
    let mut i: usize = 0;
    while i < spans.len()
        invariant
            i <= spans@.len(),
            r@ == spans@.take(i as int),
        decreases spans@.len() - i,
    {
        r.push(spans[i].clone());
        proof {
            assert(r@ =~= spans@.take(i + 1));
        }
        i = i + 1;
    }
    proof {
        assert(spans@.take(spans@.len() as int) =~= spans@);
    }
    r
}

/// Whether a span buffer shows any non-whitespace character.
fn spans_have_nonws(spans: &Vec<Span>) -> (r: bool)
    ensures
        r == spans_has_nonws(seq_views(spans@)),
{
    let ghost sv = seq_views(spans@);
    let mut i: usize = 0;
    while i < spans.len()
        invariant
            i <= spans@.len(),
            sv == seq_views(spans@),
            forall|a: int, b: int|
                0 <= a < i && 0 <= b < sv[a].text.len() ==> char_is_whitespace(
                    #[trigger] sv[a].text[b],
                ),
        decreases spans@.len() - i,
    {
        let s = &spans[i].text;
        let n = s.unicode_len();
        proof {
            assert(sv[i as int].text == s@);
        }
        let mut j: usize = 0;
        while j < n
            invariant
                j <= n,
                n == s@.len(),
                sv == seq_views(spans@),
                sv[i as int].text == s@,
                0 <= i < sv.len(),
                forall|b: int| 0 <= b < j ==> char_is_whitespace(#[trigger] s@[b]),
            decreases n - j,
        {
            if !is_whitespace_char(s.as_str().get_char(j)) {
                proof {
                    assert(!char_is_whitespace(sv[i as int].text[j as int]));
                    assert(spans_has_nonws(sv));
                }
                return true;
            }
            j = j + 1;
        }
        i = i + 1;
    }
    false
}

/// The visible text of a span buffer, as one string.
fn spans_to_string(spans: &Vec<Span>) -> (s: String)
    ensures
        s@ == spans_text(seq_views(spans@)),
{
    let ghost sv = seq_views(spans@);
    let mut s = String::new();
    let mut i: usize = 0;
    proof {
        assert(sv.take(0) =~= Seq::<SpanView>::empty());
    }
    while i < spans.len()
        invariant
            i <= spans@.len(),
            sv == seq_views(spans@),
            s@ == spans_text(sv.take(i as int)),
        decreases spans@.len() - i,
    {
        s.append(spans[i].text.as_str());
        proof {
            assert(sv.take(i + 1) =~= sv.take(i as int).push(sv[i as int]));
            lemma_spans_text_push(sv.take(i as int), sv[i as int]);
        }
        i = i + 1;
    }
    proof {
        assert(sv.take(sv.len() as int) =~= sv);
    }
    s
}

impl DiffLineOutput {
    /// A fresh line machine.
    pub fn new() -> (d: DiffLineOutput)
        ensures
            d@ == init_render_state(),
    {
        let d = DiffLineOutput { left: Vec::new(), right: Vec::new(), equal: true, out: Vec::new() };
        proof {
            assert(d@.left =~= Seq::<SpanView>::empty());
            assert(d@.right =~= Seq::<SpanView>::empty());
            assert(d@.out =~= Seq::<LineView>::empty());
        }
        d
    }

    /// Empty both buffers and mark the next line equal so far.
    fn clear(&mut self)
        ensures
            final(self)@ == (RenderState {
                left: Seq::<SpanView>::empty(),
                right: Seq::<SpanView>::empty(),
                equal: true,
                out: old(self)@.out,
            }),
    {
        self.left.clear();
        self.right.clear();
        self.equal = true;
        proof {
            assert(self@.left =~= Seq::<SpanView>::empty());
            assert(self@.right =~= Seq::<SpanView>::empty());
        }
    }

    /// Close the current line and start the next one.
    pub fn flush(&mut self)
        ensures
            final(self)@ == rs_flush(old(self)@),
    {
        let ghost st = self@;
        if self.equal {
            let line = spans_to_string(&self.right);
            self.out.push(OutputLine::Same { line });
            proof {
                assert(seq_views(self.out@) =~= st.out.push(
                    LineView::Same { line: spans_text(st.right) },
                ));
            }
        } else {
            let left = if spans_have_nonws(&self.left) {
                Some(clone_spans(&self.left))
            } else {
                None
            };
            let right = if spans_have_nonws(&self.right) {
                Some(clone_spans(&self.right))
            } else {
                None
            };
            let ghost lv = (LineView::Change {
                left: if spans_has_nonws(st.left) {
                    Some(st.left)
                } else {
                    None
                },
                right: if spans_has_nonws(st.right) {
                    Some(st.right)
                } else {
                    None
                },
            });
            self.out.push(OutputLine::Change { left, right });
            proof {
                assert(seq_views(self.out@) =~= st.out.push(lv));
            }
        }
        self.clear();
    }

    /// Append text both sides share.
    pub fn add_same(&mut self, line: &str)
        ensures
            final(self)@ == rs_add_same(old(self)@, line@),
    {
        let n = line.unicode_len();
        let pad = spaces_string(n);
        let ghost st = self@;
        self.left.push(Span { text: pad, mark: Markup::Plain });
        self.right.push(Span { text: line.to_owned(), mark: Markup::Plain });
        proof {
            assert(seq_views(self.left@) =~= st.left.push(
                SpanView { text: spaces(line@.len() as int), mark: Markup::Plain },
            ));
            assert(seq_views(self.right@) =~= st.right.push(
                SpanView { text: line@, mark: Markup::Plain },
            ));
        }
    }

    /// Append a mutation, padding the narrower side.
    pub fn add_mutation(&mut self, left: &str, right: &str)
        ensures
            final(self)@ == rs_add_mutation(old(self)@, left@, right@),
    {
        self.equal = false;
        let nl = left.unicode_len();
        let nr = right.unicode_len();
        let ghost st0 = self@;
        self.left.push(Span { text: left.to_owned(), mark: Markup::Removed });
        self.right.push(Span { text: right.to_owned(), mark: Markup::Added });
        proof {
            assert(seq_views(self.left@) =~= st0.left.push(
                SpanView { text: left@, mark: Markup::Removed },
            ));
            assert(seq_views(self.right@) =~= st0.right.push(
                SpanView { text: right@, mark: Markup::Added },
            ));
        }
        if nl < nr {
            let ghost st1 = seq_views(self.left@);
            let pad = spaces_string(nr - nl);
            self.left.push(Span { text: pad, mark: Markup::Plain });
            proof {
                assert(seq_views(self.left@) =~= st1.push(
                    SpanView {
                        text: spaces(right@.len() - left@.len()),
                        mark: Markup::Plain,
                    },
                ));
            }
        } else if nr < nl {
            let ghost st1 = seq_views(self.right@);
            let pad = spaces_string(nl - nr);
            self.right.push(Span { text: pad, mark: Markup::Plain });
            proof {
                assert(seq_views(self.right@) =~= st1.push(
                    SpanView {
                        text: spaces(left@.len() - right@.len()),
                        mark: Markup::Plain,
                    },
                ));
            }
        }
    }

    /// Append text only the left side has.
    pub fn insert_left(&mut self, text: &str)
        ensures
            final(self)@ == rs_insert_left(old(self)@, text@),
    {
        self.equal = false;
        let n = text.unicode_len();
        let pad = spaces_string(n);
        let ghost st = self@;
        self.left.push(Span { text: pad, mark: Markup::Plain });
        self.right.push(Span { text: text.to_owned(), mark: Markup::RemovedInsert });
        proof {
            assert(seq_views(self.left@) =~= st.left.push(
                SpanView { text: spaces(text@.len() as int), mark: Markup::Plain },
            ));
            assert(seq_views(self.right@) =~= st.right.push(
                SpanView { text: text@, mark: Markup::RemovedInsert },
            ));
        }
    }

    /// Append text only the right side has.
    pub fn insert_right(&mut self, text: &str)
        ensures
            final(self)@ == rs_insert_right(old(self)@, text@),
    {
        self.equal = false;
        let n = text.unicode_len();
        let pad = spaces_string(n);
        let ghost st = self@;
        self.left.push(Span { text: pad, mark: Markup::Plain });
        self.right.push(Span { text: text.to_owned(), mark: Markup::Added });
        proof {
            assert(seq_views(self.left@) =~= st.left.push(
                SpanView { text: spaces(text@.len() as int), mark: Markup::Plain },
            ));
            assert(seq_views(self.right@) =~= st.right.push(
                SpanView { text: text@, mark: Markup::Added },
            ));
        }
    }

    /// Copy right-side whitespace verbatim to both buffers.
    pub fn insert_right_space(&mut self, text: &str)
        ensures
            final(self)@ == rs_insert_right_space(old(self)@, text@),
    {
        let ghost st = self@;
        self.left.push(Span { text: text.to_owned(), mark: Markup::Plain });
        self.right.push(Span { text: text.to_owned(), mark: Markup::Plain });
        proof {
            assert(seq_views(self.left@) =~= st.left.push(
                SpanView { text: text@, mark: Markup::Plain },
            ));
            assert(seq_views(self.right@) =~= st.right.push(
                SpanView { text: text@, mark: Markup::Plain },
            ));
        }
    }

    /// Append right-side whitespace, splitting on newlines: the text up
    /// to each newline is copied to both buffers and the line flushed;
    /// the final segment stays in the buffers.
    fn insert_right_whitespace(&mut self, text: &str)
        ensures
            final(self)@ == rs_insert_right_ws(old(self)@, text@),
    {
        let mut rest: &str = text;
        loop
            invariant_except_break
                rs_insert_right_ws(old(self)@, text@) == rs_insert_right_ws(self@, rest@),
            ensures
                self@ == rs_insert_right_ws(old(self)@, text@),
            decreases rest@.len(),
        {
            let n = rest.unicode_len();
            let mut k: usize = 0;
            let mut found = false;
            loop
                invariant_except_break
                    !found,
                invariant
                    k <= n,
                    n == rest@.len(),
                    forall|b: int| 0 <= b < k ==> #[trigger] rest@[b] != '\n',
                ensures
                    k <= n,
                    n == rest@.len(),
                    forall|b: int| 0 <= b < k ==> #[trigger] rest@[b] != '\n',
                    found ==> k < n && rest@[k as int] == '\n',
                    !found ==> k == n,
                decreases n - k,
            {
                if k >= n {
                    break ;
                }
                if rest.get_char(k) == '\n' {
                    found = true;
                    break ;
                }
                k = k + 1;
            }
            if found {
                proof {
                    lemma_find_newline_exact(rest@, k as int);
                }
                let first = rest.substring_char(0, k);
                self.insert_right_space(first);
                self.flush();
                let tail = rest.substring_char(k + 1, n);
                proof {
                    assert(first@ =~= rest@.take(k as int));
                    assert(tail@ =~= rest@.skip(k + 1));
                }
                rest = tail;
            } else {
                proof {
                    lemma_find_newline_none(rest@);
                }
                self.insert_right_space(rest);
                break ;
            }
        }
    }

    /// The finished lines.
    pub fn output(self) -> (r: Vec<OutputLine>)
        ensures
            seq_views(r@) == self@.out,
    {
        self.out
    }
}

impl Alignment {
    /// Render the script into output lines.
    pub fn output_lines(&self) -> (lines: Vec<OutputLine>)
        ensures
            seq_views(lines@) == spec_output_lines(seq_views(self.operations@)),
    {
        let ghost opsv = seq_views(self.operations@);
        let mut output = DiffLineOutput::new();
        let mut prev_was_space = true;
        let mut i: usize = 0;
        proof {
            assert(opsv.take(0) =~= Seq::<AlignmentOperation<TokenView>>::empty());
        }
        let n = self.operations.len();
        while i < n
            invariant
                i <= n,
                n == self.operations@.len(),
                opsv == seq_views(self.operations@),
                render_fold(opsv.take(i as int)) == (RenderStep {
                    state: output@,
                    prev_space: prev_was_space,
                }),
            decreases n - i,
        {
            let op = &self.operations[i];
            proof {
                assert(opsv.take(i + 1).drop_last() =~= opsv.take(i as int));
                assert(opsv.take(i + 1).last() == op@);
            }
            match op {
                AlignmentOperation::Mutation { left, right } => {
                    if left.text == right.text {
                        output.add_same(right.text.as_str());
                    } else {
                        output.add_mutation(left.text.as_str(), right.text.as_str());
                    }
                    prev_was_space = false;
                },
                AlignmentOperation::InsertLeft { left } => {
                    if left.is_whitespace() {
                        if !prev_was_space {
                            proof {
                                reveal_strlit(" ");
                                assert(" "@ =~= seq![' ']);
                            }
                            output.insert_left(" ");
                        }
                        prev_was_space = true;
                    } else {
                        output.insert_left(left.text.as_str());
                        prev_was_space = false;
                    }
                },
                AlignmentOperation::InsertRight { right } => {
                    if right.is_whitespace() {
                        output.insert_right_whitespace(right.text.as_str());
                        prev_was_space = true;
                    } else {
                        output.insert_right(right.text.as_str());
                        prev_was_space = false;
                    }
                },
            }
            i = i + 1;
        }
        proof {
            assert(opsv.take(n as int) =~= opsv);
        }
        output.flush();
        output.output()
    }
}

} // verus!
