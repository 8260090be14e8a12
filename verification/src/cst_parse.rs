use vstd::prelude::*;
use vstd::utf8::{encode_utf8_valid_utf8, is_char_boundary_start_end_of_seq};

use crate::builder::{apply_skips, skips_allowed, BuildOp, CstBuilder, LelwelBuilder, RuleType, TokenType};
use crate::cst::{all_allowed, apply_all, lemma_revert_undoes_steps, stays_above, closing_extent, lemma_apply_nested, lemma_token_listed, lemma_skips_nested, token_nodes, lemma_token_nodes_concat, lemma_token_nodes_rules, CstData, CstDataView, NodeView};
use crate::parser::{Parser, ParserHooks, ParserState};
use crate::text::{bytes_of, is_slice_range, slice_chars};
use crate::types::{cst_index_limit, MarkTruncation, Span};

verus! {

/// Most tokens a parse over a [`CstData`] may have: the tree numbers its tokens and
/// rule extents with 48-bit indices, and counts its nodes in a `usize`.
pub open spec fn token_limit() -> int {
    if (usize::MAX as int) / 32 < 0x1000_0000_0000 {
        (usize::MAX as int) / 32
    } else {
        0x1000_0000_0000
    }
}

/// Bound on the load of a parser over a [`CstData`] (see `Parser::load`).
pub open spec fn load_limit() -> int {
    4 * token_limit() + 0x400
}

/// Emitting skip tokens onto a [`CstData`] appends one token node each and counts them;
/// it is allowed when their ranges are valid slices and the token count stays in range.
pub proof fn lemma_cst_skips<T: TokenType, R: RuleType>(
    m: CstDataView<T, R>,
    text: &str,
    e: Seq<(T, usize, usize)>,
)
    ensures
        apply_skips::<CstData<T, R>>(m, text, e).nodes.len() == m.nodes.len() + e.len(),
        apply_skips::<CstData<T, R>>(m, text, e).token_count == m.token_count + e.len(),
        apply_skips::<CstData<T, R>>(m, text, e).non_skip_len == m.non_skip_len,
        apply_skips::<CstData<T, R>>(m, text, e).spans == m.spans,
        apply_skips::<CstData<T, R>>(m, text, e).nodes == m.nodes + Seq::new(
            e.len(),
            |k: int| NodeView::<T, R>::Token(e[k].0, (m.token_count + k) as nat),
        ),
        (forall|i: int| 0 <= i < e.len() ==> is_slice_range(text, #[trigger] e[i].1 as int, e[i].2 as int))
            && m.token_count + e.len() <= cst_index_limit() && m.token_count + e.len() < usize::MAX
            ==> skips_allowed::<CstData<T, R>>(m, text, e),
    decreases e.len(),
{
    if e.len() > 0 {
        lemma_cst_skips(m, text, e.drop_last());
        assert(forall|i: int| 0 <= i < e.len() - 1 ==> e.drop_last()[i] == #[trigger] e[i]);
        assert(e.last() == e[e.len() - 1]);
        let f = |k: int| NodeView::<T, R>::Token(e[k].0, (m.token_count + k) as nat);
        let g = |k: int| NodeView::<T, R>::Token(e.drop_last()[k].0, (m.token_count + k) as nat);
        assert((m.nodes + Seq::new((e.len() - 1) as nat, g)).push(f(e.len() - 1)) =~= m.nodes + Seq::new(
            e.len(),
            f,
        ));
    } else {
        assert(m.nodes + Seq::new(0, |k: int| NodeView::<T, R>::Token(e[k].0, (m.token_count + k) as nat))
            =~= m.nodes);
    }
}

/// A list of token nodes lists as itself.
pub proof fn lemma_token_nodes_of_tokens<T, R>(s: Seq<NodeView<T, R>>)
    requires
        forall|k: int| 0 <= k < s.len() ==> (#[trigger] s[k]) is Token,
    ensures
        token_nodes(s) == Seq::new(s.len(), |k: int| (s[k]->Token_0, s[k]->Token_1)),
    decreases s.len(),
{
    if s.len() > 0 {
        assert forall|k: int| 0 <= k < s.len() - 1 implies (#[trigger] s.drop_last()[k]) is Token by {
            assert(s.drop_last()[k] == s[k]);
        }
        lemma_token_nodes_of_tokens(s.drop_last());
        assert(s.last() == s[s.len() - 1]);
        assert(Seq::new(s.drop_last().len(), |k: int| (s.drop_last()[k]->Token_0, s.drop_last()[k]->Token_1)).push(
            (s.last()->Token_0, s.last()->Token_1),
        ) =~= Seq::new(s.len(), |k: int| (s[k]->Token_0, s[k]->Token_1)));
    } else {
        assert(Seq::new(s.len(), |k: int| (s[k]->Token_0, s[k]->Token_1)) =~= Seq::<(T, nat)>::empty());
    }
}

/// Backtracking undoes everything since a saved state: when a [`LelwelBuilder`] over a
/// [`CstData`] restores the state `(cp, start_idx, buffer_len)` that `state` gave in `b0`, after
/// it only extended both the tree and the skip buffer (as in ordered choice), the tree,
/// the buffer and the emission frontier are those of `b0` again (the boundary of trailing
/// skip tokens is reset to the end of the nodes).
pub proof fn lemma_restore_undoes<'s, T: TokenType, R: RuleType>(
    b0: LelwelBuilder<'s, CstData<T, R>>,
    b1: LelwelBuilder<'s, CstData<T, R>>,
    b2: LelwelBuilder<'s, CstData<T, R>>,
    cp: MarkTruncation,
    start_idx: usize,
    buffer_len: usize,
)
    requires
        <CstData<T, R> as CstBuilder>::saved(b0.inner_model(), cp),
        start_idx == b0.frontier(),
        buffer_len == b0.buffered().len(),
        b0.inner_model().nodes.len() <= b1.inner_model().nodes.len(),
        b1.inner_model().nodes.take(b0.inner_model().nodes.len() as int) == b0.inner_model().nodes,
        b1.inner_model().spans == b0.inner_model().spans,
        b0.buffered().len() <= b1.buffered().len(),
        b1.buffered().take(b0.buffered().len() as int) == b0.buffered(),
        b2.inner_model() == <CstData<T, R> as CstBuilder>::apply(
            b1.inner_model(),
            BuildOp::RevertTo(cp),
        ),
        b2.buffered() == b1.buffered().take(buffer_len as int),
        b2.frontier() == start_idx,
    ensures
        b2.inner_model() == (CstDataView {
            nodes: b0.inner_model().nodes,
            spans: b0.inner_model().spans,
            token_count: b0.inner_model().token_count,
            non_skip_len: b0.inner_model().nodes.len(),
        }),
        b2.buffered() == b0.buffered(),
        b2.frontier() == b0.frontier(),
{
}

/// Backtracking a parser over a [`CstData`]: `p2` is what `set_state` makes of `p1` and
/// the diagnostics `d1` with the state `st` that `get_state` gave in `p0` (with the
/// diagnostics `d0`). If between them the parser took only allowed building steps `ops`
/// that leave the nodes of `p0` alone (adding tokens and rules, closing and inserting
/// rules after them, reverting to later states), and only added skip tokens and
/// diagnostics, then `p2` has the position, current token, tree, skip buffer, emission
/// frontier and diagnostics of `p0` again (the boundary of trailing skip tokens is reset
/// to the end of the nodes).
pub proof fn lemma_set_state_undoes<'a, T: TokenType, R: RuleType, Ctx, D>(
    p0: Parser<'a, CstData<T, R>, Ctx>,
    st: ParserState<CstData<T, R>>,
    d0: Seq<D>,
    ops: Seq<BuildOp<T, R, usize, MarkTruncation>>,
    p1: Parser<'a, CstData<T, R>, Ctx>,
    d1: Seq<D>,
    p2: Parser<'a, CstData<T, R>, Ctx>,
    d2: Seq<D>,
)
    requires
        st.saved_pos() == p0.pos,
        st.saved_current() == p0.current,
        <CstData<T, R> as CstBuilder>::saved(p0.builder.inner_model(), st.saved_checkpoint()),
        st.saved_frontier() == p0.builder.frontier(),
        st.saved_buffer_len() == p0.builder.buffered().len(),
        st.saved_diag_count() == d0.len(),
        all_allowed(p0.builder.inner_model(), ops),
        forall|i: int| 0 <= i < ops.len() ==> stays_above(#[trigger] ops[i], p0.builder.inner_model().nodes.len()),
        p1.builder.inner_model() == apply_all(p0.builder.inner_model(), ops),
        p0.builder.buffered().len() <= p1.builder.buffered().len(),
        p1.builder.buffered().take(p0.builder.buffered().len() as int) == p0.builder.buffered(),
        d0.len() <= d1.len(),
        d1.take(d0.len() as int) == d0,
        p2.pos == st.saved_pos(),
        p2.current == st.saved_current(),
        d2 == d1.take(st.saved_diag_count() as int),
        p2.builder.inner_model() == <CstData<T, R> as CstBuilder>::apply(
            p1.builder.inner_model(),
            BuildOp::RevertTo(st.saved_checkpoint()),
        ),
        p2.builder.buffered() == p1.builder.buffered().take(st.saved_buffer_len() as int),
        p2.builder.frontier() == st.saved_frontier(),
    ensures
        p2.pos == p0.pos,
        p2.current == p0.current,
        p2.builder.inner_model() == (CstDataView {
            nodes: p0.builder.inner_model().nodes,
            spans: p0.builder.inner_model().spans,
            token_count: p0.builder.inner_model().token_count,
            non_skip_len: p0.builder.inner_model().nodes.len(),
        }),
        p2.builder.buffered() == p0.builder.buffered(),
        p2.builder.frontier() == p0.builder.frontier(),
        d2 == d0,
{
    lemma_revert_undoes_steps(p0.builder.inner_model(), st.saved_checkpoint(), ops);
}

/// The end of the source is a valid empty slice.
pub proof fn lemma_end_slice(text: &str)
    ensures
        is_slice_range(text, bytes_of(text).len() as int, bytes_of(text).len() as int),
{
    broadcast use encode_utf8_valid_utf8;

    is_char_boundary_start_end_of_seq(bytes_of(text));
}

impl<'a, T: TokenType, R: RuleType, Ctx> Parser<'a, CstData<T, R>, Ctx> {
    /// The tree built so far.
    pub open spec fn tree_model(self) -> CstDataView<T, R> {
        self.builder.inner_model()
    }

    /// A measure of the resources used: the nodes of the tree, the skip tokens waiting to
    /// become nodes, and four per token still ahead. Opening a rule adds one; consuming a
    /// token takes at least three off.
    pub open spec fn load(self) -> int {
        self.tree_model().nodes.len() + self.builder.pending().len() + 4 * (self.tokens@.len() - self.pos)
    }

    /// The invariant of a parser over a [`CstData`] that does not depend on the load:
    /// its tree shape, and the current token is the one at the position.
    pub open spec fn shape(self) -> bool {
        &&& self.tree_shape()
        &&& self.current == self.token_at(self.pos as int)
    }

    /// The input fits, spans are valid slices, the buffer holds valid slices, and the open
    /// error node is a node.
    pub open spec fn tree_shape(self) -> bool {
        let m = self.tree_model();
        let text = self.builder.text();
        &&& self.tokens@.len() <= token_limit()
        &&& self.tokens@.len() <= self.token_spans().len()
        &&& self.pos <= self.tokens@.len()
        &&& self.max_offset as nat == bytes_of(text).len()
        &&& forall|i: int|
            0 <= i < self.token_spans().len() ==> is_slice_range(
                text,
                #[trigger] self.token_spans()[i].start as int,
                self.token_spans()[i].end as int,
            )
        &&& self.builder.frontier() <= self.builder.buffered().len()
        &&& forall|i: int|
            0 <= i < self.builder.buffered().len() ==> is_slice_range(
                text,
                #[trigger] self.builder.buffered()[i].1 as int,
                self.builder.buffered()[i].2 as int,
            )
        &&& m.non_skip_len <= m.nodes.len()
        &&& m.token_count <= m.nodes.len()
        &&& m.nested()
        &&& m.spans == self.token_spans()
        &&& self.open_error() matches Some(e) ==> e < m.nodes.len() && 1 <= m.non_skip_len
            && rule_of(m.nodes[e as int], R::spec_error())
        &&& self.lossless()
    }

    /// Every token consumed so far is in the tree or waiting in the buffer, in input order:
    /// the token nodes are the first input tokens, each with its own position as span
    /// index, and the pending skip tokens are the ones that follow.
    pub open spec fn lossless(self) -> bool {
        let m = self.tree_model();
        let p = self.builder.pending();
        &&& m.token_count + p.len() == self.pos
        &&& token_nodes(m.nodes) == Seq::new(m.token_count, |j: int| (self.tokens@[j], j as nat))
        &&& forall|k: int| 0 <= k < p.len() ==> (#[trigger] p[k]).0 == self.tokens@[m.token_count + k]
    }

    /// Where the next node goes once the pending skip tokens are in the tree.
    pub open spec fn entry(self) -> int {
        (self.tree_model().nodes.len() + self.builder.pending().len()) as int
    }

    /// The tokens consumed so far, each with its position as span index.
    pub open spec fn consumed(self) -> Seq<(T, nat)> {
        Seq::new(self.pos as nat, |j: int| (self.tokens@[j], j as nat))
    }

    /// The invariant of a parser over a [`CstData`]: its shape, and a load within the limit.
    pub open spec fn cst_ok(self) -> bool {
        &&& self.shape()
        &&& self.load() <= load_limit()
    }
}

impl<'a, T: TokenType, R: RuleType, Ctx: ParserHooks<CstData<T, R>>> Parser<'a, CstData<T, R>, Ctx> {
    /// The span of any token position is a valid slice.
    pub proof fn lemma_span_valid(self, i: int)
        requires
            self.tree_shape(),
        ensures
            is_slice_range(self.builder.text(), self.span_at(i).start as int, self.span_at(i).end as int),
    {
        if !(0 <= i < self.token_spans().len()) {
            lemma_end_slice(self.builder.text());
        }
    }

    /// Under the invariant with some room, the error node can be closed and the pending skip
    /// tokens emitted; the facts of the resulting tree.
    pub proof fn lemma_ready(self)
        requires
            self.tree_shape(),
            self.load() <= load_limit() + 8,
        ensures
            self.can_ready(),
            self.builder.can_flush(),
            self.ready_model().nodes.len() == self.tree_model().nodes.len() + self.builder.pending().len(),
            self.ready_model().token_count == self.tree_model().token_count + self.builder.pending().len(),
            self.ready_model().non_skip_len == self.tree_model().non_skip_len,
            self.builder.flushed_model().nodes.len() == self.tree_model().nodes.len()
                + self.builder.pending().len(),
            self.builder.flushed_model().token_count == self.tree_model().token_count
                + self.builder.pending().len(),
            self.builder.flushed_model().non_skip_len == self.tree_model().non_skip_len,
            self.ready_model().token_count == self.pos,
            self.builder.flushed_model().token_count == self.pos,
            token_nodes(self.ready_model().nodes) == self.consumed(),
            token_nodes(self.builder.flushed_model().nodes) == self.consumed(),
            self.ready_model().nested(),
            self.builder.flushed_model().nested(),
            self.ready_model().spans == self.tree_model().spans,
            self.builder.flushed_model().spans == self.tree_model().spans,
            self.error_closed().nested(),
            self.error_closed().non_skip_len <= self.error_closed().nodes.len(),
            forall|i: int|
                0 <= i < self.tree_model().nodes.len() ==> {
                    &&& (#[trigger] self.tree_model().nodes[i]) is Token ==> self.ready_model().nodes[i]
                        == self.tree_model().nodes[i]
                    &&& self.tree_model().nodes[i] is Rule ==> same_kind(
                        self.tree_model().nodes[i],
                        self.ready_model().nodes[i],
                    )
                    &&& self.builder.flushed_model().nodes[i] == self.tree_model().nodes[i]
                },
    {
        let p = self.builder.pending();
        let b = self.builder.buffered();
        let m = self.tree_model();
        let ec = self.error_closed();
        if let Some(e) = self.open_error() {
            lemma_token_nodes_rules(m.nodes, e as int, R::spec_error(), closing_extent(
                m.non_skip_len - 1,
                e as int,
            ));
        }
        assert(token_nodes(ec.nodes) == token_nodes(m.nodes));
        let fresh = Seq::new(
            p.len(),
            |k: int| NodeView::<T, R>::Token(p[k].0, (m.token_count + k) as nat),
        );
        lemma_token_nodes_of_tokens(fresh);
        lemma_token_nodes_concat(ec.nodes, fresh);
        lemma_token_nodes_concat(m.nodes, fresh);
        assert(Seq::new(m.token_count, |j: int| (self.tokens@[j], j as nat)) + Seq::new(
            fresh.len(),
            |k: int| (fresh[k]->Token_0, fresh[k]->Token_1),
        ) =~= self.consumed());
        assert forall|i: int| 0 <= i < p.len() implies is_slice_range(
            self.builder.text(),
            #[trigger] p[i].1 as int,
            p[i].2 as int,
        ) by {
            assert(p[i] == b[self.builder.frontier() + i]);
        }
        lemma_cst_skips(self.error_closed(), self.builder.text(), p);
        lemma_cst_skips(self.tree_model(), self.builder.text(), p);
        if let Some(e) = self.open_error() {
            lemma_apply_nested(m, BuildOp::EndRule(e, R::spec_error()));
        }
        lemma_skips_nested(ec, self.builder.text(), p);
        lemma_skips_nested(m, self.builder.text(), p);
        assert forall|i: int| 0 <= i < m.nodes.len() implies {
            &&& (#[trigger] m.nodes[i]) is Token ==> self.ready_model().nodes[i] == m.nodes[i]
            &&& m.nodes[i] is Rule ==> same_kind(m.nodes[i], self.ready_model().nodes[i])
            &&& self.builder.flushed_model().nodes[i] == m.nodes[i]
        } by {
            assert(self.ready_model().nodes[i] == ec.nodes[i]);
            assert(self.builder.flushed_model().nodes[i] == m.nodes[i]);
        }
    }
}

impl<'a, T: TokenType, R: RuleType, Ctx> Parser<'a, CstData<T, R>, Ctx> {
    /// `next` has the input of `self`, a tree at least as large, and a position at least
    /// as far.
    pub open spec fn grew(self, next: Self) -> bool {
        &&& self.same_input(next)
        &&& self.tree_model().nodes.len() <= next.tree_model().nodes.len()
        &&& self.tree_model().non_skip_len <= next.tree_model().non_skip_len
        &&& self.pos <= next.pos
    }

    /// The nodes of `self` are still in place in `next`: token nodes unchanged, rule nodes
    /// still rule nodes of the same kind.
    pub open spec fn kept(self, next: Self) -> bool {
        self.kept_below(next, self.tree_model().nodes.len() as int)
    }

    /// The nodes of `self` before position `n` are still in place in `next`.
    pub open spec fn kept_below(self, next: Self, n: int) -> bool {
        forall|i: int|
            0 <= i < n && i < self.tree_model().nodes.len() ==> {
                &&& (#[trigger] self.tree_model().nodes[i]) is Token ==> next.tree_model().nodes[i]
                    == self.tree_model().nodes[i]
                &&& self.tree_model().nodes[i] is Rule ==> same_kind(
                    self.tree_model().nodes[i],
                    next.tree_model().nodes[i],
                )
            }
    }

    /// The nodes of `self` other than the one at `m` are still in place in `next`.
    pub open spec fn kept_except(self, next: Self, m: int) -> bool {
        forall|i: int|
            0 <= i < self.tree_model().nodes.len() && i != m ==> {
                &&& (#[trigger] self.tree_model().nodes[i]) is Token ==> next.tree_model().nodes[i]
                    == self.tree_model().nodes[i]
                &&& self.tree_model().nodes[i] is Rule ==> same_kind(
                    self.tree_model().nodes[i],
                    next.tree_model().nodes[i],
                )
            }
    }
}

/// Two rule nodes of the same kind.
pub open spec fn same_kind<T, R>(a: NodeView<T, R>, b: NodeView<T, R>) -> bool {
    match (a, b) {
        (NodeView::Rule(k, _), NodeView::Rule(l, _)) => k == l,
        _ => false,
    }
}

/// A rule node of kind `kind`.
pub open spec fn rule_of<T, R>(n: NodeView<T, R>, kind: R) -> bool {
    n matches NodeView::Rule(k, _) && k == kind
}

/// The parser operations over a [`CstData`], each with its effect on the shape and the load.
impl<'a, T: TokenType, R: RuleType, Ctx: ParserHooks<CstData<T, R>>> Parser<'a, CstData<T, R>, Ctx> {
    /// The skip entries that an advance buffers are valid slices.
    proof fn lemma_skip_entries_valid(self, lo: int, hi: int)
        requires
            self.tree_shape(),
            lo <= hi,
        ensures
            forall|i: int|
                0 <= i < hi - lo ==> is_slice_range(
                    self.builder.text(),
                    #[trigger] self.skip_entries(lo, hi)[i].1 as int,
                    self.skip_entries(lo, hi)[i].2 as int,
                ),
    {
        assert forall|i: int| 0 <= i < hi - lo implies is_slice_range(
            self.builder.text(),
            #[trigger] self.skip_entries(lo, hi)[i].1 as int,
            self.skip_entries(lo, hi)[i].2 as int,
        ) by {
            self.lemma_span_valid(lo + i);
        }
    }

    /// The input fits a parse over a [`CstData`]: not too many tokens, a span for each, and
    /// every span a valid slice of the source.
    pub open spec fn input_fits(self) -> bool {
        &&& self.tokens@.len() <= token_limit()
        &&& self.tokens@.len() <= self.token_spans().len()
        &&& forall|i: int|
            0 <= i < self.token_spans().len() ==> is_slice_range(
                self.builder.text(),
                #[trigger] self.token_spans()[i].start as int,
                self.token_spans()[i].end as int,
            )
    }

    /// Checks whether the input fits a parse over a [`CstData`].
    pub fn check_input(&self) -> (r: bool)
        ensures
            r == self.input_fits(),
    {
        let max32: usize = usize::MAX / 32;
        let limit: usize = if (max32 as u64) < 0x1000_0000_0000u64 {
            max32
        } else {
            0x1000_0000_0000u64 as usize
        };
        if self.tokens.len() > limit || self.tokens.len() > self.spans.len() {
            return false;
        }
        let source = self.builder.source();
        let len = source.as_bytes().len();
        let mut i: usize = 0;
        while i < self.spans.len()
            invariant
                i <= self.spans@.len(),
                source == self.builder.text(),
                len as nat == bytes_of(source).len(),
                forall|j: int|
                    0 <= j < i ==> is_slice_range(
                        source,
                        #[trigger] self.token_spans()[j].start as int,
                        self.token_spans()[j].end as int,
                    ),
            decreases self.spans@.len() - i,
        {
            let s = &self.spans[i];
            if !(s.start <= s.end && s.end <= len && source.is_char_boundary(s.start)
                && source.is_char_boundary(s.end)) {
                assert(!is_slice_range(
                    source,
                    self.token_spans()[i as int].start as int,
                    self.token_spans()[i as int].end as int,
                ));
                return false;
            }
            i += 1;
        }
        true
    }

    /// A parser just made by `new_with_context` whose input fits is ready for a parse.
    pub proof fn lemma_fresh(self)
        requires
            self.input_fits(),
            self.pos == 0,
            self.max_offset as nat == bytes_of(self.builder.text()).len(),
            self.tree_model() == <CstData<T, R> as CstBuilder>::initial(self.token_spans()),
            self.builder.buffered() == Seq::<(T, usize, usize)>::empty(),
            self.builder.frontier() == 0,
            self.open_error() is None,
        ensures
            self.tree_shape(),
            self.load() == 4 * self.tokens@.len(),
            self.tree_model().nodes.len() == 0,
            self.builder.pending().len() == 0,
    {
        assert(self.builder.pending() =~= Seq::<(T, usize, usize)>::empty());
        assert(token_nodes(Seq::<NodeView<T, R>>::empty()) =~= Seq::<(T, nat)>::empty());
        assert(Seq::new(0, |j: int| (self.tokens@[j], j as nat)) =~= Seq::<(T, nat)>::empty());
    }

    /// Opens a rule node (see [`open`](Parser::open)).
    pub(crate) fn open_rule(&mut self, diags: &mut Vec<Ctx::Diag>) -> (r: usize)
        requires
            old(self).shape(),
            old(self).load() + 1 <= load_limit() + 8,
        ensures
            final(self).ends@ == old(self).ends@,
            final(self).shape(),
            old(self).grew(*final(self)),
            old(self).kept(*final(self)),
            final(self).load() == old(self).load() + 1,
            final(self).pos == old(self).pos,
            old(self).tree_model().nodes.len() <= r < final(self).tree_model().nodes.len(),
            r == old(self).entry(),
            final(self).tree_model().nodes.len() == r + 1,
            final(self).builder.pending().len() == 0,
            final(self).tree_model().nodes[r as int] is Rule,
            1 <= final(self).tree_model().non_skip_len,
            final(self).open_error() is None,
    {
        proof {
            self.lemma_ready();
        }
        let ghost a = *self;
        let r = self.open(diags);
        proof {
            let ready = a.ready_model().nodes;
            lemma_token_nodes_rules(ready, ready.len() as int, R::spec_error(), 0);
            assert(ready.insert(ready.len() as int, NodeView::Rule(R::spec_error(), 0)) =~= ready.push(
                NodeView::Rule(R::spec_error(), 0),
            ));
            assert(self.builder.pending().len() == 0);
        }
        r
    }

    /// Opens a rule node at the earlier mark `m` (see [`open_before`](Parser::open_before)).
    pub(crate) fn open_rule_before(&mut self, m: usize, diags: &mut Vec<Ctx::Diag>) -> (r: usize)
        requires
            old(self).shape(),
            old(self).load() + 1 <= load_limit() + 8,
            m <= old(self).tree_model().nodes.len(),
        ensures
            final(self).ends@ == old(self).ends@,
            final(self).shape(),
            old(self).grew(*final(self)),
            old(self).kept_below(*final(self), m as int),
            final(self).load() == old(self).load() + 1,
            final(self).pos == old(self).pos,
            r == m,
            r < final(self).tree_model().nodes.len(),
            final(self).tree_model().nodes[r as int] is Rule,
            1 <= final(self).tree_model().non_skip_len,
            final(self).open_error() is None,
    {
        proof {
            self.lemma_ready();
        }
        let ghost a = *self;
        let r = self.open_before(m, diags);
        proof {
            let ready = a.ready_model().nodes;
            lemma_token_nodes_rules(ready, m as int, R::spec_error(), 0);
            assert(self.builder.pending().len() == 0);
        }
        r
    }

    /// Closes the rule node at `m` (see [`close`](Parser::close)).
    pub(crate) fn close_rule(&mut self, m: usize, rule: R, diags: &mut Vec<Ctx::Diag>) -> (r: usize)
        requires
            old(self).shape(),
            old(self).load() <= load_limit() + 8,
            m < old(self).tree_model().nodes.len(),
            old(self).tree_model().nodes[m as int] is Rule,
            1 <= old(self).tree_model().non_skip_len,
        ensures
            final(self).ends@ == old(self).ends@,
            r == m,
            final(self).shape(),
            old(self).grew(*final(self)),
            old(self).kept_except(*final(self), m as int),
            rule_of(final(self).tree_model().nodes[m as int], rule),
            final(self).tree_model().nodes[m as int] == NodeView::<T, R>::Rule(
                rule,
                closing_extent(old(self).tree_model().non_skip_len - 1, m as int),
            ),
            final(self).tree_model().non_skip_len == old(self).tree_model().non_skip_len,
            final(self).tree_model().nodes.len() == old(self).tree_model().nodes.len(),
            final(self).load() == old(self).load(),
            final(self).pos == old(self).pos,
            final(self).open_error() is None,
    {
        proof {
            self.lemma_ready();
        }
        let ghost a = *self;
        let r = self.close(m, rule, diags);
        proof {
            let ec = a.error_closed();
            let m0 = a.tree_model();
            if let Some(e) = a.open_error() {
                lemma_token_nodes_rules(m0.nodes, e as int, R::spec_error(), closing_extent(
                    m0.non_skip_len - 1,
                    e as int,
                ));
            }
            assert(ec.nodes[m as int] is Rule);
            lemma_token_nodes_rules(ec.nodes, m as int, rule, closing_extent(
                ec.non_skip_len - 1,
                m as int,
            ));
        }
        r
    }

    /// A mark for the current end of the tree (see [`mark`](Parser::mark)).
    pub(crate) fn mark_here(&mut self, diags: &mut Vec<Ctx::Diag>) -> (r: usize)
        requires
            old(self).shape(),
            old(self).load() <= load_limit() + 8,
        ensures
            final(self).ends@ == old(self).ends@,
            final(self).shape(),
            old(self).grew(*final(self)),
            old(self).kept(*final(self)),
            final(self).load() == old(self).load(),
            final(self).pos == old(self).pos,
            r == final(self).tree_model().nodes.len(),
            r == old(self).entry(),
            final(self).builder.pending().len() == 0,
            final(self).open_error() is None,
    {
        proof {
            self.lemma_ready();
        }
        let r = self.mark(diags);
        proof {
            assert(self.builder.pending().len() == 0);
        }
        r
    }

    /// Skipping trivia from `a` to `b` (see `init_skip`) keeps the shape and lowers the load.
    proof fn lemma_after_skip(a: Self, b: Self)
        requires
            a.tree_shape(),
            b.pos >= a.pos,
            a.pos >= a.tokens@.len() ==> b.pos == a.pos,
            a.pos < a.tokens@.len() ==> b.pos <= a.tokens@.len(),
            b.current == b.token_at(b.pos as int),
            b.builder.buffered() == a.builder.buffered() + a.skip_entries(a.pos as int, b.pos as int),
            b.builder.inner_model() == a.builder.inner_model(),
            b.builder.frontier() == a.builder.frontier(),
            b.open_error() == a.open_error(),
            a.same_input(b),
        ensures
            b.shape(),
            a.grew(b),
            a.kept(b),
            b.load() == a.load() - 3 * (b.pos - a.pos),
    {
        a.lemma_skip_entries_valid(a.pos as int, b.pos as int);
        let e = a.skip_entries(a.pos as int, b.pos as int);
        assert(b.builder.pending() =~= a.builder.pending() + e);
        assert(forall|i: int|
            0 <= i < b.builder.buffered().len() ==> #[trigger] b.builder.buffered()[i] == if i < a.builder.buffered().len() {
                a.builder.buffered()[i]
            } else {
                e[i - a.builder.buffered().len()]
            });
        assert(Seq::new(a.tree_model().token_count, |j: int| (a.tokens@[j], j as nat)) =~= Seq::new(
            b.tree_model().token_count,
            |j: int| (b.tokens@[j], j as nat),
        ));
    }

    /// One step of moving the rest of the input into the error node: the token at the
    /// position is buffered (a skip token) or added after the pending ones, and the position
    /// moves on.
    proof fn lemma_drain_step(b: Self, p: Self, token: T, span: Span)
        requires
            b.tree_shape(),
            b.load() <= load_limit() + 1,
            b.pos < b.tokens@.len(),
            token == b.tokens@[b.pos as int],
            span == b.span_at(b.pos as int),
            b.open_error() is None,
            p.pos == b.pos + 1,
            b.same_input(p),
            p.open_error() is None,
            token.spec_is_skip() ==> {
                &&& p.builder.inner_model() == b.builder.inner_model()
                &&& p.builder.buffered() == b.builder.buffered().push((token, span.start, span.end))
                &&& p.builder.frontier() == b.builder.frontier()
            },
            !token.spec_is_skip() ==> {
                &&& p.builder.inner_model() == <CstData<T, R> as CstBuilder>::apply(
                    b.builder.flushed_model(),
                    BuildOp::Token(token, slice_chars(b.builder.text(), span.start as int, span.end as int)),
                )
                &&& b.builder.flushed_into(p.builder)
            },
        ensures
            p.tree_shape(),
            p.load() <= b.load() - 3,
            b.kept(p),
            b.tree_model().nodes.len() <= p.tree_model().nodes.len(),
            b.tree_model().non_skip_len <= p.tree_model().non_skip_len,
    {
        b.lemma_ready();
        b.lemma_span_valid(b.pos as int);
        if token.spec_is_skip() {
            assert(p.builder.pending() =~= b.builder.pending().push((token, span.start, span.end)));
            assert(forall|i: int|
                0 <= i < p.builder.buffered().len() ==> #[trigger] p.builder.buffered()[i] == if i
                    < b.builder.buffered().len() {
                    b.builder.buffered()[i]
                } else {
                    (token, span.start, span.end)
                });
            assert(Seq::new(b.tree_model().token_count, |j: int| (b.tokens@[j], j as nat)) =~= Seq::new(
                p.tree_model().token_count,
                |j: int| (p.tokens@[j], j as nat),
            ));
        } else {
            let fl = b.builder.flushed_model().nodes;
            let t = NodeView::<T, R>::Token(token, b.pos as nat);
            assert(p.tree_model().nodes == fl.push(t));
            lemma_token_nodes_concat(fl, seq![t]);
            assert(seq![t].drop_last() =~= Seq::<NodeView<T, R>>::empty());
            assert(token_nodes(Seq::<NodeView<T, R>>::empty()) =~= Seq::<(T, nat)>::empty());
            assert(token_nodes(seq![t]) =~= seq![(token, b.pos as nat)]);
            assert(fl + seq![t] =~= fl.push(t));
            assert(b.consumed().push((token, b.pos as nat)) =~= Seq::new(
                p.tree_model().token_count,
                |j: int| (p.tokens@[j], j as nat),
            ));
            assert(token_nodes(fl) == b.consumed());
            assert(token_nodes(fl + seq![t]) == b.consumed() + seq![(token, b.pos as nat)]);
            assert(token_nodes(p.tree_model().nodes) == b.consumed().push((token, b.pos as nat)));
            assert(p.builder.pending().len() == 0);
        }
    }

    /// After an advance from `a` to `self`, the pending skip tokens are the ones skipped.
    proof fn lemma_after_advance(a: Self, b: Self)
        requires
            a.shape(),
            a.pos < a.tokens@.len(),
            a.moved_to(b, a.flushed_buffer()),
            b.builder.frontier() == a.flushed_frontier(),
            b.tree_model().token_count == a.pos + 1,
        ensures
            b.builder.pending() == a.skip_entries(a.pos + 1, b.pos as int),
            b.tree_model().token_count + b.builder.pending().len() == b.pos,
            forall|k: int|
                0 <= k < b.builder.pending().len() ==> (#[trigger] b.builder.pending()[k]).0
                    == b.tokens@[b.tree_model().token_count + k],
    {
        assert(b.builder.pending() =~= a.skip_entries(a.pos + 1, b.pos as int));
    }

    /// Consumes the current token (see [`advance`](Parser::advance)).
    pub(crate) fn consume(&mut self, diags: &mut Vec<Ctx::Diag>)
        requires
            old(self).shape(),
            old(self).load() <= load_limit() + 8,
            old(self).pos < old(self).tokens@.len(),
        ensures
            final(self).ends@ == old(self).ends@,
            final(self).shape(),
            old(self).grew(*final(self)),
            old(self).kept(*final(self)),
            old(self).pos < final(self).pos,
            final(self).load() <= old(self).load() - 3,
            final(self).open_error() is None,
            final(self).tree_model().nodes.len() == old(self).entry() + 1,
            final(self).tree_model().nodes.last() == NodeView::<T, R>::Token(old(self).current, old(self).pos as nat),
    {
        proof {
            self.lemma_ready();
            self.lemma_span_valid(self.pos as int);
            self.lemma_skip_entries_valid(self.pos + 1, self.tokens@.len() as int);
        }
        let ghost a = *self;
        self.advance(false, diags);
        proof {
            a.lemma_skip_entries_valid(a.pos + 1, self.pos as int);
            Self::lemma_after_advance(a, *self);
            let ready = a.ready_model().nodes;
            let t = NodeView::<T, R>::Token(a.current, a.pos as nat);
            assert(self.tree_model().nodes == ready.push(t));
            assert(self.tree_model().token_count == a.pos + 1);
            lemma_token_nodes_concat(ready, seq![t]);
            assert(seq![t].drop_last() =~= Seq::<NodeView<T, R>>::empty());
            assert(token_nodes(Seq::<NodeView<T, R>>::empty()) =~= Seq::<(T, nat)>::empty());
            assert(token_nodes(seq![t]) =~= seq![(a.current, a.pos as nat)]);
            assert(ready + seq![t] =~= ready.push(t));
            assert(a.consumed().push((a.current, a.pos as nat)) =~= Seq::new(
                (a.pos + 1) as nat,
                |j: int| (a.tokens@[j], j as nat),
            ));
            assert(Seq::new((a.pos + 1) as nat, |j: int| (a.tokens@[j], j as nat)) =~= Seq::new(
                self.tree_model().token_count,
                |j: int| (self.tokens@[j], j as nat),
            ));
            assert(token_nodes(ready) == a.consumed());
            assert(token_nodes(ready + seq![t]) == a.consumed() + seq![(a.current, a.pos as nat)]);
            assert(token_nodes(self.tree_model().nodes) == a.consumed().push((a.current, a.pos as nat)));
        }
    }

    /// Reports `diag` and consumes the current token into an error node (see
    /// [`advance_with_error`](Parser::advance_with_error)).
    pub(crate) fn consume_error(&mut self, diags: &mut Vec<Ctx::Diag>, diag: Ctx::Diag)
        requires
            old(self).shape(),
            old(self).load() + 1 <= load_limit() + 8,
            old(self).pos < old(self).tokens@.len(),
        ensures
            final(self).ends@ == old(self).ends@,
            final(self).shape(),
            old(self).grew(*final(self)),
            old(self).kept(*final(self)),
            old(self).pos < final(self).pos,
            final(self).load() <= old(self).load() - 2,
    {
        proof {
            self.lemma_ready();
            self.lemma_span_valid(self.pos as int);
        }
        let ghost a = *self;
        self.advance_with_error(diags, diag);
        proof {
            a.lemma_skip_entries_valid(a.pos + 1, self.pos as int);
            Self::lemma_after_advance(a, *self);
            let flushed = a.builder.flushed_model().nodes;
            let t = NodeView::<T, R>::Token(a.current, a.pos as nat);
            let base = a.error_start_model().nodes;
            if a.open_error() is None {
                lemma_token_nodes_rules(flushed, flushed.len() as int, R::spec_error(), 0);
                assert(flushed.insert(flushed.len() as int, NodeView::Rule(R::spec_error(), 0))
                    =~= flushed.push(NodeView::Rule(R::spec_error(), 0)));
            }
            assert(token_nodes(base) == a.consumed());
            assert(base.len() >= 0);
            assert(a.error_start_model().token_count == a.pos);
            assert(self.tree_model().nodes == base.push(t));
            assert(self.tree_model().token_count == a.pos + 1);
            lemma_token_nodes_concat(base, seq![t]);
            assert(seq![t].drop_last() =~= Seq::<NodeView<T, R>>::empty());
            assert(token_nodes(Seq::<NodeView<T, R>>::empty()) =~= Seq::<(T, nat)>::empty());
            assert(token_nodes(seq![t]) =~= seq![(a.current, a.pos as nat)]);
            assert(base + seq![t] =~= base.push(t));
            assert(a.consumed().push((a.current, a.pos as nat)) =~= Seq::new(
                (a.pos + 1) as nat,
                |j: int| (a.tokens@[j], j as nat),
            ));
            assert(Seq::new((a.pos + 1) as nat, |j: int| (a.tokens@[j], j as nat)) =~= Seq::new(
                self.tree_model().token_count,
                |j: int| (self.tokens@[j], j as nat),
            ));
            assert(token_nodes(base + seq![t]) == a.consumed() + seq![(a.current, a.pos as nat)]);
            assert(token_nodes(self.tree_model().nodes) == a.consumed().push((a.current, a.pos as nat)));
        }
    }

    /// Reports an error with the given message at the current token, unless an error is
    /// already being recovered from (see [`error`](Parser::error)).
    pub(crate) fn report(&mut self, message: &str, diags: &mut Vec<Ctx::Diag>)
        ensures
            final(self).ends@ == old(self).ends@,
            old(self).open_error() is Some || old(self).error_since_advance ==> {
                &&& final(self).error_since_advance == old(self).error_since_advance
                &&& final(diags)@ == old(diags)@
            },
            !(old(self).open_error() is Some || old(self).error_since_advance) ==> {
                &&& final(self).error_since_advance
                &&& final(diags)@.len() == old(diags)@.len() + 1
                &&& final(diags)@.drop_last() == old(diags)@
            },
            final(self).context == old(self).context,
            final(self).builder == old(self).builder,
            final(self).pos == old(self).pos,
            final(self).current == old(self).current,
            final(self).open_error() == old(self).open_error(),
            old(self).same_input(*final(self)),
    {
        let d = self.context.create_diagnostic_hook(self.span(), message.to_owned());
        self.error(diags, d);
    }
}

impl<'a, T: TokenType, R: RuleType, Ctx: ParserHooks<CstData<T, R>>> Parser<'a, CstData<T, R>, Ctx> {
    /// Parses the whole input: opens the root node, skips leading trivia, runs
    /// `start_rule`, wraps whatever input it left in an error node (reporting an error),
    /// and closes the root node over everything, trailing skip tokens included.
    #[verifier::rlimit(80)]
    pub fn parse_with<F: FnOnce(&mut Self, &mut Vec<Ctx::Diag>)>(
        self,
        start_rule: F,
        diags: &mut Vec<Ctx::Diag>,
        root: R,
    ) -> (r: CstData<T, R>)
        requires
            self.tree_shape(),
            self.load() + 1 <= load_limit(),
            forall|p: &mut Self, d: &mut Vec<Ctx::Diag>|
                mut_ref_current(p).cst_ok() && self.same_input(mut_ref_current(p)) && mut_ref_current(
                    p,
                ).load() <= self.load() + 1 ==> call_requires(start_rule, (p, d)),
            forall|p: &mut Self, d: &mut Vec<Ctx::Diag>, o: ()|
                call_ensures(start_rule, (p, d), o) ==> {
                    &&& mut_ref_future(p).cst_ok()
                    &&& mut_ref_current(p).grew(mut_ref_future(p))
                    &&& mut_ref_current(p).kept(mut_ref_future(p))
                },
        ensures
            token_nodes(r@.nodes) == Seq::new(self.tokens@.len(), |j: int| (self.tokens@[j], j as nat)),
            r@.token_count == self.tokens@.len(),
            r@.nested(),
            r@.spans == self.token_spans(),
            r@.nodes.len() <= load_limit() + 1,
            forall|i: int|
                0 <= i < r@.nodes.len() ==> (#[trigger] r@.nodes[i] matches NodeView::Token(_, t) ==> t
                    < self.tokens@.len()),
            self.tree_model().nodes.len() == 0 && self.builder.pending().len() == 0 ==> {
                &&& r@.nodes.len() >= 1
                &&& r@.nodes[0] == NodeView::<T, R>::Rule(root, (r@.nodes.len() - 1) as nat)
            },
            exists|sp: &mut Self, sd: &mut Vec<Ctx::Diag>|
                #![trigger call_ensures(start_rule, (sp, sd), ())]
                call_ensures(start_rule, (sp, sd), ()) && (mut_ref_future(sp).pos < self.tokens@.len()
                    ==> mut_ref_future(sp).entry() < r@.nodes.len() && rule_of(
                    r@.nodes[mut_ref_future(sp).entry()],
                    R::spec_error(),
                )),
    {
        let mut p = self;
        let token_count = p.tokens.len();
        let ghost toks = p.tokens@;
        let ghost sp = p.token_spans();
        proof {
            p.lemma_ready();
        }
        let ghost a0 = p;
        let m = p.builder.start_rule();
        proof {
            let fl = a0.builder.flushed_model().nodes;
            lemma_token_nodes_rules(fl, fl.len() as int, R::spec_error(), 0);
            assert(fl.insert(fl.len() as int, NodeView::Rule(R::spec_error(), 0)) =~= fl.push(
                NodeView::Rule(R::spec_error(), 0),
            ));
            assert(p.builder.pending().len() == 0);
        }
        let ghost a1 = p;
        p.init_skip();
        proof {
            Self::lemma_after_skip(a1, p);
        }
        let ghost a15 = p;
        let ghost d15 = *diags;
        start_rule(&mut p, diags);
        proof {
            assert(exists|sp: &mut Self, sd: &mut Vec<Ctx::Diag>|
                #[trigger] call_ensures(start_rule, (sp, sd), ()) && mut_ref_future(sp) == p);
        }
        let ghost sp_w = choose|sp: &mut Self, sd: &mut Vec<Ctx::Diag>|
            #[trigger] call_ensures(start_rule, (sp, sd), ()) && mut_ref_future(sp) == p;
        let ghost q_entry = p.entry();
        let ghost q_pos = p.pos;
        proof {
            p.lemma_ready();
            assert(a15.tree_model().nodes[m as int] is Rule);
            assert(p.tree_model().nodes[m as int] is Rule);
        }
        let ghost a2 = p;
        p.close_error_node(diags);
        proof {
            if let Some(e) = a2.open_error() {
                let n2 = a2.tree_model();
                lemma_token_nodes_rules(n2.nodes, e as int, R::spec_error(), closing_extent(
                    n2.non_skip_len - 1,
                    e as int,
                ));
            }
            assert(p.tree_model().nodes[m as int] is Rule);
        }
        if p.pos != token_count {
            let d = p.context.create_diagnostic_hook(
                p.span(),
                "invalid syntax, expected: <end of file>".to_owned(),
            );
            p.error(diags, d);
            proof {
                p.lemma_ready();
            }
            let ghost a3 = p;
            assert(a3.entry() == q_entry);
            let error_tree = p.builder.start_rule();
            assert(error_tree == q_entry);
            proof {
                let fl = a3.builder.flushed_model().nodes;
                lemma_token_nodes_rules(fl, fl.len() as int, R::spec_error(), 0);
                assert(fl.insert(fl.len() as int, NodeView::Rule(R::spec_error(), 0)) =~= fl.push(
                    NodeView::Rule(R::spec_error(), 0),
                ));
                assert(p.builder.pending().len() == 0);
            }
            while p.pos < token_count
                invariant
                    p.tree_shape(),
                    p.load() <= load_limit() + 1,
                    token_count == p.tokens@.len(),
                    m < error_tree < p.tree_model().nodes.len(),
                    p.tree_model().nodes[m as int] is Rule,
                    p.tree_model().nodes[error_tree as int] is Rule,
                    1 <= p.tree_model().non_skip_len,
                    p.open_error() is None,
                    p.tokens@ == toks,
                    p.token_spans() == sp,
                decreases token_count - p.pos,
            {
                let token = p.tokens[p.pos];
                let s = &p.spans[p.pos];
                let span = Span { start: s.start, end: s.end };
                proof {
                    p.lemma_ready();
                    p.lemma_span_valid(p.pos as int);
                }
                let ghost b = p;
                p.builder.advance(token, token.is_skip(), span);
                p.pos += 1;
                proof {
                    Self::lemma_drain_step(b, p, token, span);
                }
            }
            let ghost a4 = p;
            p.builder.end_rule(error_tree, R::error());
            proof {
                let n4 = a4.tree_model();
                lemma_token_nodes_rules(n4.nodes, error_tree as int, R::spec_error(), closing_extent(
                    n4.non_skip_len - 1,
                    error_tree as int,
                ));
            }
            assert(rule_of(p.tree_model().nodes[error_tree as int], R::spec_error()));
            if let Some(nr) = p.builder.node_ref(error_tree) {
                p.context.create_node_error_hook(p.builder.inner(), nr, diags);
            }
            assert(rule_of(p.tree_model().nodes[error_tree as int], R::spec_error()));
            assert(error_tree < p.tree_model().nodes.len());
            assert(m < error_tree);
        }
        assert(q_pos < token_count ==> q_entry < p.tree_model().nodes.len() && q_entry != m
            && rule_of(p.tree_model().nodes[q_entry], R::spec_error()));
        proof {
            p.lemma_ready();
        }
        let ghost a5 = p;
        let closed = p.builder.end_rule_root(m, root);
        proof {
            let fl = a5.builder.flushed_model();
            assert(a5.tree_model().nodes[m as int] is Rule);
            assert(fl.nodes[m as int] is Rule);
            lemma_token_nodes_rules(fl.nodes, m as int, root, closing_extent(fl.nodes.len() - 1, m as int));
            assert(a5.pos == token_count);
            assert(a5.tokens@ == toks);
            assert(a5.consumed() =~= Seq::new(toks.len(), |j: int| (toks[j], j as nat)));
        }
        proof {
            let fl = a5.builder.flushed_model();
            assert(p.tree_model().nodes == fl.nodes.update(
                m as int,
                NodeView::Rule(root, closing_extent(fl.nodes.len() - 1, m as int)),
            ));
            assert(token_nodes(p.tree_model().nodes) == token_nodes(fl.nodes));
            assert(token_nodes(fl.nodes) == a5.consumed());
            assert(a5.token_spans() == sp);
            assert(p.tree_model().spans == sp);
        }
        let ghost a6 = p.builder.inner_model();
        if let Some(nr) = p.builder.node_ref(closed) {
            p.context.create_node(p.builder.inner(), root, nr, diags);
        }
        assert(p.builder.inner_model() == a6);
        proof {
            let fin = p.builder.inner_model();
            assert forall|i: int|
                0 <= i < fin.nodes.len() implies (#[trigger] fin.nodes[i] matches NodeView::Token(_, t)
                ==> t < toks.len()) by {
                if fin.nodes[i] is Token {
                    lemma_token_listed(fin.nodes, i);
                }
            }
        }
        p.builder.finish()
    }
}

} // verus!
