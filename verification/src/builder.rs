use vstd::prelude::*;

use crate::text::{is_slice_range, slice_chars, str_slice};
use crate::types::{NodeRef, Span};

verus! {

/// The token kinds of a grammar.
pub trait TokenType: Copy + Clone + PartialEq + Eq + core::fmt::Debug + 'static {
    /// Whether tokens of this kind are trivia (whitespace, comments, errors).
    spec fn spec_is_skip(&self) -> bool;

    /// Whether this kind marks the end of the input.
    spec fn spec_is_eof(&self) -> bool;

    fn is_skip(&self) -> (r: bool)
        ensures
            r == self.spec_is_skip(),
    ;

    fn is_eof(&self) -> (r: bool)
        ensures
            r == self.spec_is_eof(),
    ;

    /// The default end-of-input kind.
    fn eof() -> (r: Self)
        ensures
            r.spec_is_eof(),
    ;
}

/// The rule kinds of a grammar.
pub trait RuleType: Copy + Clone + PartialEq + Eq + core::fmt::Debug + 'static {
    /// The kind given to error nodes and to rules that are not closed yet.
    spec fn spec_error() -> Self;

    fn error() -> (r: Self)
        ensures
            r == Self::spec_error(),
    ;

    /// The name of the kind in a tree listing: the text its `Debug` impl gives, unless the
    /// grammar names its rules otherwise.
    fn listing_name(&self) -> String {
        crate::outline::kind_text(self)
    }
}

/// One step of building a tree, as the contracts of [`CstBuilder`] speak of it.
pub enum BuildOp<K, R, M, C> {
    Token(K, Seq<char>),
    TokenSkip(K, Seq<char>),
    StartRule,
    EndRule(M, R),
    EndRuleRoot(M, R),
    StartRuleBefore(M),
    RevertTo(C),
}

/// Abstract interface for building a concrete syntax tree.
///
/// Each implementation gives a model of its state, and states through `allows` and
/// `apply` when a step may be taken and what it does to the model; the operations
/// are bound to that description.
pub trait CstBuilder: Sized {
    type Token: Copy;
    type Rule: Copy;
    type Mark: Copy;
    type Checkpoint: Copy;
    type Output;
    type Model;

    spec fn model(&self) -> Self::Model;

    /// The model of a fresh builder for tokens with the given spans.
    spec fn initial(spans: Seq<Span>) -> Self::Model;

    /// The step `op` may be taken in state `m` (it would not panic).
    spec fn allows(m: Self::Model, op: BuildOp<Self::Token, Self::Rule, Self::Mark, Self::Checkpoint>) -> bool;

    /// The state after the step `op` from state `m`.
    spec fn apply(m: Self::Model, op: BuildOp<Self::Token, Self::Rule, Self::Mark, Self::Checkpoint>) -> Self::Model;

    /// `r` is a mark that `start_rule` or `start_rule_before` may return for step `op` in state `m`.
    spec fn gives_mark(m: Self::Model, op: BuildOp<Self::Token, Self::Rule, Self::Mark, Self::Checkpoint>, r: Self::Mark) -> bool;

    /// `r` is a mark for the current end of the tree in state `m`.
    spec fn position(m: Self::Model, r: Self::Mark) -> bool;

    /// `cp` is a checkpoint of state `m`.
    spec fn saved(m: Self::Model, cp: Self::Checkpoint) -> bool;

    /// `rules` lists the rule nodes that reverting state `m` to `cp` removes.
    spec fn removed(m: Self::Model, cp: Self::Checkpoint, rules: Seq<(Self::Rule, NodeRef)>) -> bool;

    /// `r` is what `node_ref` returns for `mark` in state `m`.
    spec fn node_ref_of(m: Self::Model, mark: Self::Mark, r: Option<NodeRef>) -> bool;

    /// `out` is the tree that `finish` returns in state `m`.
    spec fn output(m: Self::Model, out: Self::Output) -> bool;

    fn new(spans: Vec<Span>) -> (r: Self)
        ensures
            r.model() == Self::initial(spans@),
    ;

    fn token(&mut self, kind: Self::Token, text: &str)
        requires
            Self::allows(old(self).model(), BuildOp::Token(kind, text@)),
        ensures
            final(self).model() == Self::apply(old(self).model(), BuildOp::Token(kind, text@)),
    ;

    /// Like [`token`](CstBuilder::token), for a skip (trivia) token.
    fn token_skip(&mut self, kind: Self::Token, text: &str)
        requires
            Self::allows(old(self).model(), BuildOp::TokenSkip(kind, text@)),
        ensures
            final(self).model() == Self::apply(old(self).model(), BuildOp::TokenSkip(kind, text@)),
    ;

    fn start_rule(&mut self) -> (r: Self::Mark)
        requires
            Self::allows(old(self).model(), BuildOp::StartRule),
        ensures
            final(self).model() == Self::apply(old(self).model(), BuildOp::StartRule),
            Self::gives_mark(old(self).model(), BuildOp::StartRule, r),
    ;

    fn end_rule(&mut self, mark: Self::Mark, rule: Self::Rule)
        requires
            Self::allows(old(self).model(), BuildOp::EndRule(mark, rule)),
        ensures
            final(self).model() == Self::apply(old(self).model(), BuildOp::EndRule(mark, rule)),
    ;

    /// Like [`end_rule`](CstBuilder::end_rule), for the root node.
    fn end_rule_root(&mut self, mark: Self::Mark, rule: Self::Rule)
        requires
            Self::allows(old(self).model(), BuildOp::EndRuleRoot(mark, rule)),
        ensures
            final(self).model() == Self::apply(old(self).model(), BuildOp::EndRuleRoot(mark, rule)),
    ;

    fn mark(&self) -> (r: Self::Mark)
        ensures
            Self::position(self.model(), r),
    ;

    fn start_rule_before(&mut self, mark: Self::Mark) -> (r: Self::Mark)
        requires
            Self::allows(old(self).model(), BuildOp::StartRuleBefore(mark)),
        ensures
            final(self).model() == Self::apply(old(self).model(), BuildOp::StartRuleBefore(mark)),
            Self::gives_mark(old(self).model(), BuildOp::StartRuleBefore(mark), r),
    ;

    fn checkpoint(&self) -> (r: Self::Checkpoint)
        ensures
            Self::saved(self.model(), r),
    ;

    fn revert_to(&mut self, checkpoint: Self::Checkpoint)
        requires
            Self::allows(old(self).model(), BuildOp::RevertTo(checkpoint)),
        ensures
            final(self).model() == Self::apply(old(self).model(), BuildOp::RevertTo(checkpoint)),
    ;

    /// The rule nodes that [`revert_to`](CstBuilder::revert_to) with `checkpoint` would remove.
    fn removed_rules(&self, checkpoint: Self::Checkpoint) -> (r: Vec<(Self::Rule, NodeRef)>)
        ensures
            Self::removed(self.model(), checkpoint, r@),
    ;

    fn node_ref(&self, mark: Self::Mark) -> (r: Option<NodeRef>)
        ensures
            Self::node_ref_of(self.model(), mark, r),
    ;

    fn finish(self) -> (r: Self::Output)
        ensures
            Self::output(self.model(), r),
    ;
}

/// The state of `B` after emitting the buffered skip tokens `entries`, in order, from state `m`.
pub open spec fn apply_skips<B: CstBuilder>(
    m: B::Model,
    source: &str,
    entries: Seq<(B::Token, usize, usize)>,
) -> B::Model
    decreases entries.len(),
{
    if entries.len() == 0 {
        m
    } else {
        let e = entries.last();
        B::apply(
            apply_skips::<B>(m, source, entries.drop_last()),
            BuildOp::TokenSkip(e.0, slice_chars(source, e.1 as int, e.2 as int)),
        )
    }
}

/// Emitting the buffered skip tokens `entries` from state `m` takes only allowed steps on
/// valid slices of `source`.
pub open spec fn skips_allowed<B: CstBuilder>(
    m: B::Model,
    source: &str,
    entries: Seq<(B::Token, usize, usize)>,
) -> bool
    decreases entries.len(),
{
    if entries.len() == 0 {
        true
    } else {
        let e = entries.last();
        &&& skips_allowed::<B>(m, source, entries.drop_last())
        &&& is_slice_range(source, e.1 as int, e.2 as int)
        &&& B::allows(
            apply_skips::<B>(m, source, entries.drop_last()),
            BuildOp::TokenSkip(e.0, slice_chars(source, e.1 as int, e.2 as int)),
        )
    }
}

/// Every prefix of an allowed run of skips is allowed.
pub proof fn lemma_skips_allowed_prefix<B: CstBuilder>(
    m: B::Model,
    source: &str,
    entries: Seq<(B::Token, usize, usize)>,
    k: int,
)
    requires
        skips_allowed::<B>(m, source, entries),
        0 <= k <= entries.len(),
    ensures
        skips_allowed::<B>(m, source, entries.take(k)),
    decreases entries.len(),
{
    if k < entries.len() {
        assert(entries.drop_last().take(k) =~= entries.take(k));
        lemma_skips_allowed_prefix::<B>(m, source, entries.drop_last(), k);
    } else {
        assert(entries.take(k) =~= entries);
    }
}

/// Wraps a [`CstBuilder`] and buffers skip tokens.
///
/// Skip tokens are buffered and only handed to the inner builder when a non-skip token
/// arrives or a rule is opened or marked, so trailing skip tokens are left out of the
/// rule that is being closed. Closing the root rule emits them. In ordered-choice mode
/// the emitted entries stay in the buffer, so that restoring a saved state can emit
/// them again; otherwise the buffer is cleared on emission.
pub struct LelwelBuilder<'s, B: CstBuilder> {
    inner: B,
    source: &'s str,
    buffer: Vec<(B::Token, usize, usize)>,
    start_idx: usize,
    pub in_ordered_choice: bool,
}

impl<'s, B: CstBuilder> LelwelBuilder<'s, B> {
    /// State of the inner builder.
    pub closed spec fn inner_model(self) -> B::Model {
        self.inner.model()
    }

    /// The source text that token texts are taken from.
    pub closed spec fn text(self) -> &'s str {
        self.source
    }

    /// The buffered skip tokens: kind and byte range.
    pub closed spec fn buffered(self) -> Seq<(B::Token, usize, usize)> {
        self.buffer@
    }

    /// Index of the first buffered entry not yet handed to the inner builder.
    pub closed spec fn frontier(self) -> nat {
        self.start_idx as nat
    }

    /// Whether the builder is in ordered-choice mode.
    pub closed spec fn ordered(self) -> bool {
        self.in_ordered_choice
    }

    /// The buffered entries that a flush would hand to the inner builder.
    pub open spec fn pending(self) -> Seq<(B::Token, usize, usize)> {
        self.buffered().subrange(self.frontier() as int, self.buffered().len() as int)
    }

    /// A flush would not panic.
    pub open spec fn can_flush(self) -> bool {
        &&& self.frontier() <= self.buffered().len()
        &&& skips_allowed::<B>(self.inner_model(), self.text(), self.pending())
    }

    /// State of the inner builder after a flush.
    pub open spec fn flushed_model(self) -> B::Model {
        apply_skips::<B>(self.inner_model(), self.text(), self.pending())
    }

    /// The relation of the buffer before (`self`) and after (`next`) a flush, and that the
    /// source and the mode stay.
    pub open spec fn flushed_into(self, next: Self) -> bool {
        &&& next.text() == self.text()
        &&& next.ordered() == self.ordered()
        &&& if self.ordered() {
            next.buffered() == self.buffered() && next.frontier() == self.buffered().len()
        } else {
            next.buffered() == Seq::<(B::Token, usize, usize)>::empty() && next.frontier() == 0
        }
    }

    pub fn new(inner: B, source: &'s str) -> (r: Self)
        ensures
            r.inner_model() == inner.model(),
            r.text() == source,
            r.buffered() == Seq::<(B::Token, usize, usize)>::empty(),
            r.frontier() == 0,
            !r.ordered(),
    {
        LelwelBuilder { inner, source, buffer: Vec::new(), start_idx: 0, in_ordered_choice: false }
    }

    pub fn into_inner(self) -> (r: B)
        ensures
            r.model() == self.inner_model(),
    {
        self.inner
    }

    pub fn source(&self) -> (r: &'s str)
        ensures
            r == self.text(),
    {
        self.source
    }

    pub fn inner(&self) -> (r: &B)
        ensures
            r.model() == self.inner_model(),
    {
        &self.inner
    }

    pub fn node_ref(&self, mark: B::Mark) -> (r: Option<NodeRef>)
        ensures
            B::node_ref_of(self.inner_model(), mark, r),
    {
        self.inner.node_ref(mark)
    }

    /// Hands the pending skip tokens to the inner builder.
    fn flush(&mut self)
        requires
            old(self).can_flush(),
        ensures
            final(self).inner_model() == old(self).flushed_model(),
            old(self).flushed_into(*final(self)),
    {
        let ghost m0 = self.inner.model();
        let ghost entries = self.pending();
        let len = self.buffer.len();
        let mut j = self.start_idx;
        while j < len
            invariant
                self.start_idx <= j <= len == self.buffer@.len(),
                entries == self.buffer@.subrange(self.start_idx as int, len as int),
                skips_allowed::<B>(m0, self.source, entries),
                self.inner.model() == apply_skips::<B>(
                    m0,
                    self.source,
                    entries.take(j - self.start_idx),
                ),
                self.buffer@ == old(self).buffer@,
                self.source == old(self).source,
                self.start_idx == old(self).start_idx,
                self.in_ordered_choice == old(self).in_ordered_choice,
            decreases len - j,
        {
            let (kind, start, end) = self.buffer[j];
            let ghost k = j - self.start_idx;
            proof {
                lemma_skips_allowed_prefix::<B>(m0, self.source, entries, k + 1);
                assert(entries.take(k + 1).drop_last() =~= entries.take(k));
                assert(entries.take(k + 1).last() == (kind, start, end));
            }
            let text = str_slice(self.source, start, end);
            self.inner.token_skip(kind, text);
            j += 1;
        }
        assert(entries.take(len - self.start_idx) =~= entries);
        if self.in_ordered_choice {
            self.start_idx = self.buffer.len();
        } else {
            self.buffer.clear();
            self.start_idx = 0;
        }
    }

    /// Advances by one token: a skip token is buffered; otherwise the pending skip tokens
    /// are emitted first, then the token.
    pub fn advance(&mut self, kind: B::Token, skip: bool, span: Span)
        requires
            !skip ==> {
                &&& old(self).can_flush()
                &&& is_slice_range(old(self).text(), span.start as int, span.end as int)
                &&& B::allows(
                    old(self).flushed_model(),
                    BuildOp::Token(kind, slice_chars(old(self).text(), span.start as int, span.end as int)),
                )
            },
        ensures
            skip ==> {
                &&& final(self).inner_model() == old(self).inner_model()
                &&& final(self).buffered() == old(self).buffered().push((kind, span.start, span.end))
                &&& final(self).frontier() == old(self).frontier()
                &&& final(self).text() == old(self).text()
                &&& final(self).ordered() == old(self).ordered()
            },
            !skip ==> {
                &&& final(self).inner_model() == B::apply(
                    old(self).flushed_model(),
                    BuildOp::Token(kind, slice_chars(old(self).text(), span.start as int, span.end as int)),
                )
                &&& old(self).flushed_into(*final(self))
            },
    {
        if skip {
            self.buffer.push((kind, span.start, span.end));
        } else {
            self.flush();
            let text = str_slice(self.source, span.start, span.end);
            self.inner.token(kind, text);
        }
    }

    /// Opens a rule after emitting the pending skip tokens.
    pub fn start_rule(&mut self) -> (r: B::Mark)
        requires
            old(self).can_flush(),
            B::allows(old(self).flushed_model(), BuildOp::StartRule),
        ensures
            final(self).inner_model() == B::apply(old(self).flushed_model(), BuildOp::StartRule),
            B::gives_mark(old(self).flushed_model(), BuildOp::StartRule, r),
            old(self).flushed_into(*final(self)),
    {
        self.flush();
        self.inner.start_rule()
    }

    /// Closes a rule. The pending skip tokens stay buffered, so they are not part of it.
    pub fn end_rule(&mut self, mark: B::Mark, rule: B::Rule) -> (r: B::Mark)
        requires
            B::allows(old(self).inner_model(), BuildOp::EndRule(mark, rule)),
        ensures
            r == mark,
            final(self).inner_model() == B::apply(old(self).inner_model(), BuildOp::EndRule(mark, rule)),
            final(self).buffered() == old(self).buffered(),
            final(self).frontier() == old(self).frontier(),
            final(self).text() == old(self).text(),
            final(self).ordered() == old(self).ordered(),
    {
        self.inner.end_rule(mark, rule);
        mark
    }

    /// Closes the root rule after emitting the pending skip tokens, so the root holds them.
    pub fn end_rule_root(&mut self, mark: B::Mark, rule: B::Rule) -> (r: B::Mark)
        requires
            old(self).can_flush(),
            B::allows(old(self).flushed_model(), BuildOp::EndRuleRoot(mark, rule)),
        ensures
            r == mark,
            final(self).inner_model() == B::apply(
                old(self).flushed_model(),
                BuildOp::EndRuleRoot(mark, rule),
            ),
            old(self).flushed_into(*final(self)),
    {
        self.flush();
        self.inner.end_rule_root(mark, rule);
        mark
    }

    /// A mark for the current end of the tree, after emitting the pending skip tokens.
    pub fn mark(&mut self) -> (r: B::Mark)
        requires
            old(self).can_flush(),
        ensures
            final(self).inner_model() == old(self).flushed_model(),
            B::position(old(self).flushed_model(), r),
            old(self).flushed_into(*final(self)),
    {
        self.flush();
        self.inner.mark()
    }

    /// Opens a rule at an earlier mark, after emitting the pending skip tokens.
    pub fn start_rule_before(&mut self, mark: B::Mark) -> (r: B::Mark)
        requires
            old(self).can_flush(),
            B::allows(old(self).flushed_model(), BuildOp::StartRuleBefore(mark)),
        ensures
            final(self).inner_model() == B::apply(
                old(self).flushed_model(),
                BuildOp::StartRuleBefore(mark),
            ),
            B::gives_mark(old(self).flushed_model(), BuildOp::StartRuleBefore(mark), r),
            old(self).flushed_into(*final(self)),
    {
        self.flush();
        self.inner.start_rule_before(mark)
    }

    /// The whole state: a checkpoint of the inner builder, the frontier and the buffer length.
    pub fn state(&self) -> (r: (B::Checkpoint, usize, usize))
        ensures
            B::saved(self.inner_model(), r.0),
            r.1 == self.frontier(),
            r.2 == self.buffered().len(),
    {
        (self.inner.checkpoint(), self.start_idx, self.buffer.len())
    }

    /// The rule nodes that restoring `checkpoint` would remove.
    pub fn collect_removed(&self, checkpoint: B::Checkpoint) -> (r: Vec<(B::Rule, NodeRef)>)
        ensures
            B::removed(self.inner_model(), checkpoint, r@),
    {
        self.inner.removed_rules(checkpoint)
    }

    /// Restores a state saved by [`state`](LelwelBuilder::state).
    pub fn restore(&mut self, checkpoint: B::Checkpoint, start_idx: usize, buffer_len: usize)
        requires
            B::allows(old(self).inner_model(), BuildOp::RevertTo(checkpoint)),
        ensures
            final(self).inner_model() == B::apply(old(self).inner_model(), BuildOp::RevertTo(checkpoint)),
            buffer_len <= old(self).buffered().len() ==> final(self).buffered() == old(
                self,
            ).buffered().take(buffer_len as int),
            buffer_len > old(self).buffered().len() ==> final(self).buffered() == old(self).buffered(),
            final(self).frontier() == start_idx,
            final(self).text() == old(self).text(),
            final(self).ordered() == old(self).ordered(),
    {
        self.inner.revert_to(checkpoint);
        self.buffer.truncate(buffer_len);
        self.start_idx = start_idx;
    }

    pub fn finish(self) -> (r: B::Output)
        ensures
            B::output(self.inner_model(), r),
    {
        self.inner.finish()
    }
}

} // verus!
