use vstd::prelude::*;

use crate::builder::{apply_skips, skips_allowed, BuildOp, CstBuilder, LelwelBuilder, RuleType, TokenType};
use crate::text::{is_slice_range, slice_chars};
use crate::types::{NodeRef, Span};

verus! {

/// The tokens of `s` that are not skip tokens, in order.
pub open spec fn non_skip<T: TokenType>(s: Seq<T>) -> Seq<T>
    decreases s.len(),
{
    if s.len() == 0 {
        seq![]
    } else if s.last().spec_is_skip() {
        non_skip(s.drop_last())
    } else {
        non_skip(s.drop_last()).push(s.last())
    }
}

/// Filtering skip tokens distributes over concatenation.
pub proof fn lemma_non_skip_concat<T: TokenType>(a: Seq<T>, b: Seq<T>)
    ensures
        non_skip(a + b) == non_skip(a) + non_skip(b),
    decreases b.len(),
{
    if b.len() == 0 {
        assert(a + b =~= a);
        assert(non_skip(a) + non_skip(b) =~= non_skip(a));
    } else {
        assert((a + b).drop_last() =~= a + b.drop_last());
        assert((a + b).last() == b.last());
        lemma_non_skip_concat(a, b.drop_last());
        if b.last().spec_is_skip() {
        } else {
            assert(non_skip(a) + non_skip(b.drop_last()).push(b.last()) =~= (non_skip(a) + non_skip(
                b.drop_last(),
            )).push(b.last()));
        }
    }
}

/// One more token at the end of a run.
pub proof fn lemma_non_skip_extend<T: TokenType>(s: Seq<T>, lo: int, hi: int)
    requires
        0 <= lo <= hi < s.len(),
    ensures
        non_skip(s.subrange(lo, hi + 1)) == if s[hi].spec_is_skip() {
            non_skip(s.subrange(lo, hi))
        } else {
            non_skip(s.subrange(lo, hi)).push(s[hi])
        },
{
    assert(s.subrange(lo, hi + 1).drop_last() =~= s.subrange(lo, hi));
}

/// The first token that is not a skip token, counting from a position that holds one,
/// is that token: peeking with no lookahead gives the current token.
pub proof fn lemma_peek_first<T: TokenType>(tokens: Seq<T>, pos: int)
    requires
        0 <= pos < tokens.len(),
        !tokens[pos].spec_is_skip(),
    ensures
        non_skip(tokens.subrange(pos, tokens.len() as int)).len() > 0,
        non_skip(tokens.subrange(pos, tokens.len() as int))[0] == tokens[pos],
{
    let one = tokens.subrange(pos, pos + 1);
    let rest = tokens.subrange(pos + 1, tokens.len() as int);
    lemma_non_skip_concat(one, rest);
    assert(one + rest =~= tokens.subrange(pos, tokens.len() as int));
    assert(one.drop_last() =~= Seq::<T>::empty());
    assert(non_skip(Seq::<T>::empty()).len() == 0);
    assert(non_skip(one) =~= seq![tokens[pos]]);
}

/// Hooks through which a parser calls back into the code that uses it.
///
/// The hooks are implemented by the parser's context, which is the only part of the
/// parser they may change; the tree built so far is lent to the node hooks for reading.
pub trait ParserHooks<B: CstBuilder>: Sized {
    type Diag;

    /// Produces all tokens of `source` with their spans.
    fn create_tokens_hook(
        ctx: &mut Self,
        source: &str,
        diags: &mut Vec<Self::Diag>,
    ) -> (Vec<B::Token>, Vec<Span>);

    /// Makes a diagnostic for `span` with the given message.
    fn create_diagnostic_hook(&self, span: Span, message: String) -> Self::Diag;

    /// Whether an ordinary token is to be skipped like trivia.
    fn predicate_skip_hook(&self, _token: B::Token) -> (r: bool)
        default_ensures
            !r,
    {
        false
    }

    /// Called when a rule node has been closed.
    fn create_node(
        &mut self,
        _tree: &B,
        _rule: B::Rule,
        _node_ref: NodeRef,
        _diags: &mut Vec<Self::Diag>,
    ) {
    }

    /// Called when an error node has been closed.
    fn create_node_error_hook(&mut self, _tree: &B, _node_ref: NodeRef, _diags: &mut Vec<Self::Diag>) {
    }

    /// Called for each rule node that a backtrack removes.
    fn delete_node(&mut self, _rule: B::Rule, _node_ref: NodeRef) {
    }
}

/// The diagnostic type of a parser.
pub trait ParserArgs {
    type Diag;
}

/// A saved parser position, to backtrack to.
pub struct ParserState<B: CstBuilder> {
    pos: usize,
    current: B::Token,
    checkpoint: B::Checkpoint,
    start_idx: usize,
    buffer_len: usize,
    diag_count: usize,
}

impl<B: CstBuilder> ParserState<B> {
    /// The saved token position.
    pub closed spec fn saved_pos(self) -> usize {
        self.pos
    }

    /// The saved current token.
    pub closed spec fn saved_current(self) -> B::Token {
        self.current
    }

    /// The saved checkpoint of the tree builder.
    pub closed spec fn saved_checkpoint(self) -> B::Checkpoint {
        self.checkpoint
    }

    /// The saved frontier of the skip buffer.
    pub closed spec fn saved_frontier(self) -> usize {
        self.start_idx
    }

    /// The saved length of the skip buffer.
    pub closed spec fn saved_buffer_len(self) -> usize {
        self.buffer_len
    }

    /// The saved number of diagnostics.
    pub closed spec fn saved_diag_count(self) -> usize {
        self.diag_count
    }
}

/// The generic parser driver: token cursor, error recovery and tree building.
pub struct Parser<'a, B: CstBuilder, Ctx> {
    pub builder: LelwelBuilder<'a, B>,
    pub tokens: Vec<B::Token>,
    pub pos: usize,
    pub current: B::Token,
    pub end_of_input: B::Token,
    pub max_offset: usize,
    pub context: Ctx,
    pub error_node: Option<B::Mark>,
    pub error_since_advance: bool,
    pub spans: Vec<Span>,
    /// The ends of the expressions parsed so far, in the order they ended: the level of
    /// the expression (such as a concatenation), the position of the token it started at,
    /// the token it stopped at, and the kind of the node it left where it started.
    pub ends: Ghost<Seq<(B::Rule, nat, B::Token, Option<B::Rule>)>>,
}

/// A copy of a list of spans.
fn copy_spans(spans: &Vec<Span>) -> (r: Vec<Span>)
    ensures
        r@ == spans@,
{
    let mut r: Vec<Span> = Vec::new();
    let mut i: usize = 0;
    while i < spans.len()
        invariant
            i <= spans@.len(),
            r@ == spans@.take(i as int),
        decreases spans@.len() - i,
    {
        let s = &spans[i];
        r.push(Span { start: s.start, end: s.end });
        assert(spans@.take(i + 1) =~= spans@.take(i as int).push(spans@[i as int]));
        i += 1;
    }
    assert(spans@.take(i as int) =~= spans@);
    r
}

impl<'a, B: CstBuilder, Ctx: ParserHooks<B>> ParserArgs for Parser<'a, B, Ctx> {
    type Diag = Ctx::Diag;
}

impl<'a, B, Ctx> Parser<'a, B, Ctx> where B: CstBuilder, B::Token: TokenType, Ctx: ParserHooks<B> {
    /// `t` is stepped over as trivia: a skip token, or one the context's
    /// `predicate_skip_hook` accepted.
    pub open spec fn skips(self, t: B::Token) -> bool {
        t.spec_is_skip() || call_ensures(Ctx::predicate_skip_hook, (&self.context, t), true)
    }

    /// Skipping stops at `t`: it is no skip token and the context's `predicate_skip_hook`
    /// turned it down.
    pub open spec fn stops_at(self, t: B::Token) -> bool {
        !t.spec_is_skip() && call_ensures(Ctx::predicate_skip_hook, (&self.context, t), false)
    }
}

impl<'a, B: CstBuilder, Ctx> Parser<'a, B, Ctx> {
    /// The spans of the tokens.
    pub open spec fn token_spans(self) -> Seq<Span> {
        self.spans@
    }

    /// The open error node, if any.
    pub open spec fn open_error(self) -> Option<B::Mark> {
        self.error_node
    }

    /// The span of token `i`; an empty span at the end of the input past the last span.
    pub open spec fn span_at(self, i: int) -> Span {
        if 0 <= i < self.token_spans().len() {
            self.token_spans()[i]
        } else {
            Span { start: self.max_offset, end: self.max_offset }
        }
    }

    /// Token `i`, or the end-of-input token past the last token.
    pub open spec fn token_at(self, i: int) -> B::Token {
        if 0 <= i < self.tokens@.len() {
            self.tokens@[i]
        } else {
            self.end_of_input
        }
    }

    /// The buffer entries for the skipped tokens at positions `lo..hi`.
    pub open spec fn skip_entries(self, lo: int, hi: int) -> Seq<(B::Token, usize, usize)> {
        Seq::new(
            (hi - lo) as nat,
            |k: int| (self.tokens@[lo + k], self.span_at(lo + k).start, self.span_at(lo + k).end),
        )
    }

    /// The text of the token at position `i`.
    pub open spec fn text_at(self, i: int) -> Seq<char> {
        slice_chars(self.builder.text(), self.span_at(i).start as int, self.span_at(i).end as int)
    }

    /// `next` has the same input as `self`: tokens, spans, source and end token.
    pub open spec fn same_input(self, next: Self) -> bool {
        &&& next.tokens@ == self.tokens@
        &&& next.token_spans() == self.token_spans()
        &&& next.end_of_input == self.end_of_input
        &&& next.max_offset == self.max_offset
        &&& next.builder.text() == self.builder.text()
        &&& next.builder.ordered() == self.builder.ordered()
    }

    /// The state of the tree builder once the open error node, if any, is closed.
    pub open spec fn error_closed(self) -> B::Model
        where
            B::Rule: RuleType,
    {
        match self.open_error() {
            Some(m) => B::apply(self.builder.inner_model(), BuildOp::EndRule(m, B::Rule::spec_error())),
            None => self.builder.inner_model(),
        }
    }

    /// Closing the open error node, if any, is allowed.
    pub open spec fn can_close_error(self) -> bool
        where
            B::Rule: RuleType,
    {
        self.open_error() matches Some(m) ==> B::allows(
            self.builder.inner_model(),
            BuildOp::EndRule(m, B::Rule::spec_error()),
        )
    }

    /// Closing the error node and then emitting the pending skip tokens is allowed.
    pub open spec fn can_ready(self) -> bool
        where
            B::Rule: RuleType,
    {
        &&& self.can_close_error()
        &&& self.builder.frontier() <= self.builder.buffered().len()
        &&& skips_allowed::<B>(self.error_closed(), self.builder.text(), self.builder.pending())
    }

    /// The state of the tree builder after closing the error node and emitting the
    /// pending skip tokens.
    pub open spec fn ready_model(self) -> B::Model
        where
            B::Rule: RuleType,
    {
        apply_skips::<B>(self.error_closed(), self.builder.text(), self.builder.pending())
    }

    /// The state of the tree builder that the token of a regular advance is added to: the
    /// error node is closed first unless the advance is part of error recovery, then the
    /// pending skip tokens are emitted.
    pub open spec fn advance_base(self, error: bool) -> B::Model
        where
            B::Rule: RuleType,
    {
        if error {
            self.builder.flushed_model()
        } else {
            self.ready_model()
        }
    }

    /// The preconditions of an advance: emitting the pending skip tokens and then the
    /// current token is allowed, and its span is a valid slice of the source.
    pub open spec fn can_advance(self, error: bool) -> bool
        where
            B::Rule: RuleType,
    {
        &&& self.pos < usize::MAX
        &&& if error {
            self.builder.can_flush()
        } else {
            self.can_ready()
        }
        &&& is_slice_range(
            self.builder.text(),
            self.span_at(self.pos as int).start as int,
            self.span_at(self.pos as int).end as int,
        )
        &&& B::allows(self.advance_base(error), BuildOp::Token(self.current, self.text_at(self.pos as int)))
    }

    /// `next` is the state after moving past the current token: it moved at least one
    /// position, buffered the skipped tokens in between after `flushed` (the buffer once
    /// the pending entries were emitted), and made the next other token current.
    pub open spec fn moved_to(self, next: Self, flushed: Seq<(B::Token, usize, usize)>) -> bool
        where
            B::Token: TokenType,
            Ctx: ParserHooks<B>,
    {
        &&& self.pos < next.pos
        &&& self.pos + 1 >= self.tokens@.len() ==> next.pos == self.pos + 1
        &&& self.pos + 1 < self.tokens@.len() ==> next.pos <= self.tokens@.len()
        &&& next.current == next.token_at(next.pos as int)
        &&& next.pos < next.tokens@.len() ==> !next.tokens@[next.pos as int].spec_is_skip()
        &&& forall|i: int| self.pos + 1 <= i < next.pos ==> next.skips(#[trigger] next.tokens@[i])
        &&& next.pos < next.tokens@.len() ==> next.stops_at(next.tokens@[next.pos as int])
        &&& next.builder.buffered() == flushed + self.skip_entries(self.pos + 1, next.pos as int)
        &&& self.same_input(next)
    }

    /// `next` has the buffer that emitting the pending skip tokens of `self` leaves, and the
    /// same input and token position.
    pub open spec fn flushed_to(self, next: Self) -> bool {
        &&& next.builder.buffered() == self.flushed_buffer()
        &&& next.builder.frontier() == self.flushed_frontier()
        &&& next.pos == self.pos
        &&& next.current == self.current
        &&& self.same_input(next)
    }

    /// `next` has the buffer, input and token position of `self`.
    pub open spec fn kept_buffer(self, next: Self) -> bool {
        &&& next.builder.buffered() == self.builder.buffered()
        &&& next.builder.frontier() == self.builder.frontier()
        &&& next.pos == self.pos
        &&& next.current == self.current
        &&& self.same_input(next)
    }

    /// The state of the tree builder that recovering from an error at the current token
    /// adds the token to: the pending skip tokens are emitted and, unless an error node
    /// is open, an error node is started.
    pub open spec fn error_start_model(self) -> B::Model
        where
            B::Rule: RuleType,
    {
        if self.open_error() is None {
            B::apply(self.builder.flushed_model(), BuildOp::StartRule)
        } else {
            self.builder.flushed_model()
        }
    }

    /// The buffer left by emitting the pending skip tokens.
    pub open spec fn flushed_buffer(self) -> Seq<(B::Token, usize, usize)> {
        if self.builder.ordered() {
            self.builder.buffered()
        } else {
            Seq::empty()
        }
    }

    /// The frontier left by emitting the pending skip tokens.
    pub open spec fn flushed_frontier(self) -> nat {
        if self.builder.ordered() {
            self.builder.buffered().len()
        } else {
            0
        }
    }
}

impl<'a, B, Ctx> Parser<'a, B, Ctx> where
    B: CstBuilder,
    B::Token: TokenType,
    B::Rule: RuleType,
    Ctx: ParserHooks<B>,
 {
    /// Whether an error is being recovered from: an error node is open or an error was
    /// reported since the last regular advance.
    pub fn active_error(&self) -> (r: bool)
        ensures
            r == (self.open_error() is Some || self.error_since_advance),
    {
        self.error_node.is_some() || self.error_since_advance
    }

    /// Reports `diag` unless an error is already being recovered from.
    pub fn error(&mut self, diags: &mut Vec<Ctx::Diag>, diag: Ctx::Diag)
        ensures
            final(self).ends@ == old(self).ends@,
            old(self).open_error() is Some || old(self).error_since_advance ==> {
                &&& final(self).error_since_advance == old(self).error_since_advance
                &&& final(diags)@ == old(diags)@
            },
            !(old(self).open_error() is Some || old(self).error_since_advance) ==> {
                &&& final(self).error_since_advance
                &&& final(diags)@ == old(diags)@.push(diag)
            },
            final(self).builder == old(self).builder,
            final(self).pos == old(self).pos,
            final(self).current == old(self).current,
            final(self).open_error() == old(self).open_error(),
            final(self).context == old(self).context,
            old(self).same_input(*final(self)),
    {
        if self.active_error() {
            return;
        }
        self.error_since_advance = true;
        diags.push(diag);
    }

    /// The span of token `i`.
    fn span_of(&self, i: usize) -> (r: Span)
        ensures
            r == self.span_at(i as int),
    {
        if i < self.spans.len() {
            let s = &self.spans[i];
            Span { start: s.start, end: s.end }
        } else {
            Span { start: self.max_offset, end: self.max_offset }
        }
    }

    /// The span of the current token.
    pub fn span(&self) -> (r: Span)
        ensures
            r == self.span_at(self.pos as int),
    {
        self.span_of(self.pos)
    }

    /// Closes the open error node, if any, and reports it to the context.
    pub fn close_error_node(&mut self, diags: &mut Vec<Ctx::Diag>)
        requires
            old(self).can_close_error(),
        ensures
            final(self).ends@ == old(self).ends@,
            final(self).builder.inner_model() == old(self).error_closed(),
            final(self).builder.buffered() == old(self).builder.buffered(),
            final(self).builder.frontier() == old(self).builder.frontier(),
            final(self).open_error() is None,
            final(self).pos == old(self).pos,
            final(self).current == old(self).current,
            final(self).error_since_advance == old(self).error_since_advance,
            old(self).same_input(*final(self)),
    {
        if let Some(error_node) = self.error_node {
            self.builder.end_rule(error_node, B::Rule::error());
            if let Some(nr) = self.builder.node_ref(error_node) {
                self.context.create_node_error_hook(self.builder.inner(), nr, diags);
            }
            self.error_node = None;
        }
    }

    /// Moves past the current token. Unless `error` is set (the token is consumed as
    /// part of error recovery), the open error node is closed and the error state
    /// cleared first. The token is added to the tree after the pending skip tokens;
    /// the skip tokens that follow it are buffered.
    pub fn advance(&mut self, error: bool, diags: &mut Vec<Ctx::Diag>)
        requires
            old(self).can_advance(error),
        ensures
            final(self).ends@ == old(self).ends@,
            final(self).builder.inner_model() == B::apply(
                old(self).advance_base(error),
                BuildOp::Token(old(self).current, old(self).text_at(old(self).pos as int)),
            ),
            old(self).moved_to(*final(self), old(self).flushed_buffer()),
            final(self).builder.frontier() == old(self).flushed_frontier(),
            final(self).open_error() == (if error {
                old(self).open_error()
            } else {
                None
            }),
            final(self).error_since_advance == (error && old(self).error_since_advance),
            error ==> final(diags)@ == old(diags)@,
    {
        if !error {
            self.close_error_node(diags);
            self.error_since_advance = false;
        }
        let span = self.span_of(self.pos);
        self.builder.advance(self.current, false, span);
        self.pos += 1;
        let ghost mid = *self;
        self.init_skip();
        assert(mid.skip_entries(mid.pos as int, self.pos as int) =~= old(self).skip_entries(
            old(self).pos + 1,
            self.pos as int,
        ));
    }

    /// Reports `diag` (unless an error is already being recovered from) and consumes the
    /// current token into an error node, opening one if none is open.
    pub fn advance_with_error(&mut self, diags: &mut Vec<Ctx::Diag>, diag: Ctx::Diag)
        requires
            old(self).pos < usize::MAX,
            old(self).builder.can_flush(),
            old(self).open_error() is None ==> B::allows(old(self).builder.flushed_model(), BuildOp::StartRule),
            is_slice_range(
                old(self).builder.text(),
                old(self).span_at(old(self).pos as int).start as int,
                old(self).span_at(old(self).pos as int).end as int,
            ),
            B::allows(
                old(self).error_start_model(),
                BuildOp::Token(old(self).current, old(self).text_at(old(self).pos as int)),
            ),
        ensures
            final(self).ends@ == old(self).ends@,
            final(self).builder.inner_model() == B::apply(
                old(self).error_start_model(),
                BuildOp::Token(old(self).current, old(self).text_at(old(self).pos as int)),
            ),
            old(self).moved_to(*final(self), old(self).flushed_buffer()),
            final(self).builder.frontier() == old(self).flushed_frontier(),
            old(self).open_error() is None ==> (final(self).open_error() matches Some(m) && B::gives_mark(
                old(self).builder.flushed_model(),
                BuildOp::StartRule,
                m,
            )),
            old(self).open_error() is Some ==> final(self).open_error() == old(self).open_error(),
            final(self).error_since_advance == (old(self).open_error() is None || old(self).error_since_advance),
            old(self).open_error() is Some || old(self).error_since_advance ==> final(diags)@ == old(diags)@,
            !(old(self).open_error() is Some || old(self).error_since_advance) ==> final(diags)@ == old(diags)@.push(diag),
    {
        self.error(diags, diag);
        if self.error_node.is_none() {
            let m = self.builder.start_rule();
            self.error_node = Some(m);
        }
        let ghost mid = *self;
        self.advance(true, diags);
        assert(mid.skip_entries(mid.pos + 1, self.pos as int) =~= old(self).skip_entries(
            old(self).pos + 1,
            self.pos as int,
        ));
    }

    /// Opens a rule node, after closing the open error node.
    pub fn open(&mut self, diags: &mut Vec<Ctx::Diag>) -> (r: B::Mark)
        requires
            old(self).can_ready(),
            B::allows(old(self).ready_model(), BuildOp::StartRule),
        ensures
            final(self).ends@ == old(self).ends@,
            final(self).builder.inner_model() == B::apply(old(self).ready_model(), BuildOp::StartRule),
            B::gives_mark(old(self).ready_model(), BuildOp::StartRule, r),
            old(self).flushed_to(*final(self)),
            final(self).open_error() is None,
            final(self).error_since_advance == old(self).error_since_advance,
    {
        self.close_error_node(diags);
        self.builder.start_rule()
    }

    /// Opens a rule node at the earlier position `mark`, after closing the open error node.
    pub fn open_before(&mut self, mark: B::Mark, diags: &mut Vec<Ctx::Diag>) -> (r: B::Mark)
        requires
            old(self).can_ready(),
            B::allows(old(self).ready_model(), BuildOp::StartRuleBefore(mark)),
        ensures
            final(self).ends@ == old(self).ends@,
            final(self).builder.inner_model() == B::apply(
                old(self).ready_model(),
                BuildOp::StartRuleBefore(mark),
            ),
            B::gives_mark(old(self).ready_model(), BuildOp::StartRuleBefore(mark), r),
            old(self).flushed_to(*final(self)),
            final(self).open_error() is None,
            final(self).error_since_advance == old(self).error_since_advance,
    {
        self.close_error_node(diags);
        self.builder.start_rule_before(mark)
    }

    /// Closes the rule node opened at `mark` as `rule` (after closing the open error node)
    /// and reports it to the context. Pending skip tokens stay outside of it.
    pub fn close(&mut self, mark: B::Mark, rule: B::Rule, diags: &mut Vec<Ctx::Diag>) -> (r: B::Mark)
        requires
            old(self).can_close_error(),
            B::allows(old(self).error_closed(), BuildOp::EndRule(mark, rule)),
        ensures
            final(self).ends@ == old(self).ends@,
            r == mark,
            final(self).builder.inner_model() == B::apply(
                old(self).error_closed(),
                BuildOp::EndRule(mark, rule),
            ),
            old(self).kept_buffer(*final(self)),
            final(self).open_error() is None,
            final(self).error_since_advance == old(self).error_since_advance,
            exists|n: Option<NodeRef>|
                #![trigger B::node_ref_of(final(self).builder.inner_model(), mark, n)]
                B::node_ref_of(final(self).builder.inner_model(), mark, n) && (n matches Some(nr) ==> exists|
                    c: &mut Ctx,
                    t: &B,
                    d: &mut Vec<Ctx::Diag>,
                |
                    #![trigger call_ensures(Ctx::create_node, (c, t, rule, nr, d), ())]
                    t.model() == final(self).builder.inner_model() && mut_ref_future(c)
                        == final(self).context && mut_ref_future(d)@ == final(diags)@
                        && call_ensures(Ctx::create_node, (c, t, rule, nr, d), ())),
    {
        self.close_error_node(diags);
        let closed = self.builder.end_rule(mark, rule);
        let n = self.builder.node_ref(closed);
        if let Some(nr) = n {
            self.context.create_node(self.builder.inner(), rule, nr, diags);
            proof {
                assert(exists|c: &mut Ctx, t: &B, d: &mut Vec<Ctx::Diag>|
                    #[trigger] call_ensures(Ctx::create_node, (c, t, rule, nr, d), ())
                    && t.model() == self.builder.inner_model() && mut_ref_future(c) == self.context
                    && mut_ref_future(d)@ == diags@);
            }
        }
        closed
    }

    /// Closes the root node opened at `mark` as `rule` (after closing the open error node),
    /// including the pending skip tokens, and reports it to the context.
    pub fn close_root(&mut self, mark: B::Mark, rule: B::Rule, diags: &mut Vec<Ctx::Diag>) -> (r: B::Mark)
        requires
            old(self).can_ready(),
            B::allows(old(self).ready_model(), BuildOp::EndRuleRoot(mark, rule)),
        ensures
            r == mark,
            final(self).builder.inner_model() == B::apply(
                old(self).ready_model(),
                BuildOp::EndRuleRoot(mark, rule),
            ),
            old(self).flushed_to(*final(self)),
            final(self).open_error() is None,
            final(self).error_since_advance == old(self).error_since_advance,
    {
        self.close_error_node(diags);
        let closed = self.builder.end_rule_root(mark, rule);
        if let Some(nr) = self.builder.node_ref(closed) {
            self.context.create_node(self.builder.inner(), rule, nr, diags);
        }
        closed
    }

    /// A mark for the current end of the tree, after closing the open error node and
    /// emitting the pending skip tokens.
    pub fn mark(&mut self, diags: &mut Vec<Ctx::Diag>) -> (r: B::Mark)
        requires
            old(self).can_ready(),
        ensures
            final(self).ends@ == old(self).ends@,
            final(self).builder.inner_model() == old(self).ready_model(),
            B::position(old(self).ready_model(), r),
            old(self).flushed_to(*final(self)),
            final(self).open_error() is None,
            final(self).error_since_advance == old(self).error_since_advance,
    {
        self.close_error_node(diags);
        self.builder.mark()
    }

    /// Saves the parser position, the builder state and the number of diagnostics.
    pub fn get_state(&self, diags: &[Ctx::Diag]) -> (r: ParserState<B>)
        ensures
            r.saved_pos() == self.pos,
            r.saved_current() == self.current,
            B::saved(self.builder.inner_model(), r.saved_checkpoint()),
            r.saved_frontier() == self.builder.frontier(),
            r.saved_buffer_len() == self.builder.buffered().len(),
            r.saved_diag_count() == diags@.len(),
    {
        let (checkpoint, start_idx, buffer_len) = self.builder.state();
        ParserState {
            pos: self.pos,
            current: self.current,
            checkpoint,
            start_idx,
            buffer_len,
            diag_count: diags.len(),
        }
    }

    /// Goes back to a saved state: the position, the diagnostics and the tree are restored,
    /// and the context is told of each rule node that is removed.
    pub fn set_state(&mut self, state: &ParserState<B>, diags: &mut Vec<Ctx::Diag>)
        requires
            B::allows(old(self).builder.inner_model(), BuildOp::RevertTo(state.saved_checkpoint())),
        ensures
            final(self).pos == state.saved_pos(),
            final(self).current == state.saved_current(),
            state.saved_diag_count() <= old(diags)@.len() ==> final(diags)@ == old(diags)@.take(
                state.saved_diag_count() as int,
            ),
            state.saved_diag_count() > old(diags)@.len() ==> final(diags)@ == old(diags)@,
            final(self).builder.inner_model() == B::apply(
                old(self).builder.inner_model(),
                BuildOp::RevertTo(state.saved_checkpoint()),
            ),
            state.saved_buffer_len() <= old(self).builder.buffered().len() ==> final(self).builder.buffered() == old(self).builder.buffered().take(state.saved_buffer_len() as int),
            state.saved_buffer_len() > old(self).builder.buffered().len() ==> final(self).builder.buffered()
                == old(self).builder.buffered(),
            final(self).builder.frontier() == state.saved_frontier(),
            final(self).open_error() == old(self).open_error(),
            final(self).error_since_advance == old(self).error_since_advance,
            old(self).same_input(*final(self)),
    {
        self.pos = state.pos;
        self.current = state.current;
        diags.truncate(state.diag_count);
        let removed = self.builder.collect_removed(state.checkpoint);
        let mut i: usize = 0;
        while i < removed.len()
            invariant
                i <= removed@.len(),
                self.builder == old(self).builder,
                self.pos == state.saved_pos(),
                self.current == state.saved_current(),
                self.open_error() == old(self).open_error(),
                self.error_since_advance == old(self).error_since_advance,
                old(self).same_input(*self),
            decreases removed@.len() - i,
        {
            let (rule, nr) = removed[i];
            self.context.delete_node(rule, nr);
            i += 1;
        }
        self.builder.restore(state.checkpoint, state.start_idx, state.buffer_len);
    }

    /// The `lookahead`-th token that is not a skip token, counting from the current
    /// position; the end-of-input token if there are not that many.
    pub fn peek(&self, lookahead: usize) -> (r: B::Token)
        ensures
            r == (if self.pos <= self.tokens@.len() && lookahead < non_skip(
                self.tokens@.subrange(self.pos as int, self.tokens@.len() as int),
            ).len() {
                non_skip(self.tokens@.subrange(self.pos as int, self.tokens@.len() as int))[lookahead as int]
            } else {
                self.end_of_input
            }),
    {
        let len = self.tokens.len();
        if self.pos >= len {
            proof {
                if self.pos == len {
                    assert(self.tokens@.subrange(self.pos as int, len as int) =~= Seq::<B::Token>::empty());
                }
            }
            return self.end_of_input;
        }
        let ghost ts = self.tokens@;
        let mut j = self.pos;
        let mut seen: usize = 0;
        while j < len
            invariant
                self.pos <= j <= len == ts.len(),
                ts == self.tokens@,
                seen == non_skip(ts.subrange(self.pos as int, j as int)).len(),
                seen <= lookahead,
            decreases len - j,
        {
            let t = self.tokens[j];
            proof {
                lemma_non_skip_extend(ts, self.pos as int, j as int);
            }
            if !t.is_skip() {
                if seen == lookahead {
                    proof {
                        lemma_non_skip_concat(
                            ts.subrange(self.pos as int, j + 1),
                            ts.subrange(j + 1, len as int),
                        );
                        assert(ts.subrange(self.pos as int, j + 1) + ts.subrange(j + 1, len as int)
                            =~= ts.subrange(self.pos as int, len as int));
                    }
                    return t;
                }
                seen += 1;
            }
            j += 1;
        }
        self.end_of_input
    }

    /// The `lookbehind`-th token that is not a skip token, counting backwards from the
    /// current position (included); the end-of-input token if there are not that many.
    pub fn peek_left(&self, lookbehind: usize) -> (r: B::Token)
        ensures
            ({
                let end = if self.pos < self.tokens@.len() {
                    self.pos + 1
                } else {
                    self.tokens@.len() as int
                };
                let s = non_skip(self.tokens@.subrange(0, end));
                r == (if lookbehind < s.len() {
                    s[s.len() - 1 - lookbehind]
                } else {
                    self.end_of_input
                })
            }),
    {
        let len = self.tokens.len();
        let end = if self.pos < len {
            self.pos + 1
        } else {
            len
        };
        let ghost ts = self.tokens@;
        let mut j = end;
        let mut seen: usize = 0;
        while j > 0
            invariant
                0 <= j <= end <= len == ts.len(),
                ts == self.tokens@,
                end == (if self.pos < len {
                    self.pos + 1
                } else {
                    len as int
                }),
                seen == non_skip(ts.subrange(j as int, end as int)).len(),
                seen <= lookbehind,
            decreases j,
        {
            let t = self.tokens[j - 1];
            proof {
                let one = ts.subrange(j - 1, j as int);
                assert(one.len() == 1);
                lemma_non_skip_concat(one, ts.subrange(j as int, end as int));
                assert(one + ts.subrange(j as int, end as int) =~= ts.subrange(j - 1, end as int));
                assert(one.drop_last() =~= Seq::<B::Token>::empty());
                assert(one.last() == t);
                assert(non_skip(Seq::<B::Token>::empty()).len() == 0);
                assert(non_skip(one).len() == (if t.spec_is_skip() { 0int } else { 1int }));
            }
            if !t.is_skip() {
                if seen == lookbehind {
                    proof {
                        lemma_non_skip_concat(ts.subrange(0, j - 1), ts.subrange(j - 1, end as int));
                        assert(ts.subrange(0, j - 1) + ts.subrange(j - 1, end as int) =~= ts.subrange(
                            0,
                            end as int,
                        ));
                    }
                    return t;
                }
                seen += 1;
            }
            j -= 1;
        }
        assert(ts.subrange(0, end as int) =~= ts.subrange(j as int, end as int));
        self.end_of_input
    }

    /// Makes a parser for `source` with the given context, which produces the tokens.
    pub fn new_with_context(source: &'a str, diags: &mut Vec<Ctx::Diag>, context: Ctx) -> (r: Self)
        ensures
            r.pos == 0,
            r.current == r.end_of_input,
            r.end_of_input.spec_is_eof(),
            r.max_offset as nat == crate::text::bytes_of(source).len(),
            r.builder.inner_model() == B::initial(r.token_spans()),
            r.builder.text() == source,
            r.builder.buffered() == Seq::<(B::Token, usize, usize)>::empty(),
            r.builder.frontier() == 0,
            !r.builder.ordered(),
            r.open_error() is None,
            !r.error_since_advance,
            exists|c: &mut Ctx, d: &mut Vec<Ctx::Diag>|
                #![trigger call_ensures(Ctx::create_tokens_hook, (c, source, d), (r.tokens, r.spans))]
                mut_ref_current(c) == context && mut_ref_future(c) == r.context && mut_ref_current(d)@
                    == old(diags)@ && mut_ref_future(d)@ == final(diags)@ && call_ensures(
                    Ctx::create_tokens_hook,
                    (c, source, d),
                    (r.tokens, r.spans),
                ),
    {
        let mut ctx = context;
        let (tokens, spans) = Ctx::create_tokens_hook(&mut ctx, source, diags);
        assert(exists|c: &mut Ctx, d: &mut Vec<Ctx::Diag>|
            #[trigger] call_ensures(Ctx::create_tokens_hook, (c, source, d), (tokens, spans))
                && mut_ref_current(c) == context && mut_ref_future(c) == ctx && mut_ref_current(d)@
                == old(diags)@ && mut_ref_future(d)@ == diags@);
        let max_offset = source.as_bytes().len();
        let inner = B::new(copy_spans(&spans));
        let builder = LelwelBuilder::new(inner, source);
        let eof = B::Token::eof();
        Parser {
            current: eof,
            end_of_input: eof,
            builder,
            tokens,
            spans,
            pos: 0,
            max_offset,
            context: ctx,
            error_node: None,
            error_since_advance: false,
            ends: Ghost(Seq::empty()),
        }
    }

    /// Makes a parser for `source` with a default context.
    pub fn new(source: &'a str, diags: &mut Vec<Ctx::Diag>) -> (r: Self)
        where
            Ctx: Default,
        ensures
            r.pos == 0,
            r.current == r.end_of_input,
            r.end_of_input.spec_is_eof(),
            r.max_offset as nat == crate::text::bytes_of(source).len(),
            r.builder.inner_model() == B::initial(r.token_spans()),
            r.builder.text() == source,
            r.builder.buffered() == Seq::<(B::Token, usize, usize)>::empty(),
            r.builder.frontier() == 0,
            !r.builder.ordered(),
            r.open_error() is None,
            !r.error_since_advance,
    {
        Self::new_with_context(source, diags, Ctx::default())
    }

    /// Buffers skip tokens from the current position on and makes the first other token
    /// (or the end of input) current.
    pub(crate) fn init_skip(&mut self)
        ensures
            final(self).ends@ == old(self).ends@,
            old(self).pos <= final(self).pos,
            old(self).pos >= old(self).tokens@.len() ==> final(self).pos == old(self).pos,
            old(self).pos < old(self).tokens@.len() ==> final(self).pos <= old(self).tokens@.len(),
            final(self).current == final(self).token_at(final(self).pos as int),
            final(self).pos < final(self).tokens@.len() ==> !final(self).tokens@[final(self).pos as int].spec_is_skip(),
            forall|i: int| old(self).pos <= i < final(self).pos ==> old(self).skips(#[trigger] old(self).tokens@[i]),
            final(self).pos < final(self).tokens@.len() ==> old(self).stops_at(old(self).tokens@[final(self).pos as int]),
            final(self).builder.buffered() == old(self).builder.buffered() + old(self).skip_entries(
                old(self).pos as int,
                final(self).pos as int,
            ),
            final(self).builder.inner_model() == old(self).builder.inner_model(),
            final(self).builder.frontier() == old(self).builder.frontier(),
            final(self).open_error() == old(self).open_error(),
            final(self).error_since_advance == old(self).error_since_advance,
            final(self).context == old(self).context,
            old(self).same_input(*final(self)),
    {
        let ghost start = self.pos;
        let ghost buf0 = self.builder.buffered();
        loop
            invariant
                self.ends@ == old(self).ends@,
                start <= self.pos,
                start >= self.tokens@.len() ==> self.pos == start,
                start < self.tokens@.len() ==> self.pos <= self.tokens@.len(),
                self.builder.buffered() == buf0 + old(self).skip_entries(start as int, self.pos as int),
                self.builder.inner_model() == old(self).builder.inner_model(),
                self.builder.frontier() == old(self).builder.frontier(),
                self.open_error() == old(self).open_error(),
                self.error_since_advance == old(self).error_since_advance,
                self.context == old(self).context,
                old(self).same_input(*self),
                start == old(self).pos,
                buf0 == old(self).builder.buffered(),
                forall|i: int| start <= i < self.pos ==> old(self).skips(#[trigger] old(self).tokens@[i]),
            ensures
                forall|i: int| start <= i < self.pos ==> old(self).skips(#[trigger] old(self).tokens@[i]),
                self.pos < self.tokens@.len() ==> old(self).stops_at(old(self).tokens@[self.pos as int]),
                start <= self.pos,
                start >= self.tokens@.len() ==> self.pos == start,
                start < self.tokens@.len() ==> self.pos <= self.tokens@.len(),
                self.current == self.token_at(self.pos as int),
                self.pos < self.tokens@.len() ==> !self.tokens@[self.pos as int].spec_is_skip(),
                self.builder.buffered() == buf0 + old(self).skip_entries(start as int, self.pos as int),
                self.builder.inner_model() == old(self).builder.inner_model(),
                self.builder.frontier() == old(self).builder.frontier(),
                self.open_error() == old(self).open_error(),
                self.error_since_advance == old(self).error_since_advance,
                self.context == old(self).context,
                old(self).same_input(*self),
            decreases self.tokens@.len() - self.pos,
        {
            if self.pos < self.tokens.len() {
                let token = self.tokens[self.pos];
                let skip = token.is_skip() || self.context.predicate_skip_hook(token);
                if skip {
                    let span = self.span_of(self.pos);
                    let ghost before = self.builder.buffered();
                    self.builder.advance(token, true, span);
                    assert(old(self).skip_entries(start as int, self.pos + 1) =~= old(self).skip_entries(
                        start as int,
                        self.pos as int,
                    ).push((token, span.start, span.end)));
                    self.pos += 1;
                } else {
                    self.current = token;
                    break;
                }
            } else {
                self.current = self.end_of_input;
                break;
            }
        }
    }
}

} // verus!
