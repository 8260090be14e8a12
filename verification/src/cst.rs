use vstd::prelude::*;
use vstd::std_specs::cmp::PartialEqSpec;

use crate::outline::{debug_quoted, joined, kind_text, line_text, listing_line, quoted_text};
use crate::text::{bytes_of, is_slice_range, slice_chars, str_slice};
use crate::builder::{apply_skips, BuildOp, CstBuilder, RuleType, TokenType};
use crate::types::{cst_index_limit, CstIndex, MarkTruncation, NodeRef, Span};

verus! {

/// A node of the flat syntax tree. A rule node is followed by its descendants;
/// its index is the number of those descendants. A token node carries the index of
/// its span.
#[derive(Debug, Copy, Clone)]
pub enum Node<T, R> {
    Rule(R, CstIndex),
    Token(T, CstIndex),
}

/// A node with its index read as a number.
pub enum NodeView<T, R> {
    Rule(R, nat),
    Token(T, nat),
}

impl<T, R> View for Node<T, R> {
    type V = NodeView<T, R>;

    open spec fn view(&self) -> NodeView<T, R> {
        match *self {
            Node::Rule(r, i) => NodeView::Rule(r, i.value()),
            Node::Token(t, i) => NodeView::Token(t, i.value()),
        }
    }
}

/// The nodes of a list, each read through its view.
pub open spec fn node_views<T, R>(nodes: Seq<Node<T, R>>) -> Seq<NodeView<T, R>> {
    nodes.map_values(|n: Node<T, R>| n@)
}

/// How many nodes after `n` belong to it.
pub open spec fn extent<T, R>(n: NodeView<T, R>) -> nat {
    match n {
        NodeView::Rule(_, k) => k,
        NodeView::Token(..) => 0,
    }
}

/// Positions of the sibling nodes that start at `p`, each followed by its descendants,
/// up to (excluding) position `end`.
pub open spec fn siblings<T, R>(nodes: Seq<NodeView<T, R>>, p: int, end: int) -> Seq<int>
    decreases if p < end { end - p } else { 0 },
{
    if 0 <= p < end {
        seq![p] + siblings(nodes, p + 1 + extent(nodes[p]), end)
    } else {
        seq![]
    }
}

/// The span index of the first token node in positions `lo..hi`.
pub open spec fn first_token<T, R>(nodes: Seq<NodeView<T, R>>, lo: int, hi: int) -> Option<nat>
    decreases hi - lo,
{
    if lo < hi {
        match nodes[lo] {
            NodeView::Token(_, i) => Some(i),
            NodeView::Rule(..) => first_token(nodes, lo + 1, hi),
        }
    } else {
        None
    }
}

/// The span index of the last token node in positions `lo..hi`.
pub open spec fn last_token<T, R>(nodes: Seq<NodeView<T, R>>, lo: int, hi: int) -> Option<nat>
    decreases hi - lo,
{
    if lo < hi {
        match nodes[hi - 1] {
            NodeView::Token(_, i) => Some(i),
            NodeView::Rule(..) => last_token(nodes, lo, hi - 1),
        }
    } else {
        None
    }
}

/// There is a token node in positions `lo..hi`.
pub open spec fn has_token<T, R>(nodes: Seq<NodeView<T, R>>, lo: int, hi: int) -> bool {
    exists|j: int| lo <= j < hi && (#[trigger] nodes[j]) is Token
}

/// A first token exists exactly when a last token does, exactly when there is a token.
pub proof fn lemma_first_last_token<T, R>(nodes: Seq<NodeView<T, R>>, lo: int, hi: int)
    ensures
        first_token(nodes, lo, hi) is Some <==> has_token(nodes, lo, hi),
        last_token(nodes, lo, hi) is Some <==> has_token(nodes, lo, hi),
    decreases hi - lo,
{
    if lo < hi {
        lemma_first_last_token(nodes, lo + 1, hi);
        lemma_first_last_token(nodes, lo, hi - 1);
        if has_token(nodes, lo, hi) {
            let j = choose|j: int| lo <= j < hi && (#[trigger] nodes[j]) is Token;
            if j != lo {
                assert(has_token(nodes, lo + 1, hi));
            }
            if j != hi - 1 {
                assert(has_token(nodes, lo, hi - 1));
            }
        }
        if has_token(nodes, lo + 1, hi) {
            let j = choose|j: int| lo + 1 <= j < hi && (#[trigger] nodes[j]) is Token;
            assert(lo <= j < hi);
        }
        if has_token(nodes, lo, hi - 1) {
            let j = choose|j: int| lo <= j < hi - 1 && (#[trigger] nodes[j]) is Token;
            assert(lo <= j < hi);
        }
    }
}

/// The last token node of `lo..hi` is the one at `j` when only rule nodes follow it there.
pub proof fn lemma_last_token_at<T, R>(nodes: Seq<NodeView<T, R>>, lo: int, hi: int, j: int)
    requires
        lo <= j < hi,
        nodes[j] is Token,
        forall|k: int| j < k < hi ==> (#[trigger] nodes[k]) is Rule,
    ensures
        nodes[j] matches NodeView::Token(_, t) && last_token(nodes, lo, hi) == Some(t),
    decreases hi - j,
{
    if j < hi - 1 {
        assert(nodes[hi - 1] is Rule);
        lemma_last_token_at(nodes, lo, hi - 1, j);
    }
}

/// The first token node of `lo..hi` is the one at `j` when only rule nodes precede it there.
pub proof fn lemma_first_token_at<T, R>(nodes: Seq<NodeView<T, R>>, lo: int, hi: int, j: int)
    requires
        lo <= j < hi,
        nodes[j] is Token,
        forall|k: int| lo <= k < j ==> (#[trigger] nodes[k]) is Rule,
    ensures
        nodes[j] matches NodeView::Token(_, t) && first_token(nodes, lo, hi) == Some(t),
    decreases j - lo,
{
    if lo < j {
        assert(nodes[lo] is Rule);
        lemma_first_token_at(nodes, lo + 1, hi, j);
    }
}

/// `lo..hi` holds no token node when all of its nodes are rule nodes.
pub proof fn lemma_no_token<T, R>(nodes: Seq<NodeView<T, R>>, lo: int, hi: int)
    requires
        forall|k: int| lo <= k < hi ==> (#[trigger] nodes[k]) is Rule,
    ensures
        first_token(nodes, lo, hi) is None,
        last_token(nodes, lo, hi) is None,
    decreases hi - lo,
{
    if lo < hi {
        assert(nodes[lo] is Rule);
        assert(nodes[hi - 1] is Rule);
        lemma_no_token(nodes, lo + 1, hi);
        lemma_no_token(nodes, lo, hi - 1);
    }
}

/// The abstract content of a [`CstData`].
pub struct CstDataView<T, R> {
    pub nodes: Seq<NodeView<T, R>>,
    pub spans: Seq<Span>,
    pub token_count: nat,
    /// Number of leading nodes that end in a non-skip token or a rule start.
    pub non_skip_len: nat,
}

impl<T, R> CstDataView<T, R> {
    /// Child positions of the node at `i`: none for a token.
    pub open spec fn children(self, i: int) -> Seq<int> {
        match self.nodes[i] {
            NodeView::Rule(_, k) => siblings(self.nodes, i + 1, i + 1 + k),
            NodeView::Token(..) => seq![],
        }
    }

    /// Reading the span of node `i` stays in bounds.
    pub open spec fn span_defined(self, i: int) -> bool {
        &&& 0 <= i < self.nodes.len()
        &&& match self.nodes[i] {
            NodeView::Token(_, t) => t < self.spans.len(),
            NodeView::Rule(_, k) => {
                &&& i + k < self.nodes.len()
                &&& first_token(self.nodes, i + 1, i + 1 + k) matches Some(f) ==> f
                    < self.spans.len()
                &&& last_token(self.nodes, i + 1, i + 1 + k) matches Some(l) ==> l
                    < self.spans.len()
                &&& last_token(self.nodes, 0, i) matches Some(b) ==> b < self.spans.len()
            },
        }
    }

    /// The source range covered by node `i`: a token's own span; for a rule, from its
    /// first to its last token, or an empty range right after the last earlier token
    /// (at 0 when there is none) when the rule holds no token.
    pub open spec fn span_of(self, i: int) -> Span {
        match self.nodes[i] {
            NodeView::Token(_, t) => self.spans[t as int],
            NodeView::Rule(_, k) => match (
                first_token(self.nodes, i + 1, i + 1 + k),
                last_token(self.nodes, i + 1, i + 1 + k),
            ) {
                (Some(f), Some(l)) => Span { start: self.spans[f as int].start, end: self.spans[l as int].end },
                _ => {
                    let offset: usize = match last_token(self.nodes, 0, i) {
                        Some(b) => self.spans[b as int].end,
                        None => 0,
                    };
                    Span { start: offset, end: offset }
                },
            },
        }
    }

    /// A token node covers exactly the source range of its own token.
    pub proof fn lemma_token_span(self, i: int)
        requires
            0 <= i < self.nodes.len(),
            self.nodes[i] is Token,
        ensures
            self.nodes[i] matches NodeView::Token(_, t) ==> self.span_of(i) == self.spans[t as int],
    {
    }

    /// A rule node that holds tokens covers the source from the start of its first token
    /// to the end of its last one; its first token node is at `a`, its last at `b`.
    pub proof fn lemma_rule_span(self, i: int, a: int, b: int)
        requires
            0 <= i < self.nodes.len(),
            self.nodes[i] is Rule,
            i + extent(self.nodes[i]) < self.nodes.len(),
            i < a <= b <= i + extent(self.nodes[i]),
            self.nodes[a] is Token,
            self.nodes[b] is Token,
            forall|k: int| i < k < a ==> (#[trigger] self.nodes[k]) is Rule,
            forall|k: int| b < k <= i + extent(self.nodes[i]) ==> (#[trigger] self.nodes[k]) is Rule,
        ensures
            (self.nodes[a], self.nodes[b]) matches (NodeView::Token(_, f), NodeView::Token(_, l))
                ==> self.span_of(i) == (Span {
                start: self.spans[f as int].start,
                end: self.spans[l as int].end,
            }),
    {
        let k = extent(self.nodes[i]);
        lemma_first_token_at(self.nodes, i + 1, i + 1 + k, a);
        lemma_last_token_at(self.nodes, i + 1, i + 1 + k, b);
    }

    /// A rule node that holds no token covers the empty range right at the end of the last
    /// token node before it, which is at `j`.
    pub proof fn lemma_empty_rule_span(self, i: int, j: int)
        requires
            0 <= j < i < self.nodes.len(),
            self.nodes[i] is Rule,
            i + extent(self.nodes[i]) < self.nodes.len(),
            forall|k: int| i < k <= i + extent(self.nodes[i]) ==> (#[trigger] self.nodes[k]) is Rule,
            self.nodes[j] is Token,
            forall|k: int| j < k < i ==> (#[trigger] self.nodes[k]) is Rule,
        ensures
            self.nodes[j] matches NodeView::Token(_, t) ==> self.span_of(i) == (Span {
                start: self.spans[t as int].end,
                end: self.spans[t as int].end,
            }),
    {
        let k = extent(self.nodes[i]);
        lemma_no_token(self.nodes, i + 1, i + 1 + k);
        lemma_last_token_at(self.nodes, 0, i, j);
    }

    /// A rule node that holds no token, with no token node before it either, covers the
    /// empty range at the start of the source.
    pub proof fn lemma_leading_empty_rule_span(self, i: int)
        requires
            0 <= i < self.nodes.len(),
            self.nodes[i] is Rule,
            i + extent(self.nodes[i]) < self.nodes.len(),
            forall|k: int| i < k <= i + extent(self.nodes[i]) ==> (#[trigger] self.nodes[k]) is Rule,
            forall|k: int| 0 <= k < i ==> (#[trigger] self.nodes[k]) is Rule,
        ensures
            self.span_of(i) == (Span { start: 0, end: 0 }),
    {
        let k = extent(self.nodes[i]);
        lemma_no_token(self.nodes, i + 1, i + 1 + k);
        lemma_no_token(self.nodes, 0, i);
    }
}

/// A syntax tree stored as a flat list of nodes in preorder, with the token spans.
#[derive(Debug, Clone)]
pub struct CstData<T, R> {
    pub(crate) spans: Vec<Span>,
    pub nodes: Vec<Node<T, R>>,
    pub(crate) token_count: usize,
    pub(crate) non_skip_len: usize,
}

impl<T, R> View for CstData<T, R> {
    type V = CstDataView<T, R>;

    closed spec fn view(&self) -> CstDataView<T, R> {
        CstDataView {
            nodes: node_views(self.nodes@),
            spans: self.spans@,
            token_count: self.token_count as nat,
            non_skip_len: self.non_skip_len as nat,
        }
    }
}

/// The remaining children of a node, in order.
pub struct CstChildren<'a, T, R> {
    nodes: &'a [Node<T, R>],
    next_pos: usize,
    end: usize,
}

impl<'a, T, R> Default for CstChildren<'a, T, R> {
    /// An iterator that yields nothing.
    fn default() -> (r: Self)
        ensures
            r.remaining() == Seq::<int>::empty(),
    {
        let nodes: &[Node<T, R>] = &[];
        CstChildren { nodes, next_pos: 0, end: 0 }
    }
}

impl<'a, T, R> CstChildren<'a, T, R> {
    #[verifier::type_invariant]
    closed spec fn in_bounds(self) -> bool {
        self.end <= self.nodes@.len()
    }

    /// Positions of the children not yet handed out.
    pub closed spec fn remaining(self) -> Seq<int> {
        siblings(node_views(self.nodes@), self.next_pos as int, self.end as int)
    }


    /// The next child, if any.
    pub fn next(&mut self) -> (r: Option<NodeRef>)
        ensures
            old(self).remaining().len() == 0 ==> r is None && final(self).remaining()
                == old(self).remaining(),
            old(self).remaining().len() > 0 ==> r == Some(NodeRef(old(self).remaining()[0] as usize))
                && final(self).remaining() == old(self).remaining().drop_first(),
    {
        proof {
            use_type_invariant(&*self);
        }
        let ghost views = node_views(self.nodes@);
        if self.next_pos < self.end {
            let p = self.next_pos;
            let ext: usize = match self.nodes[p] {
                Node::Rule(_, k) => k.get(),
                Node::Token(..) => 0,
            };
            assert(ext == extent(views[p as int]));
            let room = self.end - p - 1;
            assert(siblings(views, p as int, self.end as int) == seq![p as int] + siblings(
                views,
                p + 1 + ext,
                self.end as int,
            ));
            if ext > room {
                self.next_pos = self.end;
            } else {
                self.next_pos = p + 1 + ext;
            }
            assert(old(self).remaining() == seq![p as int] + self.remaining());
            Some(NodeRef(p))
        } else {
            None
        }
    }
}

impl<T, R> CstData<T, R> {
    /// The children of the node `node_ref`.
    pub fn children(&self, node_ref: NodeRef) -> (r: CstChildren<'_, T, R>)
        requires
            node_ref.0 < self@.nodes.len(),
            self@.nodes[node_ref.0 as int] is Rule ==> node_ref.0 + extent(
                self@.nodes[node_ref.0 as int],
            ) < self@.nodes.len(),
        ensures
            r.remaining() == self@.children(node_ref.0 as int),
    {
        let i = node_ref.0;
        let n = self.nodes.len();
        let ghost views = node_views(self.nodes@);
        assert(views[i as int] == self.nodes@[i as int]@);
        let end = match self.nodes[i] {
            Node::Rule(_, k) => i + 1 + k.get(),
            Node::Token(..) => i + 1,
        };
        CstChildren { nodes: self.nodes.as_slice(), next_pos: i + 1, end }
    }

    /// The node at `node_ref`.
    pub fn get(&self, node_ref: NodeRef) -> (r: Node<T, R>)
        where
            T: Copy,
            R: Copy,
        requires
            node_ref.0 < self@.nodes.len(),
        ensures
            r@ == self@.nodes[node_ref.0 as int],
    {
        self.nodes[node_ref.0]
    }

    /// Span index of the first token node in `lo..hi`.
    fn find_first_token(&self, lo: usize, hi: usize) -> (r: Option<usize>)
        requires
            lo <= hi <= self@.nodes.len(),
        ensures
            match r {
                Some(x) => first_token(self@.nodes, lo as int, hi as int) == Some(x as nat),
                None => first_token(self@.nodes, lo as int, hi as int) is None,
            },
    {
        let ghost views = self@.nodes;
        let mut j = lo;
        while j < hi
            invariant
                lo <= j <= hi <= self@.nodes.len(),
                views == self@.nodes,
                first_token(views, lo as int, hi as int) == first_token(views, j as int, hi as int),
            decreases hi - j,
        {
            assert(views[j as int] == self.nodes@[j as int]@);
            match self.nodes[j] {
                Node::Token(_, idx) => {
                    return Some(idx.get());
                },
                Node::Rule(..) => {},
            }
            j += 1;
        }
        None
    }

    /// Span index of the last token node in `lo..hi`.
    fn find_last_token(&self, lo: usize, hi: usize) -> (r: Option<usize>)
        requires
            lo <= hi <= self@.nodes.len(),
        ensures
            match r {
                Some(x) => last_token(self@.nodes, lo as int, hi as int) == Some(x as nat),
                None => last_token(self@.nodes, lo as int, hi as int) is None,
            },
    {
        let ghost views = self@.nodes;
        let mut j = hi;
        while j > lo
            invariant
                lo <= j <= hi <= self@.nodes.len(),
                views == self@.nodes,
                last_token(views, lo as int, hi as int) == last_token(views, lo as int, j as int),
            decreases j - lo,
        {
            assert(views[j - 1] == self.nodes@[j - 1]@);
            match self.nodes[j - 1] {
                Node::Token(_, idx) => {
                    return Some(idx.get());
                },
                Node::Rule(..) => {},
            }
            j -= 1;
        }
        None
    }

    /// The source range that the node `node_ref` covers.
    pub fn span(&self, node_ref: NodeRef) -> (r: Span)
        requires
            self@.span_defined(node_ref.0 as int),
        ensures
            r == self@.span_of(node_ref.0 as int),
    {
        let i = node_ref.0;
        let n = self.nodes.len();
        let ghost v = self@;
        assert(v.nodes[i as int] == self.nodes@[i as int]@);
        match self.nodes[i] {
            Node::Token(_, idx) => {
                let t = idx.get();
                let s = &self.spans[t];
                let r = Span { start: s.start, end: s.end };
                assert(r == v.spans[t as int]);
                r
            },
            Node::Rule(_, k) => {
                let end = i + k.get();
                assert(v.nodes[i as int] matches NodeView::Rule(_, kk) && kk == end - i);
                let first = self.find_first_token(i + 1, end + 1);
                let last = self.find_last_token(i + 1, end + 1);
                proof {
                    lemma_first_last_token(v.nodes, i + 1, end + 1);
                }
                assert(first is Some <==> last is Some);
                match (first, last) {
                    (Some(f), Some(l)) => {
                        let r = Span { start: self.spans[f].start, end: self.spans[l].end };
                        assert(r == v.span_of(i as int));
                        r
                    },
                    _ => {
                        let offset = match self.find_last_token(0, i) {
                            Some(b) => self.spans[b].end,
                            None => 0,
                        };
                        let r = Span { start: offset, end: offset };
                        assert(r == v.span_of(i as int));
                        r
                    },
                }
            },
        }
    }

    /// The span of the node `node_ref` if it is a token equal to `matched_token`.
    pub fn match_token(&self, node_ref: NodeRef, matched_token: T) -> (r: Option<Span>)
        where
            T: PartialEq,
        requires
            node_ref.0 < self@.nodes.len(),
            self@.nodes[node_ref.0 as int] matches NodeView::Token(_, t) ==> t < self@.spans.len(),
        ensures
            match self@.nodes[node_ref.0 as int] {
                NodeView::Token(tok, t) => {
                    &&& T::obeys_eq_spec() ==> (r is Some <==> tok.eq_spec(&matched_token))
                    &&& r matches Some(s) ==> s == self@.spans[t as int]
                },
                NodeView::Rule(..) => r is None,
            },
    {
        let i = node_ref.0;
        assert(self@.nodes[i as int] == self.nodes@[i as int]@);
        match &self.nodes[i] {
            Node::Token(token, idx) => {
                if *token == matched_token {
                    let s = &self.spans[idx.get()];
                    Some(Span { start: s.start, end: s.end })
                } else {
                    None
                }
            },
            Node::Rule(..) => None,
        }
    }

    /// Whether the node `node_ref` is a rule equal to `matched_rule`.
    pub fn match_rule(&self, node_ref: NodeRef, matched_rule: R) -> (r: bool)
        where
            R: PartialEq,
        requires
            node_ref.0 < self@.nodes.len(),
        ensures
            match self@.nodes[node_ref.0 as int] {
                NodeView::Rule(rule, _) => R::obeys_eq_spec() ==> (r <==> rule.eq_spec(&matched_rule)),
                NodeView::Token(..) => !r,
            },
    {
        let i = node_ref.0;
        assert(self@.nodes[i as int] == self.nodes@[i as int]@);
        match &self.nodes[i] {
            Node::Rule(rule, _) => *rule == matched_rule,
            Node::Token(..) => false,
        }
    }
}

/// A syntax tree together with the source text it was built from.
#[derive(Debug)]
pub struct Cst<'a, T, R> {
    pub(crate) source: &'a str,
    pub data: CstData<T, R>,
}

impl<'a, T, R> Cst<'a, T, R> {
    /// The source text.
    pub closed spec fn text(self) -> &'a str {
        self.source
    }

    /// The content of the tree.
    pub closed spec fn tree(self) -> CstDataView<T, R> {
        self.data@
    }

    pub fn new(source: &'a str, data: CstData<T, R>) -> (r: Self)
        ensures
            r.text() == source,
            r.tree() == data@,
    {
        Cst { source, data }
    }

    pub fn source(&self) -> (r: &'a str)
        ensures
            r == self.text(),
    {
        self.source
    }

    pub fn into_data(self) -> (r: CstData<T, R>)
        ensures
            r@ == self.tree(),
    {
        self.data
    }

    /// The children of the node `node_ref`.
    pub fn children(&self, node_ref: NodeRef) -> (r: CstChildren<'_, T, R>)
        requires
            node_ref.0 < self.tree().nodes.len(),
            self.tree().nodes[node_ref.0 as int] is Rule ==> node_ref.0 + extent(
                self.tree().nodes[node_ref.0 as int],
            ) < self.tree().nodes.len(),
        ensures
            r.remaining() == self.tree().children(node_ref.0 as int),
    {
        self.data.children(node_ref)
    }

    /// The node at `node_ref`.
    pub fn get(&self, node_ref: NodeRef) -> (r: Node<T, R>)
        where
            T: Copy,
            R: Copy,
        requires
            node_ref.0 < self.tree().nodes.len(),
        ensures
            r@ == self.tree().nodes[node_ref.0 as int],
    {
        self.data.get(node_ref)
    }

    /// The source range that the node `node_ref` covers.
    pub fn span(&self, node_ref: NodeRef) -> (r: Span)
        requires
            self.tree().span_defined(node_ref.0 as int),
        ensures
            r == self.tree().span_of(node_ref.0 as int),
    {
        self.data.span(node_ref)
    }

    /// The text and span of the node `node_ref` if it is a token equal to `matched_token`.
    pub fn match_token(&self, node_ref: NodeRef, matched_token: T) -> (r: Option<(&'a str, Span)>)
        where
            T: PartialEq,
        requires
            node_ref.0 < self.tree().nodes.len(),
            self.tree().nodes[node_ref.0 as int] matches NodeView::Token(tok, t) ==> {
                &&& t < self.tree().spans.len()
                &&& (T::obeys_eq_spec() ==> tok.eq_spec(&matched_token)) ==> is_slice_range(
                    self.text(),
                    self.tree().spans[t as int].start as int,
                    self.tree().spans[t as int].end as int,
                )
            },
        ensures
            match self.tree().nodes[node_ref.0 as int] {
                NodeView::Token(tok, t) => {
                    &&& T::obeys_eq_spec() ==> (r is Some <==> tok.eq_spec(&matched_token))
                    &&& r matches Some((text, s)) ==> {
                        &&& s == self.tree().spans[t as int]
                        &&& bytes_of(text) == bytes_of(self.text()).subrange(
                            s.start as int,
                            s.end as int,
                        )
                    }
                },
                NodeView::Rule(..) => r is None,
            },
    {
        match self.data.match_token(node_ref, matched_token) {
            Some(span) => {
                let text = str_slice(self.source, span.start, span.end);
                Some((text, span))
            },
            None => None,
        }
    }

    /// Whether the node `node_ref` is a rule equal to `matched_rule`.
    pub fn match_rule(&self, node_ref: NodeRef, matched_rule: R) -> (r: bool)
        where
            R: PartialEq,
        requires
            node_ref.0 < self.tree().nodes.len(),
        ensures
            match self.tree().nodes[node_ref.0 as int] {
                NodeView::Rule(rule, _) => R::obeys_eq_spec() ==> (r <==> rule.eq_spec(&matched_rule)),
                NodeView::Token(..) => !r,
            },
    {
        self.data.match_rule(node_ref, matched_rule)
    }

    /// The source text of the token span with index `span_idx`.
    pub fn span_text(&self, span_idx: CstIndex) -> (r: &'a str)
        requires
            span_idx.value() < self.tree().spans.len(),
            is_slice_range(
                self.text(),
                self.tree().spans[span_idx.value() as int].start as int,
                self.tree().spans[span_idx.value() as int].end as int,
            ),
        ensures
            bytes_of(r) == bytes_of(self.text()).subrange(
                self.tree().spans[span_idx.value() as int].start as int,
                self.tree().spans[span_idx.value() as int].end as int,
            ),
    {
        let s = &self.data.spans[span_idx.get()];
        str_slice(self.source, s.start, s.end)
    }
}


/// All positions in `siblings(nodes, p, end)` lie in `p..end`, in increasing order.
pub proof fn lemma_siblings_range<T, R>(nodes: Seq<NodeView<T, R>>, p: int, end: int)
    ensures
        forall|j: int|
            0 <= j < siblings(nodes, p, end).len() ==> p <= #[trigger] siblings(nodes, p, end)[j] < end,
    decreases if p < end { end - p } else { 0 },
{
    if 0 <= p < end {
        let next = p + 1 + extent(nodes[p]);
        lemma_siblings_range(nodes, next, end);
        let s = siblings(nodes, p, end);
        assert forall|j: int| 0 <= j < s.len() implies p <= #[trigger] s[j] < end by {
            if j > 0 {
                assert(s[j] == siblings(nodes, next, end)[j - 1]);
            }
        }
    }
}

/// A token found by `first_token` or `last_token` is the token of some node in the range.
pub proof fn lemma_found_token<T, R>(nodes: Seq<NodeView<T, R>>, lo: int, hi: int)
    ensures
        first_token(nodes, lo, hi) matches Some(f) ==> exists|j: int|
            lo <= j < hi && (#[trigger] nodes[j] matches NodeView::Token(_, x) && x == f),
        last_token(nodes, lo, hi) matches Some(l) ==> exists|j: int|
            lo <= j < hi && (#[trigger] nodes[j] matches NodeView::Token(_, x) && x == l),
    decreases hi - lo,
{
    if lo < hi {
        lemma_found_token(nodes, lo + 1, hi);
        lemma_found_token(nodes, lo, hi - 1);
        if let NodeView::Token(_, x) = nodes[lo] {
            assert(nodes[lo] matches NodeView::Token(_, y) && y == x);
        }
        if let NodeView::Token(_, x) = nodes[hi - 1] {
            assert(nodes[hi - 1] matches NodeView::Token(_, y) && y == x);
        }
    }
}

impl<T, R> CstDataView<T, R> {
    /// Every rule's descendants lie within the list.
    pub open spec fn nested(self) -> bool {
        forall|i: int|
            0 <= i < self.nodes.len() ==> (#[trigger] self.nodes[i] matches NodeView::Rule(_, k) ==> i + k
                < self.nodes.len())
    }

    /// The tree can be listed: it has a root, rules stay within the list, tokens refer to
    /// spans that are valid slices of `text`, and indentation fits in `usize`.
    pub open spec fn listable(self, text: &str) -> bool {
        &&& 1 <= self.nodes.len()
        &&& 4 * self.nodes.len() <= usize::MAX
        &&& self.nested()
        &&& forall|i: int|
            0 <= i < self.nodes.len() ==> (#[trigger] self.nodes[i] matches NodeView::Token(_, t) ==> (t
                < self.spans.len() && is_slice_range(
                text,
                self.spans[t as int].start as int,
                self.spans[t as int].end as int,
            )))
    }

    /// The listing of node `i` at indentation `depth`: its own line (depth and position),
    /// then the listings of its children one level deeper.
    pub open spec fn node_lines(self, i: int, depth: nat) -> Seq<(nat, int)>
        decreases self.nodes.len() - i, 1nat, 0nat,
    {
        if 0 <= i < self.nodes.len() {
            seq![(depth, i)] + self.list_lines(self.children(i), i, depth + 1)
        } else {
            seq![]
        }
    }

    /// The listings of the nodes at positions `cs`, children of `parent`, one after the other.
    pub open spec fn list_lines(self, cs: Seq<int>, parent: int, depth: nat) -> Seq<(nat, int)>
        decreases self.nodes.len() - parent, 0nat, cs.len(),
    {
        if cs.len() == 0 {
            seq![]
        } else if parent < cs[0] < self.nodes.len() {
            self.node_lines(cs[0], depth) + self.list_lines(cs.drop_first(), parent, depth)
        } else {
            seq![]
        }
    }

    /// Every line of `node_lines(i, depth)` names a node of the list, at a depth no larger
    /// than its position.
    pub proof fn lemma_node_lines_bounds(self, i: int, depth: nat)
        requires
            depth <= i,
        ensures
            forall|x: int|
                0 <= x < self.node_lines(i, depth).len() ==> (#[trigger] self.node_lines(i, depth)[x]).1
                    < self.nodes.len() && self.node_lines(i, depth)[x].0 <= self.node_lines(i, depth)[x].1,
        decreases self.nodes.len() - i, 1nat, 0nat,
    {
        if 0 <= i < self.nodes.len() {
            self.lemma_list_lines_bounds(self.children(i), i, depth + 1);
            let rest = self.list_lines(self.children(i), i, depth + 1);
            let all = self.node_lines(i, depth);
            assert forall|x: int| 0 <= x < all.len() implies (#[trigger] all[x]).1 < self.nodes.len()
                && all[x].0 <= all[x].1 by {
                if x > 0 {
                    assert(all[x] == rest[x - 1]);
                }
            }
        }
    }

    /// Every line of `list_lines(cs, parent, depth)` names a node of the list, at a depth no
    /// larger than its position.
    pub proof fn lemma_list_lines_bounds(self, cs: Seq<int>, parent: int, depth: nat)
        requires
            depth <= parent + 1,
        ensures
            forall|x: int|
                0 <= x < self.list_lines(cs, parent, depth).len() ==> (#[trigger] self.list_lines(
                    cs,
                    parent,
                    depth,
                )[x]).1 < self.nodes.len() && self.list_lines(cs, parent, depth)[x].0 <= self.list_lines(
                    cs,
                    parent,
                    depth,
                )[x].1,
        decreases self.nodes.len() - parent, 0nat, cs.len(),
    {
        if cs.len() > 0 && parent < cs[0] < self.nodes.len() {
            self.lemma_node_lines_bounds(cs[0], depth);
            self.lemma_list_lines_bounds(cs.drop_first(), parent, depth);
            let a = self.node_lines(cs[0], depth);
            let b = self.list_lines(cs.drop_first(), parent, depth);
            let all = self.list_lines(cs, parent, depth);
            assert forall|x: int| 0 <= x < all.len() implies (#[trigger] all[x]).1 < self.nodes.len()
                && all[x].0 <= all[x].1 by {
                if x < a.len() {
                    assert(all[x] == a[x]);
                } else {
                    assert(all[x] == b[x - a.len()]);
                }
            }
        }
    }

    /// Under `listable`, the span of any node can be computed.
    pub proof fn lemma_span_defined(self, text: &str, i: int)
        requires
            self.listable(text),
            0 <= i < self.nodes.len(),
        ensures
            self.span_defined(i),
    {
        if let NodeView::Rule(_, k) = self.nodes[i] {
            lemma_found_token(self.nodes, i + 1, i + 1 + k);
            lemma_found_token(self.nodes, 0, i);
        }
    }
}

/// The listing lines as numbers.
pub open spec fn line_views(lines: Seq<(usize, NodeRef)>) -> Seq<(nat, int)> {
    lines.map_values(|l: (usize, NodeRef)| (l.0 as nat, l.1.0 as int))
}

impl<'a, T, R> Cst<'a, T, R> {
    /// Appends the listing of node `i` at indentation `depth` to `out`.
    fn push_node_lines(&self, i: usize, depth: usize, out: &mut Vec<(usize, NodeRef)>)
        requires
            self.tree().nested(),
            i < self.tree().nodes.len(),
            depth <= i,
        ensures
            line_views(final(out)@) == line_views(old(out)@) + self.tree().node_lines(i as int, depth as nat),
        decreases self.tree().nodes.len() - i,
    {
        let ghost v = self.tree();
        let ghost start = line_views(old(out)@);
        out.push((depth, NodeRef(i)));
        assert(line_views(out@) =~= start.push((depth as nat, i as int)));
        let mut it = self.data.children(NodeRef(i));
        let ghost all = v.children(i as int);
        let ghost k = extent(v.nodes[i as int]);
        proof {
            lemma_siblings_range(v.nodes, i + 1, i + 1 + k);
            assert(v.nodes[i as int] is Rule ==> all == siblings(v.nodes, i + 1, i + 1 + k));
            assert(v.nodes[i as int] is Token ==> all == Seq::<int>::empty());
            assert(forall|j: int| 0 <= j < all.len() ==> i < #[trigger] all[j] <= i + k);
            assert(i + k < v.nodes.len());
            assert(v.node_lines(i as int, depth as nat) == seq![(depth as nat, i as int)] + v.list_lines(
                all,
                i as int,
                (depth + 1) as nat,
            ));
        }
        loop
            invariant
                v == self.tree(),
                v.nested(),
                i < v.nodes.len(),
                depth <= i,
                i + k < v.nodes.len(),
                forall|j: int| 0 <= j < it.remaining().len() ==> i < #[trigger] it.remaining()[j] <= i + k,
                start + v.node_lines(i as int, depth as nat) == line_views(out@) + v.list_lines(
                    it.remaining(),
                    i as int,
                    (depth + 1) as nat,
                ),
            ensures
                start + v.node_lines(i as int, depth as nat) == line_views(out@),
            decreases it.remaining().len(),
        {
            let ghost rem = it.remaining();
            match it.next() {
                Some(child) => {
                    assert(rem[0] == child.0);
                    assert(v.list_lines(rem, i as int, (depth + 1) as nat) == v.node_lines(child.0 as int, (depth + 1) as nat)
                        + v.list_lines(rem.drop_first(), i as int, (depth + 1) as nat));
                    let ghost before = line_views(out@);
                    self.push_node_lines(child.0, depth + 1, out);
                    assert(forall|j: int|
                        0 <= j < it.remaining().len() ==> it.remaining()[j] == #[trigger] rem[j + 1]);
                    assert(before + (v.node_lines(child.0 as int, (depth + 1) as nat) + v.list_lines(
                        rem.drop_first(),
                        i as int,
                        (depth + 1) as nat,
                    )) =~= line_views(out@) + v.list_lines(it.remaining(), i as int, (depth + 1) as nat));
                },
                None => {
                    assert(line_views(out@) + v.list_lines(it.remaining(), i as int, (depth + 1) as nat) =~= line_views(
                        out@,
                    ));
                    break;
                },
            }
        }
    }

    /// The lines of the listing of the tree: for each node in preorder, its indentation
    /// depth and position.
    pub fn outline(&self) -> (r: Vec<(usize, NodeRef)>)
        requires
            self.tree().nested(),
            1 <= self.tree().nodes.len(),
        ensures
            line_views(r@) == self.tree().node_lines(0, 0),
    {
        let mut out: Vec<(usize, NodeRef)> = Vec::new();
        assert(line_views(out@) =~= Seq::<(nat, int)>::empty());
        self.push_node_lines(0, 0, &mut out);
        assert(line_views(out@) =~= Seq::<(nat, int)>::empty() + self.tree().node_lines(0, 0));
        out
    }
}

impl<'a, T, R> Cst<'a, T, R> {
    /// The text of the listing line `line` (indentation depth, node position), with `name`
    /// as the text of its kind: four spaces per level, the name, for a token its quoted
    /// source text, and the node's byte range.
    pub open spec fn line_text(self, line: (nat, int), name: Seq<char>) -> Seq<char> {
        let span = self.tree().span_of(line.1);
        let quoted = if self.tree().nodes[line.1] is Token {
            Some(debug_quoted(slice_chars(self.text(), span.start as int, span.end as int)))
        } else {
            None
        };
        listing_line(line.0 * 4, name, quoted, span.start as nat, span.end as nat)
    }

    /// The listing of the tree, one line per node in preorder, with `names[j]` as the text
    /// of the kind on line `j`.
    pub open spec fn listing_text(self, names: Seq<Seq<char>>) -> Seq<char> {
        let lines = self.tree().node_lines(0, 0);
        joined(Seq::new(lines.len(), |j: int| self.line_text(lines[j], names[j])))
    }
}

impl<'a, T: Copy, R: Copy> Cst<'a, T, R> {
    /// Whether the tree can be listed (see `CstDataView::listable`), as
    /// [`to_string`](Cst::to_string) needs.
    pub fn is_listable(&self) -> (r: bool)
        ensures
            r == self.tree().listable(self.text()),
    {
        let n = self.data.nodes.len();
        let ghost v = self.tree();
        assert(v.nodes.len() == n);
        if n == 0 || n > usize::MAX / 4 {
            return false;
        }
        let len = self.source.as_bytes().len();
        let mut i: usize = 0;
        while i < n
            invariant
                i <= n,
                n == v.nodes.len(),
                v == self.tree(),
                len == bytes_of(self.text()).len(),
                forall|j: int|
                    0 <= j < i ==> {
                        &&& (#[trigger] v.nodes[j] matches NodeView::Rule(_, k) ==> j + k < n)
                        &&& (v.nodes[j] matches NodeView::Token(_, t) ==> (t < v.spans.len()
                            && is_slice_range(
                            self.text(),
                            v.spans[t as int].start as int,
                            v.spans[t as int].end as int,
                        )))
                    },
            decreases n - i,
        {
            assert(v.nodes[i as int] == self.data.nodes@[i as int]@);
            match self.data.nodes[i] {
                Node::Rule(_, k) => {
                    if k.get() >= n - i {
                        return false;
                    }
                },
                Node::Token(_, t) => {
                    let t = t.get();
                    if t >= self.data.spans.len() {
                        return false;
                    }
                    let s = &self.data.spans[t];
                    assert(v.spans[t as int] == *s);
                    if !(s.start <= s.end && s.end <= len && self.source.is_char_boundary(s.start)
                        && self.source.is_char_boundary(s.end)) {
                        return false;
                    }
                },
            }
            i += 1;
        }
        true
    }

}

impl<'a, T: Copy + core::fmt::Debug, R: RuleType> Cst<'a, T, R> {
    /// The tree as text, one line per node in preorder, indented by four spaces per level:
    /// a rule shows its kind and the range it covers, a token its kind, its quoted text
    /// and its range. A token's kind is written as its `Debug` impl gives it, a rule's as
    /// its `listing_name` gives it; neither text is stated.
    pub fn to_string(&self) -> (r: String)
        requires
            self.tree().listable(self.text()),
        ensures
            exists|names: Seq<Seq<char>>|
                names.len() == self.tree().node_lines(0, 0).len() && r@ == self.listing_text(
                    names,
                ),
    {
        let ghost v = self.tree();
        let ghost lv = v.node_lines(0, 0);
        let lines = self.outline();
        proof {
            v.lemma_node_lines_bounds(0, 0);
            assert forall|x: int| 0 <= x < lines@.len() implies (#[trigger] lines@[x]).1.0 < v.nodes.len()
                && lines@[x].0 <= lines@[x].1.0 by {
                assert(line_views(lines@)[x] == v.node_lines(0, 0)[x]);
            }
        }
        let mut out = String::new();
        let ghost mut names: Seq<Seq<char>> = Seq::empty();
        let mut j: usize = 0;
        proof {
            assert(Seq::new(0, |x: int| self.line_text(lv[x], names[x])) =~= Seq::<Seq<char>>::empty());
        }
        while j < lines.len()
            invariant
                v == self.tree(),
                lv == v.node_lines(0, 0),
                v.listable(self.text()),
                line_views(lines@) == lv,
                j <= lines@.len(),
                names.len() == j,
                out@ == joined(Seq::new(j as nat, |x: int| self.line_text(lv[x], names[x]))),
                forall|x: int| 0 <= x < lines@.len() ==> (#[trigger] lines@[x]).1.0 < v.nodes.len() && lines@[x].0
                    <= lines@[x].1.0,
            decreases lines@.len() - j,
        {
            let (depth, node_ref) = lines[j];
            assert(line_views(lines@)[j as int] == (depth as nat, node_ref.0 as int));
            assert(lv[j as int] == (depth as nat, node_ref.0 as int));
            let width = depth * 4;
            proof {
                v.lemma_span_defined(self.text(), node_ref.0 as int);
            }
            let span = self.data.span(node_ref);
            let ghost prev = names;
            let line = match self.data.get(node_ref) {
                Node::Rule(rule, _) => {
                    let name = rule.listing_name();
                    let line = line_text(width, name.as_str(), None, span.start, span.end);
                    proof {
                        names = names.push(name@);
                    }
                    line
                },
                Node::Token(token, _) => {
                    let name = kind_text(&token);
                    let text = str_slice(self.source, span.start, span.end);
                    let quoted = quoted_text(text);
                    let line = line_text(width, name.as_str(), Some(quoted.as_str()), span.start, span.end);
                    proof {
                        names = names.push(name@);
                    }
                    line
                },
            };
            out.append(line.as_str());
            proof {
                let ghost all = Seq::new((j + 1) as nat, |x: int| self.line_text(lv[x], names[x]));
                assert(line@ == self.line_text(lv[j as int], names[j as int]));
                assert(all.drop_last() =~= Seq::new(j as nat, |x: int| self.line_text(lv[x], prev[x])));
                assert(joined(all) == joined(all.drop_last()) + all.last());
            }
            j += 1;
        }
        proof {
            assert(lines@.len() == lv.len()) by {
                assert(line_views(lines@).len() == lines@.len());
            }
            assert(out@ == self.listing_text(names));
        }
        out
    }
}

/// The rule nodes at positions `lo..hi`, in order, each with its position.
pub open spec fn rule_nodes<T, R>(nodes: Seq<NodeView<T, R>>, lo: int, hi: int) -> Seq<(R, NodeRef)>
    decreases hi - lo,
{
    if lo < hi {
        let init = rule_nodes(nodes, lo, hi - 1);
        match nodes[hi - 1] {
            NodeView::Rule(r, _) => init.push((r, NodeRef((hi - 1) as usize))),
            NodeView::Token(..) => init,
        }
    } else {
        seq![]
    }
}

/// Descendant count given to a rule opened at `mark` when the last node it covers is at `last`.
pub open spec fn closing_extent(last: int, mark: int) -> nat {
    if mark >= last {
        0
    } else {
        (last - mark) as nat
    }
}

/// The token nodes of a node list, in order, each with its span index.
pub open spec fn token_nodes<T, R>(nodes: Seq<NodeView<T, R>>) -> Seq<(T, nat)>
    decreases nodes.len(),
{
    if nodes.len() == 0 {
        seq![]
    } else {
        let init = token_nodes(nodes.drop_last());
        match nodes.last() {
            NodeView::Token(t, i) => init.push((t, i)),
            NodeView::Rule(..) => init,
        }
    }
}

/// Listing the token nodes distributes over concatenation.
pub proof fn lemma_token_nodes_concat<T, R>(a: Seq<NodeView<T, R>>, b: Seq<NodeView<T, R>>)
    ensures
        token_nodes(a + b) == token_nodes(a) + token_nodes(b),
    decreases b.len(),
{
    if b.len() == 0 {
        assert(a + b =~= a);
        assert(token_nodes(a) + token_nodes(b) =~= token_nodes(a));
    } else {
        assert((a + b).drop_last() =~= a + b.drop_last());
        lemma_token_nodes_concat(a, b.drop_last());
        match b.last() {
            NodeView::Token(t, i) => {
                assert(token_nodes(a) + token_nodes(b.drop_last()).push((t, i)) =~= (token_nodes(a)
                    + token_nodes(b.drop_last())).push((t, i)));
            },
            NodeView::Rule(..) => {},
        }
    }
}

/// Every token node is listed by `token_nodes`.
pub proof fn lemma_token_listed<T, R>(nodes: Seq<NodeView<T, R>>, i: int)
    requires
        0 <= i < nodes.len(),
        nodes[i] is Token,
    ensures
        exists|j: int|
            0 <= j < token_nodes(nodes).len() && #[trigger] token_nodes(nodes)[j] == (
                nodes[i]->Token_0,
                nodes[i]->Token_1,
            ),
    decreases nodes.len(),
{
    if i < nodes.len() - 1 {
        lemma_token_listed(nodes.drop_last(), i);
        assert(nodes.drop_last()[i] == nodes[i]);
        let j = choose|j: int|
            0 <= j < token_nodes(nodes.drop_last()).len() && #[trigger] token_nodes(nodes.drop_last())[j]
                == (nodes[i]->Token_0, nodes[i]->Token_1);
        assert(token_nodes(nodes)[j] == token_nodes(nodes.drop_last())[j]);
    } else {
        let l = token_nodes(nodes.drop_last()).len() as int;
        assert(token_nodes(nodes)[l] == (nodes[i]->Token_0, nodes[i]->Token_1));
    }
}

/// Replacing a rule node by another rule node, or inserting a rule node, keeps the token
/// nodes.
pub proof fn lemma_token_nodes_rules<T, R>(nodes: Seq<NodeView<T, R>>, i: int, rule: R, k: nat)
    requires
        0 <= i <= nodes.len(),
    ensures
        token_nodes(nodes.insert(i, NodeView::Rule(rule, k))) == token_nodes(nodes),
        i < nodes.len() && nodes[i] is Rule ==> token_nodes(nodes.update(i, NodeView::Rule(rule, k)))
            == token_nodes(nodes),
{
    let one = seq![NodeView::<T, R>::Rule(rule, k)];
    assert(one.drop_last() =~= Seq::<NodeView<T, R>>::empty());
    assert(token_nodes(Seq::<NodeView<T, R>>::empty()) =~= Seq::<(T, nat)>::empty());
    assert(one.last() is Rule);
    assert(token_nodes(one) =~= Seq::<(T, nat)>::empty());
    let pre = nodes.take(i);
    let post = nodes.skip(i);
    assert(nodes.insert(i, NodeView::Rule(rule, k)) =~= pre + (one + post));
    lemma_token_nodes_concat(one, post);
    lemma_token_nodes_concat(pre, one + post);
    assert(nodes =~= pre + post);
    lemma_token_nodes_concat(pre, post);
    if i < nodes.len() && nodes[i] is Rule {
        let old_one = seq![nodes[i]];
        let rest = nodes.skip(i + 1);
        assert(old_one.drop_last() =~= Seq::<NodeView<T, R>>::empty());
        assert(old_one.last() is Rule);
        assert(token_nodes(old_one) =~= Seq::<(T, nat)>::empty());
        assert(nodes =~= pre + (old_one + rest));
        assert(nodes.update(i, NodeView::Rule(rule, k)) =~= pre + (one + rest));
        lemma_token_nodes_concat(old_one, rest);
        lemma_token_nodes_concat(one, rest);
        lemma_token_nodes_concat(pre, old_one + rest);
        lemma_token_nodes_concat(pre, one + rest);
    }
}

/// Every step but a revert keeps a tree nested: each rule's descendants stay within the
/// list.
pub proof fn lemma_apply_nested<T: TokenType, R: RuleType>(
    m: CstDataView<T, R>,
    op: BuildOp<T, R, usize, MarkTruncation>,
)
    requires
        m.nested(),
        m.non_skip_len <= m.nodes.len(),
        <CstData<T, R> as CstBuilder>::allows(m, op),
        !(op is RevertTo),
    ensures
        <CstData<T, R> as CstBuilder>::apply(m, op).nested(),
        <CstData<T, R> as CstBuilder>::apply(m, op).non_skip_len <= <CstData<T, R> as CstBuilder>::apply(
            m,
            op,
        ).nodes.len(),
{
    let n = <CstData<T, R> as CstBuilder>::apply(m, op);
    match op {
        BuildOp::StartRuleBefore(mark) => {
            assert forall|i: int| 0 <= i < n.nodes.len() implies (#[trigger] n.nodes[i] matches NodeView::Rule(
                _,
                k,
            ) ==> i + k < n.nodes.len()) by {
                if i > mark {
                    assert(n.nodes[i] == m.nodes[i - 1]);
                } else if i < mark {
                    assert(n.nodes[i] == m.nodes[i]);
                }
            }
        },
        _ => {
            assert forall|i: int| 0 <= i < n.nodes.len() implies (#[trigger] n.nodes[i] matches NodeView::Rule(
                _,
                k,
            ) ==> i + k < n.nodes.len()) by {
                if i < m.nodes.len() {
                    if !(op is EndRule || op is EndRuleRoot) {
                        assert(n.nodes[i] == m.nodes[i]);
                    }
                }
            }
        },
    }
}

/// Emitting skip tokens keeps a tree nested.
pub proof fn lemma_skips_nested<T: TokenType, R: RuleType>(
    m: CstDataView<T, R>,
    text: &str,
    e: Seq<(T, usize, usize)>,
)
    requires
        m.nested(),
        m.non_skip_len <= m.nodes.len(),
    ensures
        apply_skips::<CstData<T, R>>(m, text, e).nested(),
        apply_skips::<CstData<T, R>>(m, text, e).non_skip_len <= apply_skips::<CstData<T, R>>(
            m,
            text,
            e,
        ).nodes.len(),
    decreases e.len(),
{
    if e.len() > 0 {
        lemma_skips_nested(m, text, e.drop_last());
        let prev = apply_skips::<CstData<T, R>>(m, text, e.drop_last());
        let n = apply_skips::<CstData<T, R>>(m, text, e);
        assert forall|i: int| 0 <= i < n.nodes.len() implies (#[trigger] n.nodes[i] matches NodeView::Rule(
            _,
            k,
        ) ==> i + k < n.nodes.len()) by {
            if i < prev.nodes.len() {
                assert(n.nodes[i] == prev.nodes[i]);
            }
        }
    }
}

/// The state of a [`CstData`] after the steps `ops`, in order, from `m`.
pub open spec fn apply_all<T: TokenType, R: RuleType>(
    m: CstDataView<T, R>,
    ops: Seq<BuildOp<T, R, usize, MarkTruncation>>,
) -> CstDataView<T, R>
    decreases ops.len(),
{
    if ops.len() == 0 {
        m
    } else {
        <CstData<T, R> as CstBuilder>::apply(apply_all(m, ops.drop_last()), ops.last())
    }
}

/// A building step that leaves the nodes before position `n` alone: adding a token, a
/// skip token or a rule, closing or inserting a rule at `n` or later, or reverting to a
/// checkpoint that keeps at least `n` nodes.
pub open spec fn stays_above<T, R>(op: BuildOp<T, R, usize, MarkTruncation>, n: nat) -> bool {
    match op {
        BuildOp::Token(..) | BuildOp::TokenSkip(..) | BuildOp::StartRule => true,
        BuildOp::EndRule(mark, _) | BuildOp::EndRuleRoot(mark, _) | BuildOp::StartRuleBefore(mark) => n
            <= mark,
        BuildOp::RevertTo(cp) => n <= cp.nodes_kept(),
    }
}

/// Each step of `ops` is allowed in the model that the steps before it lead to from `m`.
pub open spec fn all_allowed<T: TokenType, R: RuleType>(
    m: CstDataView<T, R>,
    ops: Seq<BuildOp<T, R, usize, MarkTruncation>>,
) -> bool
    decreases ops.len(),
{
    if ops.len() == 0 {
        true
    } else {
        &&& all_allowed(m, ops.drop_last())
        &&& <CstData<T, R> as CstBuilder>::allows(apply_all(m, ops.drop_last()), ops.last())
    }
}

/// Allowed steps that stay above the existing nodes keep them as a prefix.
pub proof fn lemma_steps_keep_prefix<T: TokenType, R: RuleType>(
    m: CstDataView<T, R>,
    ops: Seq<BuildOp<T, R, usize, MarkTruncation>>,
)
    requires
        all_allowed(m, ops),
        forall|i: int| 0 <= i < ops.len() ==> stays_above(#[trigger] ops[i], m.nodes.len()),
    ensures
        m.nodes.len() <= apply_all(m, ops).nodes.len(),
        apply_all(m, ops).nodes.take(m.nodes.len() as int) == m.nodes,
        apply_all(m, ops).spans == m.spans,
    decreases ops.len(),
{
    if ops.len() > 0 {
        assert forall|i: int| 0 <= i < ops.len() - 1 implies stays_above(
            #[trigger] ops.drop_last()[i],
            m.nodes.len(),
        ) by {
            assert(ops.drop_last()[i] == ops[i]);
        }
        lemma_steps_keep_prefix(m, ops.drop_last());
        let prev = apply_all(m, ops.drop_last());
        let n = m.nodes.len() as int;
        let op = ops.last();
        assert(stays_above(ops[ops.len() - 1], m.nodes.len()));
        let next = apply_all(m, ops);
        assert(next == <CstData<T, R> as CstBuilder>::apply(prev, op));
        assert(next.nodes.take(n) =~= prev.nodes.take(n));
    }
}

/// Reverting to a checkpoint undoes every allowed building step taken since that leaves
/// the nodes before the checkpoint alone (adding tokens and rules, closing and inserting
/// rules after it, reverting to later checkpoints): the nodes and the token count are
/// those of the checkpoint (the boundary of trailing skip tokens is reset to the end of
/// the nodes).
pub proof fn lemma_revert_undoes_steps<T: TokenType, R: RuleType>(
    m: CstDataView<T, R>,
    cp: MarkTruncation,
    ops: Seq<BuildOp<T, R, usize, MarkTruncation>>,
)
    requires
        <CstData<T, R> as CstBuilder>::saved(m, cp),
        all_allowed(m, ops),
        forall|i: int| 0 <= i < ops.len() ==> stays_above(#[trigger] ops[i], m.nodes.len()),
    ensures
        <CstData<T, R> as CstBuilder>::apply(apply_all(m, ops), BuildOp::RevertTo(cp)) == (CstDataView {
            nodes: m.nodes,
            spans: m.spans,
            token_count: m.token_count,
            non_skip_len: m.nodes.len(),
        }),
{
    lemma_steps_keep_prefix(m, ops);
}

impl<T: TokenType, R: RuleType> CstBuilder for CstData<T, R> {
    type Token = T;
    type Rule = R;
    type Mark = usize;
    type Checkpoint = MarkTruncation;
    type Output = CstData<T, R>;
    type Model = CstDataView<T, R>;

    open spec fn model(&self) -> CstDataView<T, R> {
        self@
    }

    open spec fn initial(spans: Seq<Span>) -> CstDataView<T, R> {
        CstDataView { nodes: seq![], spans, token_count: 0, non_skip_len: 0 }
    }

    open spec fn allows(m: CstDataView<T, R>, op: BuildOp<T, R, usize, MarkTruncation>) -> bool {
        match op {
            BuildOp::Token(..) => m.token_count < cst_index_limit() && m.token_count < usize::MAX,
            BuildOp::TokenSkip(..) => m.token_count < cst_index_limit() && m.token_count < usize::MAX,
            BuildOp::StartRule => true,
            BuildOp::EndRule(mark, _) => {
                &&& mark < m.nodes.len()
                &&& 1 <= m.non_skip_len
                &&& closing_extent(m.non_skip_len - 1, mark as int) < cst_index_limit()
            },
            BuildOp::EndRuleRoot(mark, _) => {
                &&& mark < m.nodes.len()
                &&& closing_extent(m.nodes.len() - 1, mark as int) < cst_index_limit()
            },
            BuildOp::StartRuleBefore(mark) => mark <= m.nodes.len() && m.non_skip_len < usize::MAX,
            BuildOp::RevertTo(_) => true,
        }
    }

    open spec fn apply(m: CstDataView<T, R>, op: BuildOp<T, R, usize, MarkTruncation>) -> CstDataView<T, R> {
        match op {
            BuildOp::Token(kind, _) => CstDataView {
                nodes: m.nodes.push(NodeView::Token(kind, m.token_count)),
                spans: m.spans,
                token_count: m.token_count + 1,
                non_skip_len: m.nodes.len() + 1,
            },
            BuildOp::TokenSkip(kind, _) => CstDataView {
                nodes: m.nodes.push(NodeView::Token(kind, m.token_count)),
                spans: m.spans,
                token_count: m.token_count + 1,
                non_skip_len: m.non_skip_len,
            },
            BuildOp::StartRule => CstDataView {
                nodes: m.nodes.push(NodeView::Rule(R::spec_error(), 0)),
                spans: m.spans,
                token_count: m.token_count,
                non_skip_len: m.nodes.len() + 1,
            },
            BuildOp::EndRule(mark, rule) => CstDataView {
                nodes: m.nodes.update(
                    mark as int,
                    NodeView::Rule(rule, closing_extent(m.non_skip_len - 1, mark as int)),
                ),
                spans: m.spans,
                token_count: m.token_count,
                non_skip_len: m.non_skip_len,
            },
            BuildOp::EndRuleRoot(mark, rule) => CstDataView {
                nodes: m.nodes.update(
                    mark as int,
                    NodeView::Rule(rule, closing_extent(m.nodes.len() - 1, mark as int)),
                ),
                spans: m.spans,
                token_count: m.token_count,
                non_skip_len: m.nodes.len(),
            },
            BuildOp::StartRuleBefore(mark) => CstDataView {
                nodes: m.nodes.insert(mark as int, NodeView::Rule(R::spec_error(), 0)),
                spans: m.spans,
                token_count: m.token_count,
                non_skip_len: m.non_skip_len + 1,
            },
            BuildOp::RevertTo(cp) => {
                let nodes = if cp.nodes_kept() <= m.nodes.len() {
                    m.nodes.take(cp.nodes_kept() as int)
                } else {
                    m.nodes
                };
                CstDataView {
                    nodes,
                    spans: m.spans,
                    token_count: cp.tokens_kept(),
                    non_skip_len: nodes.len(),
                }
            },
        }
    }

    open spec fn gives_mark(m: CstDataView<T, R>, op: BuildOp<T, R, usize, MarkTruncation>, r: usize) -> bool {
        match op {
            BuildOp::StartRule => r == m.nodes.len(),
            BuildOp::StartRuleBefore(mark) => r == mark,
            _ => false,
        }
    }

    open spec fn position(m: CstDataView<T, R>, r: usize) -> bool {
        r == m.nodes.len()
    }

    open spec fn saved(m: CstDataView<T, R>, cp: MarkTruncation) -> bool {
        cp.nodes_kept() == m.nodes.len() && cp.tokens_kept() == m.token_count
    }

    open spec fn removed(m: CstDataView<T, R>, cp: MarkTruncation, rules: Seq<(R, NodeRef)>) -> bool {
        rules == rule_nodes(m.nodes, cp.nodes_kept() as int, m.nodes.len() as int)
    }

    open spec fn node_ref_of(m: CstDataView<T, R>, mark: usize, r: Option<NodeRef>) -> bool {
        r == Some(NodeRef(mark))
    }

    open spec fn output(m: CstDataView<T, R>, out: CstData<T, R>) -> bool {
        out@ == m
    }

    fn new(spans: Vec<Span>) -> (r: Self) {
        let r = CstData { spans, nodes: Vec::new(), token_count: 0, non_skip_len: 0 };
        assert(r@.nodes =~= Seq::<NodeView<T, R>>::empty());
        r
    }

    fn token(&mut self, kind: T, _text: &str) {
        let node = Node::Token(kind, CstIndex::new(self.token_count));
        let ghost old_nodes = self.nodes@;
        self.nodes.push(node);
        assert(node_views(self.nodes@) =~= node_views(old_nodes).push(node@));
        self.token_count += 1;
        self.non_skip_len = self.nodes.len();
    }

    fn token_skip(&mut self, kind: T, _text: &str) {
        let node = Node::Token(kind, CstIndex::new(self.token_count));
        let ghost old_nodes = self.nodes@;
        self.nodes.push(node);
        assert(node_views(self.nodes@) =~= node_views(old_nodes).push(node@));
        self.token_count += 1;
    }

    fn start_rule(&mut self) -> (r: usize) {
        let pos = self.nodes.len();
        let node = Node::Rule(R::error(), CstIndex::new(0));
        let ghost old_nodes = self.nodes@;
        self.nodes.push(node);
        assert(node_views(self.nodes@) =~= node_views(old_nodes).push(node@));
        self.non_skip_len = self.nodes.len();
        pos
    }

    fn end_rule(&mut self, mark: usize, rule: R) {
        let len = self.non_skip_len - 1;
        let extent = if mark >= len {
            0
        } else {
            len - mark
        };
        let node = Node::Rule(rule, CstIndex::new(extent));
        let ghost old_nodes = self.nodes@;
        self.nodes.set(mark, node);
        assert(node_views(self.nodes@) =~= node_views(old_nodes).update(mark as int, node@));
    }

    fn end_rule_root(&mut self, mark: usize, rule: R) {
        self.non_skip_len = self.nodes.len();
        self.end_rule(mark, rule);
    }

    fn mark(&self) -> (r: usize) {
        self.nodes.len()
    }

    fn start_rule_before(&mut self, mark: usize) -> (r: usize) {
        let node = Node::Rule(R::error(), CstIndex::new(0));
        let ghost old_nodes = self.nodes@;
        self.nodes.insert(mark, node);
        assert(node_views(self.nodes@) =~= node_views(old_nodes).insert(mark as int, node@));
        self.non_skip_len += 1;
        mark
    }

    fn checkpoint(&self) -> (r: MarkTruncation) {
        MarkTruncation::new(self.nodes.len(), self.token_count)
    }

    fn revert_to(&mut self, cp: MarkTruncation) {
        proof {
            cp.lemma_fields();
        }
        let ghost old_nodes = self.nodes@;
        self.nodes.truncate(cp.node_count);
        proof {
            if cp.node_count <= old_nodes.len() {
                assert(node_views(self.nodes@) =~= node_views(old_nodes).take(cp.node_count as int));
            }
        }
        self.token_count = cp.token_count;
        self.non_skip_len = self.nodes.len();
    }

    fn removed_rules(&self, cp: MarkTruncation) -> (r: Vec<(R, NodeRef)>) {
        proof {
            cp.lemma_fields();
        }
        let ghost views = self@.nodes;
        let mut result: Vec<(R, NodeRef)> = Vec::new();
        let len = self.nodes.len();
        let mut i = cp.node_count;
        if i > len {
            proof {
                assert(rule_nodes(views, i as int, len as int) =~= seq![]);
            }
            return result;
        }
        while i < len
            invariant
                cp.node_count <= i <= len,
                len == self@.nodes.len(),
                views == self@.nodes,
                result@ == rule_nodes(views, cp.node_count as int, i as int),
            decreases len - i,
        {
            assert(views[i as int] == self.nodes@[i as int]@);
            match self.nodes[i] {
                Node::Rule(rule, _) => {
                    result.push((rule, NodeRef(i)));
                },
                Node::Token(..) => {},
            }
            i += 1;
        }
        result
    }

    fn node_ref(&self, mark: usize) -> (r: Option<NodeRef>) {
        Some(NodeRef(mark))
    }

    fn finish(self) -> (r: CstData<T, R>) {
        self
    }
}

} // verus!
