use vstd::prelude::*;

use ::cstree::build::{Checkpoint, GreenNodeBuilder};
use ::cstree::green::{GreenNode, GreenToken};
use ::cstree::util::NodeOrToken;
use ::cstree::Syntax;

use crate::text::bytes_of;
use crate::types::{NodeRef, Span};

verus! {

/// The `cstree` green node builder inside a [`GreenBuilder`], held without naming its kind
/// type (Verus cannot take the `Syntax` bound on a type). Verus sees nothing inside it but
/// the names `builder_children` and `builder_parents`.
#[verifier::external_body]
pub struct RawBuilder {
    b: Box<dyn core::any::Any>,
}

/// A `cstree` green node builder for kinds `S`. Its fields are private to this module, and
/// a `RawBuilder` is made nowhere but in `builder_new::<S>`, which puts it into a
/// `GreenBuilder<S>`: `raw` always holds a `GreenNodeBuilder` for `S`, the type every
/// wrapper below downcasts to.
#[verifier::reject_recursive_types(S)]
pub struct GreenBuilder<S> {
    raw: RawBuilder,
    kinds: core::marker::PhantomData<S>,
}

impl<S> GreenBuilder<S> {
    /// The finished elements on the builder's stack, oldest first.
    pub closed spec fn children(self) -> Seq<GreenTree> {
        builder_children(self.raw)
    }

    /// The nodes the builder has open, outermost first.
    pub closed spec fn parents(self) -> Seq<(u32, nat)> {
        builder_parents(self.raw)
    }

    /// The (raw kind, length) pairs of the nodes in the builder's node cache.
    pub closed spec fn cache(self) -> Set<(u32, nat)> {
        builder_cache(self.raw)
    }
}

/// A kind together with its static text, as `Syntax::static_text` gave it. Its fields are
/// private to this module and only `syntax_static_text` makes one, so `text` is always the
/// static text of `kind`.
pub struct KindText<S> {
    kind: S,
    text: Option<&'static str>,
}

impl<S> KindText<S> {
    /// The kind.
    pub closed spec fn kind(self) -> S {
        self.kind
    }

    /// The bytes of the kind's static text, if it has one.
    pub closed spec fn static_bytes(self) -> Option<Seq<u8>> {
        match self.text {
            Some(t) => Some(bytes_of(t)),
            None => None,
        }
    }

    /// Whether the kind has a static text.
    pub fn has_static_text(&self) -> (r: bool)
        ensures
            r == self.static_bytes() is Some,
    {
        self.text.is_some()
    }

    /// The length of the token that the builder stores for a token of this kind with the
    /// source text `text`: that of the kind's static text when it has one, else that of
    /// `text`, in bytes, truncated to 32 bits.
    pub open spec fn stored_len(self, text: &str) -> nat {
        match self.static_bytes() {
            Some(b) => (b.len() as u32) as nat,
            None => (bytes_of(text).len() as u32) as nat,
        }
    }
}

impl<S: Syntax> KindText<S> {
    /// `self` is what `Syntax::static_text` gives for `kind`.
    pub closed spec fn given_for(self, kind: S) -> bool {
        call_ensures(syntax_static_text::<S>, (kind,), self)
    }
}

#[verifier::external_type_specification]
#[verifier::external_body]
pub struct ExCheckpoint(Checkpoint);

#[verifier::external_type_specification]
#[verifier::external_body]
pub struct ExGreenNode(GreenNode);

#[verifier::external_type_specification]
#[verifier::external_body]
pub struct ExGreenToken(GreenToken);

/// The content of a green tree: kinds as raw numbers and text lengths in bytes.
pub enum GreenTree {
    Node { node_kind: u32, node_len: nat, children: Seq<GreenTree> },
    Token { token_kind: u32, token_len: nat },
}

/// The raw kind at the top of a tree.
pub open spec fn tree_kind(t: GreenTree) -> u32 {
    match t {
        GreenTree::Node { node_kind, .. } => node_kind,
        GreenTree::Token { token_kind, .. } => token_kind,
    }
}

/// The text length recorded at the top of a tree.
pub open spec fn tree_len(t: GreenTree) -> nat {
    match t {
        GreenTree::Node { node_len, .. } => node_len,
        GreenTree::Token { token_len, .. } => token_len,
    }
}

/// The children at the top of a tree; none for a token.
pub open spec fn tree_children(t: GreenTree) -> Seq<GreenTree> {
    match t {
        GreenTree::Node { children, .. } => children,
        GreenTree::Token { .. } => seq![],
    }
}

/// The tree that a `cstree` green node holds.
pub uninterp spec fn green_tree(node: GreenNode) -> GreenTree;

/// The raw kind of a `cstree` green token.
pub uninterp spec fn green_token_kind(token: GreenToken) -> u32;

/// The text length of a `cstree` green token.
pub uninterp spec fn green_token_len(token: GreenToken) -> nat;

/// The finished elements on a green node builder's stack, oldest first: the tokens and
/// nodes of the current node and of every open node around it.
pub uninterp spec fn builder_children(b: RawBuilder) -> Seq<GreenTree>;

/// The nodes a green node builder has open, outermost first: the raw kind of each and the
/// place on the element stack where its children start.
pub uninterp spec fn builder_parents(b: RawBuilder) -> Seq<(u32, nat)>;

/// The (raw kind, text length) pairs of the nodes in a green node builder's node cache,
/// which `finish_node` consults for a node of at most three children.
pub uninterp spec fn builder_cache(b: RawBuilder) -> Set<(u32, nat)>;

/// A node of kind `k` over `items` may come from the node cache: it has at most three
/// children and the cache holds a node of its kind and length.
pub open spec fn cache_may_hit(cache: Set<(u32, nat)>, k: u32, items: Seq<GreenTree>) -> bool {
    items.len() <= 3 && cache.contains((k, trees_len(items)))
}

/// The node cache after a node of kind `k` over `items` was made.
pub open spec fn cache_after(cache: Set<(u32, nat)>, k: u32, items: Seq<GreenTree>) -> Set<(u32, nat)> {
    if items.len() <= 3 {
        cache.insert((k, trees_len(items)))
    } else {
        cache
    }
}

/// Where a checkpoint was taken: the number of open nodes and of elements on the stack.
pub uninterp spec fn checkpoint_pos(cp: Checkpoint) -> (nat, nat);

/// The elements that closing the innermost open node gathers: those from where its
/// children start to the end of the stack.
pub open spec fn finished_items(children: Seq<GreenTree>, parents: Seq<(u32, nat)>) -> Seq<GreenTree> {
    children.subrange(parents.last().1 as int, children.len() as int)
}

/// The total text length of a sequence of trees.
pub open spec fn trees_len(s: Seq<GreenTree>) -> nat
    decreases s.len(),
{
    if s.len() == 0 {
        0
    } else {
        trees_len(s.drop_last()) + tree_len(s.last())
    }
}

/// A child of a green node.
pub enum GreenChild<'a> {
    Node(&'a GreenNode),
    Token(&'a GreenToken),
}

/// `GreenNodeBuilder::new`: an empty builder, no element and no open node.
#[verifier::external_body]
fn builder_new<S: Syntax + 'static>() -> (r: GreenBuilder<S>)
    ensures
        builder_children(r.raw) == Seq::<GreenTree>::empty(),
        builder_parents(r.raw) == Seq::<(u32, nat)>::empty(),
        builder_cache(r.raw) == Set::<(u32, nat)>::empty(),
{
    GreenBuilder {
        raw: RawBuilder { b: Box::new(GreenNodeBuilder::<'static, 'static, S>::new()) },
        kinds: core::marker::PhantomData,
    }
}

/// `GreenNodeBuilder::token` for a kind without static text: pushes a token of the kind's
/// raw number (which the `Syntax` impl gives, not stated) whose length is the byte length
/// of `text`, truncated to 32 bits.
#[verifier::external_body]
fn builder_token<S: Syntax + 'static>(b: &mut GreenBuilder<S>, kind: &KindText<S>, text: &str)
    requires
        kind.static_bytes() is None,
    ensures
        builder_cache(final(b).raw) == builder_cache(old(b).raw),
        builder_parents(final(b).raw) == builder_parents(old(b).raw),
        builder_children(final(b).raw) == builder_children(old(b).raw).push(
            GreenTree::Token {
                token_kind: tree_kind(builder_children(final(b).raw).last()),
                token_len: (bytes_of(text).len() as u32) as nat,
            },
        ),
{
    b.raw.b.downcast_mut::<GreenNodeBuilder<'static, 'static, S>>().unwrap().token(kind.kind, text)
}

/// `GreenNodeBuilder::static_token` for a kind with static text: pushes a token of the
/// kind's raw number (not stated) whose length is the byte length of that text, truncated
/// to 32 bits.
#[verifier::external_body]
fn builder_static_token<S: Syntax + 'static>(b: &mut GreenBuilder<S>, kind: &KindText<S>)
    requires
        kind.static_bytes() is Some,
    ensures
        builder_cache(final(b).raw) == builder_cache(old(b).raw),
        builder_parents(final(b).raw) == builder_parents(old(b).raw),
        builder_children(final(b).raw) == builder_children(old(b).raw).push(
            GreenTree::Token {
                token_kind: tree_kind(builder_children(final(b).raw).last()),
                token_len: (kind.static_bytes()->0.len() as u32) as nat,
            },
        ),
{
    b.raw.b.downcast_mut::<GreenNodeBuilder<'static, 'static, S>>().unwrap().static_token(kind.kind)
}

/// `GreenNodeBuilder::checkpoint`: the numbers of open nodes and of stacked elements.
#[verifier::external_body]
fn builder_checkpoint<S: Syntax + 'static>(b: &GreenBuilder<S>) -> (r: Checkpoint)
    ensures
        checkpoint_pos(r) == (builder_parents(b.raw).len(), builder_children(b.raw).len()),
{
    b.raw.b.downcast_ref::<GreenNodeBuilder<'static, 'static, S>>().unwrap().checkpoint()
}

/// `GreenNodeBuilder::start_node_at`: opens a node of the kind's raw number (not stated)
/// whose children start at the checkpoint's element. It panics unless the checkpoint has
/// as many open nodes as the builder, does not lie past the stack, and does not lie
/// before the children of the innermost open node.
#[verifier::external_body]
fn builder_start_node_at<S: Syntax + 'static>(
    b: &mut GreenBuilder<S>,
    cp: Checkpoint,
    kind: S,
)
    requires
        checkpoint_pos(cp).0 == builder_parents(old(b).raw).len(),
        checkpoint_pos(cp).1 <= builder_children(old(b).raw).len(),
        builder_parents(old(b).raw).len() > 0 ==> builder_parents(old(b).raw).last().1 <= checkpoint_pos(cp).1,
    ensures
        builder_cache(final(b).raw) == builder_cache(old(b).raw),
        builder_children(final(b).raw) == builder_children(old(b).raw),
        builder_parents(final(b).raw) == builder_parents(old(b).raw).push(
            (builder_parents(final(b).raw).last().0, checkpoint_pos(cp).1),
        ),
{
    b.raw.b.downcast_mut::<GreenNodeBuilder<'static, 'static, S>>().unwrap().start_node_at(cp, kind)
}

/// `GreenNodeBuilder::finish_node`: closes the innermost open node, replacing its children
/// on the stack by one node of its kind whose length is the sum of theirs. A node of more
/// than three children is made over exactly them. One of at most three children is looked
/// up in the node cache by kind, length and a 32-bit hash of the children, and put into it
/// when missing: where the cache holds no node of that kind and length this is a miss and
/// the node is made over exactly its children; otherwise an earlier node with other
/// children may come back on a hash collision, and its children are not stated. It panics
/// when no node is open, and on a length past 32 bits.
#[verifier::external_body]
fn builder_finish_node<S: Syntax + 'static>(b: &mut GreenBuilder<S>)
    requires
        builder_parents(old(b).raw).len() > 0,
        builder_parents(old(b).raw).last().1 <= builder_children(old(b).raw).len(),
        trees_len(
            builder_children(old(b).raw).subrange(
                builder_parents(old(b).raw).last().1 as int,
                builder_children(old(b).raw).len() as int,
            ),
        ) <= u32::MAX,
    ensures
        builder_parents(final(b).raw) == builder_parents(old(b).raw).drop_last(),
        builder_children(final(b).raw) == builder_children(old(b).raw).subrange(
            0,
            builder_parents(old(b).raw).last().1 as int,
        ).push(
            GreenTree::Node {
                node_kind: builder_parents(old(b).raw).last().0,
                node_len: trees_len(finished_items(builder_children(old(b).raw), builder_parents(old(b).raw))),
                children: if cache_may_hit(
                    builder_cache(old(b).raw),
                    builder_parents(old(b).raw).last().0,
                    finished_items(builder_children(old(b).raw), builder_parents(old(b).raw)),
                ) {
                    tree_children(builder_children(final(b).raw).last())
                } else {
                    finished_items(builder_children(old(b).raw), builder_parents(old(b).raw))
                },
            },
        ),
        builder_cache(final(b).raw) == cache_after(
            builder_cache(old(b).raw),
            builder_parents(old(b).raw).last().0,
            finished_items(builder_children(old(b).raw), builder_parents(old(b).raw)),
        ),
{
    b.raw.b.downcast_mut::<GreenNodeBuilder<'static, 'static, S>>().unwrap().finish_node()
}

/// `GreenNodeBuilder::revert_to`: drops the nodes opened and the elements pushed since the
/// checkpoint. It panics unless the checkpoint has no more open nodes and elements than
/// the builder and does not lie before the children of the innermost open node.
#[verifier::external_body]
fn builder_revert_to<S: Syntax + 'static>(b: &mut GreenBuilder<S>, cp: Checkpoint)
    requires
        checkpoint_pos(cp).0 <= builder_parents(old(b).raw).len(),
        checkpoint_pos(cp).1 <= builder_children(old(b).raw).len(),
        builder_parents(old(b).raw).len() > 0 ==> builder_parents(old(b).raw).last().1 <= checkpoint_pos(cp).1,
    ensures
        builder_cache(final(b).raw) == builder_cache(old(b).raw),
        builder_parents(final(b).raw) == builder_parents(old(b).raw).subrange(0, checkpoint_pos(cp).0 as int),
        builder_children(final(b).raw) == builder_children(old(b).raw).subrange(0, checkpoint_pos(cp).1 as int),
{
    b.raw.b.downcast_mut::<GreenNodeBuilder<'static, 'static, S>>().unwrap().revert_to(cp)
}

/// `GreenNodeBuilder::finish`: the one element on the stack, which must be a node (it
/// panics otherwise); the node cache is dropped.
#[verifier::external_body]
fn builder_finish<S: Syntax + 'static>(b: GreenBuilder<S>) -> (r: GreenNode)
    requires
        builder_children(b.raw).len() == 1,
        builder_children(b.raw)[0] is Node,
    ensures
        green_tree(r) == builder_children(b.raw)[0],
{
    b.raw.b.downcast::<GreenNodeBuilder<'static, 'static, S>>().unwrap().finish().0
}

/// `Syntax::static_text`: the kind with its static text, if it has one (which the `Syntax`
/// impl of the kind type decides, not stated).
#[verifier::external_body]
fn syntax_static_text<S: Syntax>(kind: S) -> (r: KindText<S>)
    ensures
        r.kind() == kind,
{
    KindText { kind, text: S::static_text(kind) }
}

/// `GreenNode::kind`: the raw kind of a node.
#[verifier::external_body]
pub(crate) fn node_kind(n: &GreenNode) -> (r: u32)
    ensures
        r == tree_kind(green_tree(*n)),
{
    n.kind().0
}

/// `GreenNode::text_len`: the text length that a node records.
#[verifier::external_body]
pub(crate) fn node_text_len(n: &GreenNode) -> (r: u32)
    ensures
        r == tree_len(green_tree(*n)),
{
    u32::from(n.text_len())
}

/// `GreenNode::children`: the children of a node, in order. A child node holds the tree at
/// that place; a child token has the kind and length that the tree gives there.
#[verifier::external_body]
pub(crate) fn node_children<'a>(n: &'a GreenNode) -> (r: Vec<GreenChild<'a>>)
    ensures
        r@.len() == tree_children(green_tree(*n)).len(),
        forall|i: int|
            0 <= i < r@.len() ==> match #[trigger] r@[i] {
                GreenChild::Node(c) => green_tree(*c) is Node && green_tree(*c) == tree_children(
                    green_tree(*n),
                )[i],
                GreenChild::Token(t) => tree_children(green_tree(*n))[i] == (GreenTree::Token {
                    token_kind: green_token_kind(*t),
                    token_len: green_token_len(*t),
                }),
            },
{
    n.children().map(|c| match c {
        NodeOrToken::Node(m) => GreenChild::Node(m),
        NodeOrToken::Token(t) => GreenChild::Token(t),
    }).collect()
}

/// `GreenToken::kind`: the raw kind of a token.
#[verifier::external_body]
pub(crate) fn token_kind(t: &GreenToken) -> (r: u32)
    ensures
        r == green_token_kind(*t),
{
    t.kind().0
}

/// `GreenToken::text_len`: the text length of a token.
#[verifier::external_body]
pub(crate) fn token_text_len(t: &GreenToken) -> (r: u32)
    ensures
        r == green_token_len(*t),
{
    u32::from(t.text_len())
}

/// [`CstBuilder`] backed by a `cstree` green node builder. Marks and checkpoints are
/// `cstree` checkpoints; closing a rule wraps everything added since its mark.
#[verifier::reject_recursive_types(S)]
pub struct CstreeBuilder<S> {
    inner: GreenBuilder<S>,
}

/// A node of raw kind `k` over `items`, with their total length, made with the node cache
/// `cache`: it holds exactly `items` unless the cache may give back an earlier node of its
/// kind and length, when it holds the children `cs` (see `end_rule`).
pub open spec fn wrapped(
    k: u32,
    items: Seq<GreenTree>,
    cs: Seq<GreenTree>,
    cache: Set<(u32, nat)>,
) -> GreenTree {
    GreenTree::Node {
        node_kind: k,
        node_len: trees_len(items),
        children: if cache_may_hit(cache, k, items) {
            cs
        } else {
            items
        },
    }
}

impl<S> CstreeBuilder<S> {
    /// The finished elements on the builder's stack, oldest first.
    pub closed spec fn elements(&self) -> Seq<GreenTree> {
        self.inner.children()
    }

    /// The (raw kind, length) pairs of the nodes in the builder's node cache.
    pub closed spec fn cached(&self) -> Set<(u32, nat)> {
        self.inner.cache()
    }

    /// The number of nodes open in the builder (none: rules are closed as they are built).
    pub closed spec fn open_nodes(&self) -> nat {
        self.inner.parents().len()
    }

    /// `cp` marks the current stack of elements or an earlier point of it, with no node
    /// open: a rule can be closed there, or the builder reverted to it.
    pub open spec fn valid_mark(&self, cp: Checkpoint) -> bool {
        &&& self.open_nodes() == 0
        &&& checkpoint_pos(cp).0 == 0
        &&& checkpoint_pos(cp).1 <= self.elements().len()
    }

    /// The elements added since `cp`.
    pub open spec fn since(&self, cp: Checkpoint) -> Seq<GreenTree> {
        self.elements().subrange(checkpoint_pos(cp).1 as int, self.elements().len() as int)
    }
}

impl<S: Syntax + 'static> CstreeBuilder<S> {
    pub fn new_empty() -> (r: Self)
        ensures
            r.elements() == Seq::<GreenTree>::empty(),
            r.open_nodes() == 0,
            r.cached() == Set::<(u32, nat)>::empty(),
    {
        CstreeBuilder { inner: builder_new::<S>() }
    }
}

impl<S: Syntax + 'static> CstreeBuilder<S> {
    /// Same as [`new_empty`](CstreeBuilder::new_empty); the spans are not needed.
    pub fn new(_spans: Vec<Span>) -> (r: Self)
        ensures
            r.elements() == Seq::<GreenTree>::empty(),
            r.open_nodes() == 0,
            r.cached() == Set::<(u32, nat)>::empty(),
    {
        CstreeBuilder::new_empty()
    }

    /// Adds a token; a kind with a static text is stored without its text. Its kind and
    /// length come from the `Syntax` impl of `S` and are not stated.
    pub fn token(&mut self, kind: S, text: &str)
        ensures
            final(self).open_nodes() == old(self).open_nodes(),
            final(self).cached() == old(self).cached(),
            exists|k: u32, l: u32|
                final(self).elements() == old(self).elements().push(
                    GreenTree::Token { token_kind: k, token_len: l as nat },
                ),
            exists|kt: KindText<S>|
                #![trigger kt.given_for(kind)]
                kt.given_for(kind) && final(self).elements().last()->token_len == kt.stored_len(text),
    {
        let ghost before = self.elements();
        let kt = syntax_static_text(kind);
        assert(kt.given_for(kind));
        if kt.has_static_text() {
            builder_static_token::<S>(&mut self.inner, &kt);
            proof {
                let l: u32 = kt.static_bytes()->0.len() as u32;
                let k = choose|k: u32|
                    self.inner.children() == before.push(GreenTree::Token { token_kind: k, token_len: l as nat });
                assert(self.elements() == before.push(GreenTree::Token { token_kind: k, token_len: l as nat }));
            }
        } else {
            builder_token::<S>(&mut self.inner, &kt, text);
            proof {
                let l: u32 = crate::text::bytes_of(text).len() as u32;
                let k = choose|k: u32|
                    self.inner.children() == before.push(GreenTree::Token { token_kind: k, token_len: l as nat });
                assert(self.elements() == before.push(GreenTree::Token { token_kind: k, token_len: l as nat }));
            }
        }
    }

    /// Same as [`token`](CstreeBuilder::token): this backend keeps skip tokens like others,
    /// with their text.
    pub fn token_skip(&mut self, kind: S, text: &str)
        ensures
            final(self).open_nodes() == old(self).open_nodes(),
            final(self).cached() == old(self).cached(),
            exists|k: u32, l: u32|
                final(self).elements() == old(self).elements().push(
                    GreenTree::Token { token_kind: k, token_len: l as nat },
                ),
            exists|kt: KindText<S>|
                #![trigger kt.given_for(kind)]
                kt.given_for(kind) && final(self).elements().last()->token_len == kt.stored_len(text),
    {
        self.token(kind, text);
    }

    /// A mark for a rule that starts here.
    pub fn start_rule(&mut self) -> (r: Checkpoint)
        ensures
            *final(self) == *old(self),
            checkpoint_pos(r) == (old(self).open_nodes(), old(self).elements().len()),
    {
        builder_checkpoint::<S>(&self.inner)
    }

    /// Wraps everything added since `mark` in a node of kind `rule` (its raw kind, which
    /// the `Syntax` impl gives, is not stated) whose length is the sum of theirs. The node
    /// holds exactly them, unless it has at most three and the node cache already holds a
    /// node of its kind and length: then `cstree` may give back that earlier node (on a
    /// hash collision of the children), whose children are not stated.
    pub fn end_rule(&mut self, mark: Checkpoint, rule: S)
        requires
            old(self).valid_mark(mark),
            trees_len(old(self).since(mark)) <= u32::MAX,
        ensures
            final(self).open_nodes() == 0,
            exists|k: u32, cs: Seq<GreenTree>|
                final(self).elements() == old(self).elements().subrange(
                    0,
                    checkpoint_pos(mark).1 as int,
                ).push(wrapped(k, old(self).since(mark), cs, old(self).cached()))
                    && final(self).cached() == cache_after(old(self).cached(), k, old(self).since(mark)),
    {
        builder_start_node_at::<S>(&mut self.inner, mark, rule);
        let ghost k = self.inner.parents().last().0;
        proof {
            assert(self.inner.parents() =~= seq![(k, checkpoint_pos(mark).1)]);
            assert(finished_items(self.inner.children(), self.inner.parents()) =~= old(self).since(mark));
        }
        builder_finish_node::<S>(&mut self.inner);
        proof {
            let cs = tree_children(self.elements().last());
            assert(self.elements() == old(self).elements().subrange(0, checkpoint_pos(mark).1 as int).push(
                wrapped(k, old(self).since(mark), cs, old(self).cached()),
            ));
        }
    }

    /// Same as [`end_rule`](CstreeBuilder::end_rule).
    pub fn end_rule_root(&mut self, mark: Checkpoint, rule: S)
        requires
            old(self).valid_mark(mark),
            trees_len(old(self).since(mark)) <= u32::MAX,
        ensures
            final(self).open_nodes() == 0,
            exists|k: u32, cs: Seq<GreenTree>|
                final(self).elements() == old(self).elements().subrange(
                    0,
                    checkpoint_pos(mark).1 as int,
                ).push(wrapped(k, old(self).since(mark), cs, old(self).cached()))
                    && final(self).cached() == cache_after(old(self).cached(), k, old(self).since(mark)),
    {
        self.end_rule(mark, rule);
    }

    /// A mark for the current position.
    pub fn mark(&self) -> (r: Checkpoint)
        ensures
            checkpoint_pos(r) == (self.open_nodes(), self.elements().len()),
    {
        builder_checkpoint::<S>(&self.inner)
    }

    /// A rule may be opened at an earlier mark: that mark serves as is.
    pub fn start_rule_before(&mut self, mark: Checkpoint) -> (r: Checkpoint)
        ensures
            r == mark,
            *final(self) == *old(self),
    {
        mark
    }

    /// A checkpoint to revert to.
    pub fn checkpoint(&self) -> (r: Checkpoint)
        ensures
            checkpoint_pos(r) == (self.open_nodes(), self.elements().len()),
    {
        builder_checkpoint::<S>(&self.inner)
    }

    /// Drops everything added since `checkpoint`.
    pub fn revert_to(&mut self, checkpoint: Checkpoint)
        requires
            old(self).valid_mark(checkpoint),
        ensures
            final(self).open_nodes() == 0,
            final(self).cached() == old(self).cached(),
            final(self).elements() == old(self).elements().subrange(
                0,
                checkpoint_pos(checkpoint).1 as int,
            ),
    {
        builder_revert_to::<S>(&mut self.inner, checkpoint);
    }

    /// This backend does not number nodes: no rule nodes are reported as removed.
    pub fn removed_rules(&self, _checkpoint: Checkpoint) -> (r: Vec<(S, NodeRef)>)
        ensures
            r@.len() == 0,
    {
        Vec::new()
    }

    /// This backend does not number nodes.
    pub fn node_ref(&self, _mark: Checkpoint) -> (r: Option<NodeRef>)
        ensures
            r is None,
    {
        None
    }

    /// The finished root node: the one element built, which must be a node.
    pub fn finish(self) -> (r: GreenNode)
        requires
            self.elements().len() == 1,
            self.elements()[0] is Node,
        ensures
            green_tree(r) == self.elements()[0],
    {
        builder_finish::<S>(self.inner)
    }
}

/// Adding a skip token keeps everything built so far and adds one token after it, stored
/// with its text: its length is that of the text given (in bytes, truncated to 32 bits),
/// or that of its kind's static text where the kind has one.
pub proof fn lemma_token_skip_keeps_text<S: Syntax + 'static>(kind: S, text: &str)
    ensures
        forall|b: &mut CstreeBuilder<S>|
            #[trigger] call_ensures(CstreeBuilder::<S>::token_skip, (b, kind, text), ()) ==> {
                &&& mut_ref_future(b).elements() == mut_ref_current(b).elements().push(
                    mut_ref_future(b).elements().last(),
                )
                &&& mut_ref_future(b).elements().last() is Token
                &&& exists|kt: KindText<S>|
                    #![trigger kt.given_for(kind)]
                    kt.given_for(kind) && mut_ref_future(b).elements().last()->token_len
                        == kt.stored_len(text)
            },
{
}

} // verus!
