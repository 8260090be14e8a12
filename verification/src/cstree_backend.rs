use vstd::prelude::*;

use ::cstree::build::Checkpoint;
use ::cstree::green::GreenNode;
use ::cstree::Syntax;

use crate::green::{
    green_token_kind, green_token_len, green_tree, node_children, node_kind, node_text_len,
    token_kind, token_text_len, tree_children, tree_kind, tree_len, GreenChild, GreenTree,
};
use crate::outline::{debug_quoted, joined, line_text, listing_line, quoted_text, OutlineLine};
use crate::text::{bytes_of, is_slice_range, slice_chars, str_slice};
use crate::types::{NodeRef, Span};

verus! {

/// A listing line with numbers read as numbers.
pub struct LineView {
    pub depth: nat,
    pub kind: u32,
    pub start: nat,
    pub end: nat,
    pub is_token: bool,
}

impl View for OutlineLine<u32> {
    type V = LineView;

    open spec fn view(&self) -> LineView {
        LineView {
            depth: self.depth as nat,
            kind: self.kind,
            start: self.start as nat,
            end: self.end as nat,
            is_token: self.is_token,
        }
    }
}

/// The listing of the children `cs` of a green node at depth `depth`, the first child
/// starting at byte `off`: each child gets a line with its range, followed by the lines
/// of its own children one level deeper; each next child starts where the previous ended.
pub open spec fn green_lines(cs: Seq<GreenTree>, depth: nat, off: nat) -> Seq<LineView>
    decreases cs,
{
    if cs.len() == 0 {
        seq![]
    } else {
        let c = cs[0];
        let here = LineView {
            depth,
            kind: tree_kind(c),
            start: off,
            end: off + tree_len(c),
            is_token: c is Token,
        };
        let inner = match c {
            GreenTree::Node { children, .. } => green_lines(children, depth + 1, off),
            GreenTree::Token { .. } => seq![],
        };
        seq![here] + inner + green_lines(cs.drop_first(), depth, off + tree_len(c))
    }
}

/// All offsets and depths of the listing of `cs` fit in `usize`.
pub open spec fn green_lines_fit(cs: Seq<GreenTree>, depth: nat, off: nat) -> bool
    decreases cs,
{
    if cs.len() == 0 {
        true
    } else {
        let c = cs[0];
        &&& off + tree_len(c) <= usize::MAX
        &&& depth < usize::MAX
        &&& match c {
            GreenTree::Node { children, .. } => green_lines_fit(children, depth + 1, off),
            GreenTree::Token { .. } => true,
        }
        &&& green_lines_fit(cs.drop_first(), depth, off + tree_len(c))
    }
}

/// The listing of a whole green tree that starts at byte `off`: its root line at depth 0,
/// then its children.
pub open spec fn green_listing(t: GreenTree, off: nat) -> Seq<LineView> {
    seq![LineView { depth: 0, kind: tree_kind(t), start: off, end: off + tree_len(t), is_token: false }]
        + green_lines(tree_children(t), 1, off)
}

/// Whether the listing of the children of `node` at `depth`, from byte `offset` on, fits
/// in `usize` (see `green_lines_fit`).
fn green_fits(node: &GreenNode, depth: usize, offset: usize) -> (r: bool)
    ensures
        r == green_lines_fit(tree_children(green_tree(*node)), depth as nat, offset as nat),
    decreases green_tree(*node),
{
    let children = node_children(node);
    let ghost cs = tree_children(green_tree(*node));
    let mut off = offset;
    let mut i: usize = 0;
    assert(cs.skip(0) =~= cs);
    while i < children.len()
        invariant
            0 <= i <= children@.len() == cs.len(),
            cs == tree_children(green_tree(*node)),
            forall|j: int|
                0 <= j < children@.len() ==> match #[trigger] children@[j] {
                    GreenChild::Node(c) => green_tree(*c) is Node && green_tree(*c) == cs[j],
                    GreenChild::Token(t) => cs[j] == (GreenTree::Token {
                        token_kind: green_token_kind(*t),
                        token_len: green_token_len(*t),
                    }),
                },
            green_lines_fit(cs, depth as nat, offset as nat) == green_lines_fit(
                cs.skip(i as int),
                depth as nat,
                off as nat,
            ),
        decreases children@.len() - i,
    {
        let ghost rest = cs.skip(i as int);
        assert(rest[0] == cs[i as int]);
        assert(rest.drop_first() =~= cs.skip(i + 1));
        if depth == usize::MAX {
            return false;
        }
        match &children[i] {
            GreenChild::Node(c) => {
                let len = node_text_len(c) as usize;
                if off > usize::MAX - len {
                    return false;
                }
                proof {
                    assert(green_tree(**c) == cs[i as int]);
                    assert(green_tree(*node) is Node);
                }
                if !green_fits(c, depth + 1, off) {
                    return false;
                }
                off = off + len;
            },
            GreenChild::Token(t) => {
                let len = token_text_len(t) as usize;
                if off > usize::MAX - len {
                    return false;
                }
                off = off + len;
            },
        }
        i += 1;
    }
    assert(cs.skip(i as int) =~= Seq::<GreenTree>::empty());
    true
}

/// Appends the listing of the children of `node` to `out`.
fn push_green_lines(node: &GreenNode, depth: usize, offset: usize, out: &mut Vec<OutlineLine<u32>>)
    requires
        green_lines_fit(tree_children(green_tree(*node)), depth as nat, offset as nat),
    ensures
        final(out)@.map_values(|l: OutlineLine<u32>| l@) == old(out)@.map_values(
            |l: OutlineLine<u32>| l@,
        ) + green_lines(tree_children(green_tree(*node)), depth as nat, offset as nat),
    decreases green_tree(*node),
{
    let children = node_children(node);
    let ghost cs = tree_children(green_tree(*node));
    let ghost start_out = old(out)@.map_values(|l: OutlineLine<u32>| l@);
    let mut off = offset;
    let mut i: usize = 0;
    assert(cs.skip(0) =~= cs);
    while i < children.len()
        invariant
            0 <= i <= children@.len() == cs.len(),
            cs == tree_children(green_tree(*node)),
            forall|j: int|
                0 <= j < children@.len() ==> match #[trigger] children@[j] {
                    GreenChild::Node(c) => green_tree(*c) is Node && green_tree(*c) == cs[j],
                    GreenChild::Token(t) => cs[j] == (GreenTree::Token {
                        token_kind: green_token_kind(*t),
                        token_len: green_token_len(*t),
                    }),
                },
            green_lines_fit(cs.skip(i as int), depth as nat, off as nat),
            start_out + green_lines(cs, depth as nat, offset as nat) == out@.map_values(
                |l: OutlineLine<u32>| l@,
            ) + green_lines(cs.skip(i as int), depth as nat, off as nat),
        decreases children@.len() - i,
    {
        let ghost rest = cs.skip(i as int);
        assert(rest[0] == cs[i as int]);
        assert(rest.drop_first() =~= cs.skip(i + 1));
        let ghost before = out@.map_values(|l: OutlineLine<u32>| l@);
        match &children[i] {
            GreenChild::Node(c) => {
                let kind = node_kind(c);
                let len = node_text_len(c) as usize;
                let line = OutlineLine { depth, kind, start: off, end: off + len, is_token: false };
                out.push(line);
                assert(out@.map_values(|l: OutlineLine<u32>| l@) =~= before.push(line@));
                proof {
                    assert(green_tree(**c) == cs[i as int]);
                    assert(green_tree(*node) is Node);
                }
                push_green_lines(c, depth + 1, off, out);
                proof {
                    let here = line@;
                    let inner = green_lines(tree_children(cs[i as int]), (depth + 1) as nat, off as nat);
                    assert(green_lines(rest, depth as nat, off as nat) == seq![here] + inner
                        + green_lines(cs.skip(i + 1), depth as nat, (off + len) as nat));
                    assert(out@.map_values(|l: OutlineLine<u32>| l@) == before.push(here) + inner);
                    assert(before + (seq![here] + inner + green_lines(cs.skip(i + 1), depth as nat, (off + len) as nat))
                        =~= before.push(here) + inner + green_lines(cs.skip(i + 1), depth as nat, (off + len) as nat));
                }
                off = off + len;
            },
            GreenChild::Token(t) => {
                let kind = token_kind(t);
                let len = token_text_len(t) as usize;
                let line = OutlineLine { depth, kind, start: off, end: off + len, is_token: true };
                out.push(line);
                assert(out@.map_values(|l: OutlineLine<u32>| l@) =~= before.push(line@));
                proof {
                    let here = line@;
                    assert(green_lines(rest, depth as nat, off as nat) == seq![here]
                        + green_lines(cs.skip(i + 1), depth as nat, (off + len) as nat));
                    assert(before + (seq![here] + green_lines(cs.skip(i + 1), depth as nat, (off + len) as nat))
                        =~= before.push(here) + green_lines(cs.skip(i + 1), depth as nat, (off + len) as nat));
                }
                off = off + len;
            },
        }
        i += 1;
    }
    assert(cs.skip(i as int) =~= Seq::<GreenTree>::empty());
}

/// Displays a `cstree` green node in the same format as [`Cst`](crate::Cst).
#[verifier::reject_recursive_types(S)]
pub struct CstreeDisplay<'a, S> {
    node: &'a GreenNode,
    source: &'a str,
    offset: usize,
    kinds: core::marker::PhantomData<S>,
}

impl<'a, S: Syntax + 'static> CstreeDisplay<'a, S> {
    /// The tree displayed.
    pub closed spec fn tree(self) -> GreenTree {
        green_tree(*self.node)
    }

    /// The source text the token texts are taken from.
    pub closed spec fn text(self) -> &'a str {
        self.source
    }

    /// The byte offset at which the tree starts in the source.
    pub closed spec fn start(self) -> nat {
        self.offset as nat
    }

    /// Displays the tree `node` built from `source`, which it starts.
    pub fn new(node: &'a GreenNode, source: &'a str) -> (r: Self)
        ensures
            r.tree() == green_tree(*node),
            r.text() == source,
            r.start() == 0,
    {
        CstreeDisplay { node, source, offset: 0, kinds: core::marker::PhantomData }
    }

    /// Displays the subtree `node` that starts at byte `offset` of `source`.
    pub fn at(node: &'a GreenNode, source: &'a str, offset: usize) -> (r: Self)
        ensures
            r.tree() == green_tree(*node),
            r.text() == source,
            r.start() == offset,
    {
        CstreeDisplay { node, source, offset, kinds: core::marker::PhantomData }
    }

    /// The lines of the listing, with raw kinds.
    pub fn outline(&self) -> (r: Vec<OutlineLine<u32>>)
        requires
            self.start() + tree_len(self.tree()) <= usize::MAX,
            green_lines_fit(tree_children(self.tree()), 1, self.start()),
        ensures
            r@.map_values(|l: OutlineLine<u32>| l@) == green_listing(self.tree(), self.start()),
    {
        let kind = node_kind(self.node);
        let len = node_text_len(self.node) as usize;
        let start = self.offset;
        let mut out: Vec<OutlineLine<u32>> = Vec::new();
        out.push(OutlineLine { depth: 0, kind, start, end: start + len, is_token: false });
        assert(out@.map_values(|l: OutlineLine<u32>| l@) =~= seq![
            LineView { depth: 0, kind, start: start as nat, end: (start + len) as nat, is_token: false },
        ]);
        push_green_lines(self.node, 1, start, &mut out);
        out
    }

    /// Whether the tree can be listed as [`to_string`](CstreeDisplay::to_string) needs: its
    /// offsets and indentation fit in `usize`, and every token's range is a valid slice of
    /// the source.
    pub fn is_listable(&self) -> (r: bool)
        ensures
            r == {
                &&& self.start() + tree_len(self.tree()) <= usize::MAX
                &&& green_lines_fit(tree_children(self.tree()), 1, self.start())
                &&& forall|i: int|
                    0 <= i < green_listing(self.tree(), self.start()).len() ==> {
                        let l = #[trigger] green_listing(self.tree(), self.start())[i];
                        &&& l.depth * 4 <= usize::MAX
                        &&& l.is_token ==> is_slice_range(self.text(), l.start as int, l.end as int)
                    }
            },
    {
        let len = node_text_len(self.node) as usize;
        if self.offset > usize::MAX - len {
            return false;
        }
        if !green_fits(self.node, 1, self.offset) {
            return false;
        }
        let lines = self.outline();
        let ghost lv = green_listing(self.tree(), self.start());
        let bytes = self.source.as_bytes().len();
        let mut i: usize = 0;
        while i < lines.len()
            invariant
                0 <= i <= lines@.len(),
                lines@.map_values(|l: OutlineLine<u32>| l@) == lv,
                lv == green_listing(self.tree(), self.start()),
                bytes == bytes_of(self.text()).len(),
                forall|j: int|
                    0 <= j < i ==> {
                        let l = #[trigger] lv[j];
                        &&& l.depth * 4 <= usize::MAX
                        &&& l.is_token ==> is_slice_range(self.text(), l.start as int, l.end as int)
                    },
            decreases lines@.len() - i,
        {
            let line = &lines[i];
            assert(lv[i as int] == lines@[i as int]@);
            if line.depth > usize::MAX / 4 {
                return false;
            }
            if line.is_token && !(line.start <= line.end && line.end <= bytes
                && self.source.is_char_boundary(line.start) && self.source.is_char_boundary(line.end)) {
                return false;
            }
            i += 1;
        }
        proof {
            assert(lines@.len() == lv.len()) by {
                assert(lines@.map_values(|l: OutlineLine<u32>| l@).len() == lines@.len());
            }
        }
        true
    }

    /// The text of listing line `l` with `name` as the text of its kind: four spaces per
    /// level, the name, for a token its quoted source text, and the byte range.
    pub open spec fn line_text(self, l: LineView, name: Seq<char>) -> Seq<char> {
        let quoted = if l.is_token {
            Some(debug_quoted(slice_chars(self.text(), l.start as int, l.end as int)))
        } else {
            None
        };
        listing_line(l.depth * 4, name, quoted, l.start, l.end)
    }

    /// The listing as text, with `names[j]` as the text of the kind on line `j`.
    pub open spec fn listing_text(self, names: Seq<String>) -> Seq<char> {
        let lines = green_listing(self.tree(), self.start());
        joined(Seq::new(lines.len(), |j: int| self.line_text(lines[j], names[j]@)))
    }

    /// The listing as text: one line per node, indented by four spaces per level; a node
    /// shows its kind and byte range, a token also its quoted source text. Each kind is
    /// written as `name` gives it for the raw kind (callers turn raw kinds into their
    /// kind type's names, which depends on its `Syntax` impl).
    pub fn to_string_with<F: Fn(u32) -> String>(&self, name: F) -> (r: String)
        requires
            forall|k: u32| call_requires(name, (k,)),
            self.start() + tree_len(self.tree()) <= usize::MAX,
            green_lines_fit(tree_children(self.tree()), 1, self.start()),
            forall|i: int|
                0 <= i < green_listing(self.tree(), self.start()).len() ==> {
                    let l = #[trigger] green_listing(self.tree(), self.start())[i];
                    &&& l.depth * 4 <= usize::MAX
                    &&& l.is_token ==> is_slice_range(self.text(), l.start as int, l.end as int)
                },
        ensures
            exists|names: Seq<String>|
                names.len() == green_listing(self.tree(), self.start()).len() && (forall|j: int|
                    0 <= j < names.len() ==> call_ensures(
                        name,
                        (green_listing(self.tree(), self.start())[j].kind,),
                        #[trigger] names[j],
                    )) && r@ == self.listing_text(names),
    {
        let ghost lv = green_listing(self.tree(), self.start());
        let lines = self.outline();
        let mut out = String::new();
        let ghost mut names: Seq<String> = Seq::empty();
        let mut i: usize = 0;
        proof {
            assert(Seq::new(0, |x: int| self.line_text(lv[x], names[x]@)) =~= Seq::<Seq<char>>::empty());
        }
        while i < lines.len()
            invariant
                0 <= i <= lines@.len(),
                lv == green_listing(self.tree(), self.start()),
                lines@.map_values(|l: OutlineLine<u32>| l@) == lv,
                names.len() == i,
                out@ == joined(Seq::new(i as nat, |x: int| self.line_text(lv[x], names[x]@))),
                forall|j: int| 0 <= j < i ==> call_ensures(name, (lv[j].kind,), #[trigger] names[j]),
                forall|k: u32| call_requires(name, (k,)),
                forall|j: int|
                    0 <= j < lv.len() ==> {
                        let l = #[trigger] lv[j];
                        &&& l.depth * 4 <= usize::MAX
                        &&& l.is_token ==> is_slice_range(self.text(), l.start as int, l.end as int)
                    },
            decreases lines@.len() - i,
        {
            let line = &lines[i];
            assert(lv[i as int] == lines@[i as int]@);
            let kind_name = name(line.kind);
            let width = line.depth * 4;
            let text = if line.is_token {
                let piece = str_slice(self.source, line.start, line.end);
                let quoted = quoted_text(piece);
                line_text(width, kind_name.as_str(), Some(quoted.as_str()), line.start, line.end)
            } else {
                line_text(width, kind_name.as_str(), None, line.start, line.end)
            };
            let ghost prev = names;
            proof {
                names = names.push(kind_name);
            }
            out.append(text.as_str());
            proof {
                let ghost all = Seq::new((i + 1) as nat, |x: int| self.line_text(lv[x], names[x]@));
                assert(text@ == self.line_text(lv[i as int], names[i as int]@));
                assert(all.drop_last() =~= Seq::new(i as nat, |x: int| self.line_text(lv[x], prev[x]@)));
                assert(joined(all) == joined(all.drop_last()) + all.last());
            }
            i += 1;
        }
        proof {
            assert(lines@.len() == lv.len()) by {
                assert(lines@.map_values(|l: OutlineLine<u32>| l@).len() == lines@.len());
            }
            assert(out@ == self.listing_text(names));
        }
        out
    }
}

} // verus!
