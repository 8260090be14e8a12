use lelwel::{CstBuilder, CstData, CstIndex, LelwelBuilder, Node, NodeRef, RuleType, TokenType};

#[derive(Debug, Clone, Copy, PartialEq, Eq)]
enum Tok {
    A,
    Ws,
}

#[derive(Debug, Clone, Copy, PartialEq, Eq)]
enum Rl {
    Error,
    Root,
    Inner,
}

impl TokenType for Tok {
    fn spec_is_skip(&self) -> bool {
        self.is_skip()
    }
    fn spec_is_eof(&self) -> bool {
        self.is_eof()
    }
    fn is_skip(&self) -> bool {
        matches!(self, Tok::Ws)
    }
    fn is_eof(&self) -> bool {
        false
    }
    fn eof() -> Self {
        Tok::A
    }
}

impl RuleType for Rl {
    fn spec_error() -> Self {
        Rl::Error
    }
    fn error() -> Self {
        Rl::Error
    }
}

fn extent(node: Node<Tok, Rl>) -> usize {
    match node {
        Node::Rule(_, k) => k.get(),
        Node::Token(_, i) => i.get(),
    }
}

#[test]
fn end_rule_leaves_trailing_skips_outside() {
    // "a " then close the inner rule, then "a": the space belongs to the root only.
    let source = "a a";
    let inner = CstData::<Tok, Rl>::new(vec![0..1, 1..2, 2..3]);
    let mut b = LelwelBuilder::new(inner, source);
    let root = b.start_rule();
    let m = b.start_rule();
    b.advance(Tok::A, false, 0..1);
    b.advance(Tok::Ws, true, 1..2);
    b.end_rule(m, Rl::Inner);
    b.advance(Tok::A, false, 2..3);
    b.end_rule_root(root, Rl::Root);
    let data = b.finish();
    assert_eq!(data.nodes.len(), 5);
    assert!(matches!(data.nodes[1], Node::Rule(Rl::Inner, _)));
    assert_eq!(extent(data.nodes[1]), 1);
    assert!(matches!(data.nodes[3], Node::Token(Tok::Ws, _)));
    assert_eq!(extent(data.nodes[0]), 4);
}

#[test]
fn end_rule_root_takes_trailing_skips() {
    let source = "a ";
    let inner = CstData::<Tok, Rl>::new(vec![0..1, 1..2]);
    let mut b = LelwelBuilder::new(inner, source);
    let root = b.start_rule();
    b.advance(Tok::A, false, 0..1);
    b.advance(Tok::Ws, true, 1..2);
    b.end_rule_root(root, Rl::Root);
    let data = b.finish();
    assert_eq!(data.nodes.len(), 3);
    assert_eq!(extent(data.nodes[0]), 2);
    assert_eq!(data.span(NodeRef(0)), 0..2);
}

#[test]
fn restore_in_ordered_choice_replays_skips() {
    let source = " a";
    let inner = CstData::<Tok, Rl>::new(vec![0..1, 1..2]);
    let mut b = LelwelBuilder::new(inner, source);
    b.in_ordered_choice = true;
    let _root = b.start_rule();
    b.advance(Tok::Ws, true, 0..1);
    let (cp, start_idx, len) = b.state();
    let m = b.start_rule();
    b.advance(Tok::A, false, 1..2);
    b.end_rule(m, Rl::Inner);
    assert_eq!(b.collect_removed(cp), vec![(Rl::Inner, NodeRef(2))]);
    b.restore(cp, start_idx, len);
    assert_eq!(b.inner().nodes.len(), 1);
    // the buffered space is emitted again by the next opening operation
    let _m2 = b.mark();
    assert_eq!(b.inner().nodes.len(), 2);
    assert!(matches!(b.inner().nodes[1], Node::Token(Tok::Ws, _)));
}

#[test]
fn revert_undoes_appends() {
    let mut cd = CstData::<Tok, Rl>::new(vec![0..1, 1..2]);
    let root = cd.start_rule();
    let cp = cd.checkpoint();
    let m = cd.start_rule();
    cd.token(Tok::A, "a");
    cd.token_skip(Tok::Ws, " ");
    assert_eq!(cd.removed_rules(cp), vec![(Rl::Error, NodeRef(m))]);
    cd.revert_to(cp);
    assert_eq!(cd.nodes.len(), 1);
    cd.token(Tok::A, "a");
    assert!(matches!(cd.nodes[1], Node::Token(Tok::A, i) if i.get() == 0));
    cd.end_rule(root, Rl::Root);
    assert_eq!(extent(cd.nodes[0]), 1);
}

#[test]
fn start_rule_before_wraps_earlier_nodes() {
    let mut cd = CstData::<Tok, Rl>::new(vec![0..1, 1..2]);
    let root = cd.start_rule();
    let start = cd.mark();
    cd.token(Tok::A, "a");
    cd.token(Tok::A, "a");
    let m = cd.start_rule_before(start);
    assert_eq!(m, start);
    cd.end_rule(m, Rl::Inner);
    cd.end_rule_root(root, Rl::Root);
    assert!(matches!(cd.nodes[1], Node::Rule(Rl::Inner, _)));
    assert_eq!(extent(cd.nodes[1]), 2);
    assert_eq!(extent(cd.nodes[0]), 3);
    let children: Vec<NodeRef> = {
        let mut it = cd.children(NodeRef(0));
        let mut v = Vec::new();
        while let Some(c) = it.next() {
            v.push(c);
        }
        v
    };
    assert_eq!(children, vec![NodeRef(1)]);
}

#[test]
fn index_round_trip() {
    for v in [0usize, 1, 255, 256, 65_535, 1 << 40, (1 << 48) - 1] {
        assert_eq!(CstIndex::new(v).get(), v);
    }
    assert_eq!(CstIndex::new(1 << 48).get(), 0);
    assert_eq!(usize::from(CstIndex::new(77)), 77);
    assert_eq!(NodeRef::root(), NodeRef(0));
}

#[test]
fn revert_undoes_closed_and_inserted_rules() {
    let mut cd = CstData::<Tok, Rl>::new(vec![0..1, 1..2, 2..3]);
    let root = cd.start_rule();
    cd.token(Tok::A, "a");
    let cp = cd.checkpoint();
    let start = cd.mark();
    let m = cd.start_rule();
    cd.token(Tok::A, "a");
    cd.end_rule(m, Rl::Root);
    let outer = cd.start_rule_before(start);
    cd.token(Tok::A, "a");
    cd.end_rule(outer, Rl::Root);
    assert_eq!(cd.nodes.len(), 6);
    cd.revert_to(cp);
    assert_eq!(cd.nodes.len(), 2);
    assert!(matches!(cd.nodes[1], Node::Token(Tok::A, i) if i.get() == 0));
    cd.token(Tok::A, "a");
    assert!(matches!(cd.nodes[2], Node::Token(Tok::A, i) if i.get() == 1));
    cd.end_rule(root, Rl::Root);
    assert_eq!(extent(cd.nodes[0]), 2);
}
