use cstree::{RawSyntaxKind, Syntax};
use lelwel::{Cst, CstBuilder, CstData, CstIndex, CstreeBuilder, CstreeDisplay, Node, NodeRef, RuleType, TokenType};

#[derive(Debug, Clone, Copy, PartialEq, Eq)]
enum K {
    Root,
    Group,
    Word,
    Space,
}

/// The name that `Debug` gives the kind with raw number `raw`.
fn kind_name(raw: u32) -> String {
    format!("{:?}", K::from_raw(RawSyntaxKind(raw)))
}

impl Syntax for K {
    fn from_raw(raw: RawSyntaxKind) -> Self {
        match raw.0 {
            0 => K::Root,
            1 => K::Group,
            2 => K::Word,
            _ => K::Space,
        }
    }
    fn into_raw(self) -> RawSyntaxKind {
        RawSyntaxKind(self as u32)
    }
    fn static_text(self) -> Option<&'static str> {
        None
    }
}

impl TokenType for K {
    fn spec_is_skip(&self) -> bool {
        self.is_skip()
    }
    fn spec_is_eof(&self) -> bool {
        false
    }
    fn is_skip(&self) -> bool {
        matches!(self, K::Space)
    }
    fn is_eof(&self) -> bool {
        false
    }
    fn eof() -> Self {
        K::Root
    }
}

impl RuleType for K {
    fn spec_error() -> Self {
        K::Root
    }
    fn error() -> Self {
        K::Root
    }
}

/// "ab cd": root [ group [ ab ] space cd ]
fn sample() -> Cst<'static, K, K> {
    let mut cd: CstData<K, K> = CstData::new(vec![0..2, 2..3, 3..5]);
    let root = cd.start_rule();
    let g = cd.start_rule();
    cd.token(K::Word, "ab");
    cd.end_rule(g, K::Group);
    cd.token_skip(K::Space, " ");
    cd.token(K::Word, "cd");
    cd.end_rule_root(root, K::Root);
    Cst::new("ab cd", cd)
}

fn collect(cst: &Cst<'_, K, K>, n: NodeRef) -> Vec<NodeRef> {
    let mut it = cst.children(n);
    let mut v = Vec::new();
    while let Some(c) = it.next() {
        v.push(c);
    }
    v
}

#[test]
fn children_skip_descendants() {
    let cst = sample();
    assert_eq!(collect(&cst, NodeRef(0)), vec![NodeRef(1), NodeRef(3), NodeRef(4)]);
    assert_eq!(collect(&cst, NodeRef(1)), vec![NodeRef(2)]);
    assert!(collect(&cst, NodeRef(2)).is_empty());
}

#[test]
fn spans_of_rules_and_tokens() {
    let cst = sample();
    assert_eq!(cst.span(NodeRef(0)), 0..5);
    assert_eq!(cst.span(NodeRef(1)), 0..2);
    assert_eq!(cst.span(NodeRef(4)), 3..5);
}

#[test]
fn empty_rule_sits_after_the_last_earlier_token() {
    let mut cd: CstData<K, K> = CstData::new(vec![0..2]);
    let root = cd.start_rule();
    cd.token(K::Word, "ab");
    let g = cd.start_rule();
    cd.end_rule(g, K::Group);
    cd.end_rule_root(root, K::Root);
    assert_eq!(cd.span(NodeRef(2)), 2..2);
}

#[test]
fn matching_tokens_and_rules() {
    let cst = sample();
    assert_eq!(cst.match_token(NodeRef(4), K::Word), Some(("cd", 3..5)));
    assert_eq!(cst.match_token(NodeRef(4), K::Space), None);
    assert_eq!(cst.match_token(NodeRef(1), K::Word), None);
    assert!(cst.match_rule(NodeRef(1), K::Group));
    assert!(!cst.match_rule(NodeRef(1), K::Root));
    assert!(!cst.match_rule(NodeRef(2), K::Word));
    assert_eq!(cst.span_text(CstIndex::new(1)), " ");
    assert!(matches!(cst.get(NodeRef(3)), Node::Token(K::Space, _)));
    assert_eq!(cst.source(), "ab cd");
}

#[test]
fn outline_is_preorder_with_depths() {
    let cst = sample();
    assert_eq!(
        cst.outline(),
        vec![(0, NodeRef(0)), (1, NodeRef(1)), (2, NodeRef(2)), (1, NodeRef(3)), (1, NodeRef(4))]
    );
    assert_eq!(
        cst.to_string(),
        "Root [0..5]\n    Group [0..2]\n        Word \"ab\" [0..2]\n    Space \" \" [2..3]\n    Word \"cd\" [3..5]\n"
    );
    let data = cst.into_data();
    assert_eq!(data.nodes.len(), 5);
}

#[test]
fn subtree_listing_at_an_offset() {
    let mut b = CstreeBuilder::<K>::new_empty();
    let root = b.start_rule();
    b.token(K::Word, "ab");
    let g = b.start_rule();
    b.token(K::Word, "cd");
    b.end_rule(g, K::Group);
    b.end_rule(root, K::Root);
    let tree = b.finish();
    let group = match tree.children().nth(1) {
        Some(cstree::util::NodeOrToken::Node(n)) => n.clone(),
        _ => panic!("expected a node"),
    };
    let s = CstreeDisplay::<K>::at(&group, "abcd", 2).to_string_with(kind_name);
    assert_eq!(s, "Group [2..4]\n    Word \"cd\" [2..4]\n");
}

#[test]
fn listing_escapes_text_and_writes_long_offsets() {
    let source = "say \"hi\" to everyone";
    let mut cd: CstData<K, K> = CstData::new(vec![0..3, 3..4, 4..8, 8..9, 9..20]);
    let root = cd.start_rule();
    cd.token(K::Word, "say");
    cd.token_skip(K::Space, " ");
    cd.token(K::Word, "\"hi\"");
    cd.token_skip(K::Space, " ");
    cd.token(K::Word, "to everyone");
    cd.end_rule_root(root, K::Root);
    let cst = Cst::new(source, cd);
    assert_eq!(
        cst.to_string(),
        "Root [0..20]\n    Word \"say\" [0..3]\n    Space \" \" [3..4]\n    Word \"\\\"hi\\\"\" [4..8]\n    Space \" \" [8..9]\n    Word \"to everyone\" [9..20]\n"
    );
}

#[test]
fn listable_trees_and_bad_spans() {
    assert!(sample().is_listable());
    let mut cd: CstData<K, K> = CstData::new(vec![0..9]);
    let root = cd.start_rule();
    cd.token(K::Word, "ab");
    cd.end_rule_root(root, K::Root);
    let cst = Cst::new("ab", cd);
    assert!(!cst.is_listable());
    let mut b = CstreeBuilder::<K>::new_empty();
    let m = b.start_rule();
    b.token(K::Word, "ab");
    b.end_rule(m, K::Root);
    let green = b.finish();
    assert!(CstreeDisplay::<K>::new(&green, "ab").is_listable());
    assert!(!CstreeDisplay::<K>::new(&green, "a").is_listable());
}
