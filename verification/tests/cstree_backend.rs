use cstree::{RawSyntaxKind, Syntax};
use lelwel::{Cst, CstBuilder, CstData, CstreeBuilder, CstreeDisplay, RuleType, TokenType};

#[derive(Debug, Clone, Copy, PartialEq, Eq)]
enum TestKind {
    Root,
    Rule,
    TokenA,
    TokenB,
}

/// The name that `Debug` gives the kind with raw number `raw`.
fn kind_name(raw: u32) -> String {
    format!("{:?}", TestKind::from_raw(RawSyntaxKind(raw)))
}

impl Syntax for TestKind {
    fn from_raw(raw: RawSyntaxKind) -> Self {
        match raw.0 {
            0 => TestKind::Root,
            1 => TestKind::Rule,
            2 => TestKind::TokenA,
            3 => TestKind::TokenB,
            _ => panic!("unknown TestKind: {}", raw.0),
        }
    }
    fn into_raw(self) -> RawSyntaxKind {
        RawSyntaxKind(self as u32)
    }
    fn static_text(self) -> Option<&'static str> {
        None
    }
}

impl TokenType for TestKind {
    fn spec_is_skip(&self) -> bool {
        false
    }
    fn spec_is_eof(&self) -> bool {
        false
    }
    fn is_skip(&self) -> bool {
        false
    }
    fn is_eof(&self) -> bool {
        false
    }
    fn eof() -> Self {
        TestKind::Root
    }
}

impl RuleType for TestKind {
    fn spec_error() -> Self {
        TestKind::Root
    }
    fn error() -> Self {
        TestKind::Root
    }
}

#[test]
fn build_simple_tree() {
    let mut b = CstreeBuilder::<TestKind>::new_empty();
    let m = b.start_rule();
    b.token(TestKind::TokenA, "hello");
    b.token(TestKind::TokenB, "world");
    b.end_rule(m, TestKind::Root);
    let tree = b.finish();
    assert_eq!(tree.children().count(), 2);
}

#[test]
fn build_nested_tree() {
    let mut b = CstreeBuilder::<TestKind>::new_empty();
    let root = b.start_rule();
    let inner = b.start_rule();
    b.token(TestKind::TokenA, "a");
    b.end_rule(inner, TestKind::Rule);
    b.token(TestKind::TokenB, "b");
    b.end_rule(root, TestKind::Root);
    let tree = b.finish();
    assert_eq!(tree.children().count(), 2);
}

#[test]
fn revert_checkpoint() {
    let mut b = CstreeBuilder::<TestKind>::new_empty();
    let root = b.start_rule();
    let cp = b.checkpoint();
    b.token(TestKind::TokenA, "discard");
    b.revert_to(cp);
    b.token(TestKind::TokenB, "keep");
    b.end_rule(root, TestKind::Root);
    let tree = b.finish();
    assert_eq!(tree.children().count(), 1);
}

#[test]
fn cstree_display_format() {
    let mut b = CstreeBuilder::<TestKind>::new_empty();
    let m = b.start_rule();
    b.token(TestKind::TokenA, "hello");
    b.token(TestKind::TokenB, "world");
    b.end_rule(m, TestKind::Root);
    let tree = b.finish();
    let s = CstreeDisplay::<TestKind>::new(&tree, "helloworld").to_string_with(kind_name);
    assert!(s.contains("Root"));
    assert!(s.contains("TokenA"));
    assert!(s.contains("TokenB"));
}

#[test]
fn cross_backend_equivalence() {
    let source = "ab";

    // CstData tree
    let mut cd: CstData<TestKind, TestKind> = CstData::new(vec![0..1, 1..2]);
    let rm = cd.start_rule();
    cd.token(TestKind::TokenA, "a");
    cd.token(TestKind::TokenB, "b");
    cd.end_rule(rm, TestKind::Root);
    let cst = Cst::new(source, cd);
    let cst_out = cst.to_string();

    // Cstree tree (same structure)
    let mut cb = CstreeBuilder::<TestKind>::new_empty();
    let rm2 = cb.start_rule();
    cb.token(TestKind::TokenA, "a");
    cb.token(TestKind::TokenB, "b");
    cb.end_rule(rm2, TestKind::Root);
    let green = cb.finish();
    let cstree_out = CstreeDisplay::<TestKind>::new(&green, source).to_string_with(kind_name);

    assert_eq!(cst_out, cstree_out, "CSTree display must match CstData display");
}

#[test]
fn display_lists_nested_rules_with_ranges() {
    let mut b = CstreeBuilder::<TestKind>::new_empty();
    let root = b.start_rule();
    let inner = b.start_rule();
    b.token(TestKind::TokenA, "a");
    b.end_rule(inner, TestKind::Rule);
    b.token(TestKind::TokenB, "bc");
    b.end_rule(root, TestKind::Root);
    let tree = b.finish();
    let s = CstreeDisplay::<TestKind>::new(&tree, "abc").to_string_with(kind_name);
    assert_eq!(
        s,
        "Root [0..3]\n    Rule [0..1]\n        TokenA \"a\" [0..1]\n    TokenB \"bc\" [1..3]\n"
    );
}
