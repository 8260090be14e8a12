use lelwel::{CstBuilder, CstData, Node, NodeRef, RuleType, TokenType};

#[derive(Debug, Clone, Copy, PartialEq, Eq)]
enum Tok {
    A,
    B,
    Ws,
}

#[derive(Debug, Clone, Copy, PartialEq, Eq)]
enum Rl {
    Error,
    Root,
}

impl TokenType for Tok {
    fn spec_is_skip(&self) -> bool {
        self.is_skip()
    }
    fn spec_is_eof(&self) -> bool {
        self.is_eof()
    }
    fn is_skip(&self) -> bool {
        matches!(self, Tok::Ws)
    }
    fn is_eof(&self) -> bool {
        false
    }
    fn eof() -> Self {
        Tok::A
    }
}

impl RuleType for Rl {
    fn spec_error() -> Self {
        Rl::Error
    }
    fn error() -> Self {
        Rl::Error
    }
}

#[test]
fn root_spans_its_tokens() {
    let mut cd: CstData<Tok, Rl> = CstData::new(vec![0..1, 1..2]);
    let m = cd.start_rule();
    cd.token(Tok::A, "a");
    cd.token(Tok::B, "b");
    cd.end_rule(m, Rl::Root);
    assert_eq!(cd.span(NodeRef(0)), 0..2);
    assert!(matches!(cd.get(NodeRef(1)), Node::Token(Tok::A, _)));
    let _ = Tok::Ws;
}
