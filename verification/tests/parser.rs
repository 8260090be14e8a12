use lelwel::frontend::{ParserCallbacks, Rule, Token};
use lelwel::{CstData, Node, Parser, Span};

#[derive(Default)]
struct Ctx {
    skip_semis: bool,
}

type Diag = (Span, String);

fn lex(source: &str) -> (Vec<Token>, Vec<Span>) {
    let mut tokens = Vec::new();
    let mut spans = Vec::new();
    for (i, c) in source.char_indices() {
        let t = match c {
            ' ' => Token::Whitespace,
            ';' => Token::Semi,
            ':' => Token::Colon,
            _ => Token::Id,
        };
        tokens.push(t);
        spans.push(i..i + c.len_utf8());
    }
    (tokens, spans)
}

impl ParserCallbacks for Ctx {
    type Diagnostic = Diag;

    fn create_tokens(_context: &mut Self, source: &str, _diags: &mut Vec<Diag>) -> (Vec<Token>, Vec<Span>) {
        lex(source)
    }

    fn create_diagnostic(&self, span: Span, message: String) -> Diag {
        (span, message)
    }

    fn predicate_skip(&self, token: Token) -> bool {
        self.skip_semis && token == Token::Semi
    }

    fn predicate_decl_1(&self, _parser: &Parser<'_, CstData<Token, Rule>, Self>) -> bool {
        true
    }
}

fn tokens_in(data: &CstData<Token, Rule>) -> Vec<Token> {
    data.nodes
        .iter()
        .filter_map(|n| match n {
            Node::Token(t, _) => Some(*t),
            Node::Rule(..) => None,
        })
        .collect()
}

#[test]
fn unparsed_rest_goes_into_an_error_node() {
    let mut diags = Vec::new();
    let p: Parser<'_, CstData<Token, Rule>, Ctx> = Parser::new("a b", &mut diags);
    let data = p.parse_with(|_p, _d| {}, &mut diags, Rule::File);
    assert_eq!(diags.len(), 1);
    assert_eq!(diags[0].1, "invalid syntax, expected: <end of file>");
    assert_eq!(tokens_in(&data), vec![Token::Id, Token::Whitespace, Token::Id]);
    assert!(matches!(data.nodes[0], Node::Rule(Rule::File, _)));
    assert!(matches!(data.nodes[1], Node::Rule(Rule::Error, _)));
}

#[test]
fn backtracking_restores_the_position_and_the_tree() {
    let mut diags = Vec::new();
    let p: Parser<'_, CstData<Token, Rule>, Ctx> = Parser::new("a b", &mut diags);
    let data = p.parse_with(
        |p, d| {
            p.builder.in_ordered_choice = true;
            let saved = p.get_state(d);
            let m = p.open(d);
            p.advance(false, d);
            p.close(m, Rule::Name, d);
            p.error(d, ((0..0), String::from("discarded")));
            assert_eq!(p.pos, 2);
            p.set_state(&saved, d);
            assert_eq!(p.pos, 0);
            assert!(d.is_empty());
            p.builder.in_ordered_choice = false;
            p.advance(false, d);
            p.advance(false, d);
        },
        &mut diags,
        Rule::File,
    );
    assert!(diags.is_empty());
    assert_eq!(tokens_in(&data), vec![Token::Id, Token::Whitespace, Token::Id]);
    assert_eq!(data.nodes.len(), 4);
}

#[test]
fn errors_are_reported_once_until_an_advance() {
    let mut diags = Vec::new();
    let p: Parser<'_, CstData<Token, Rule>, Ctx> = Parser::new("ab", &mut diags);
    let data = p.parse_with(
        |p, d| {
            assert!(!p.active_error());
            p.advance_with_error(d, ((0..1), String::from("first")));
            assert!(p.active_error());
            p.error(d, ((1..2), String::from("second")));
            p.advance(false, d);
            assert!(!p.active_error());
        },
        &mut diags,
        Rule::File,
    );
    assert_eq!(diags, vec![((0..1), String::from("first"))]);
    assert!(matches!(data.nodes[1], Node::Rule(Rule::Error, _)));
    assert_eq!(tokens_in(&data), vec![Token::Id, Token::Id]);
}

#[test]
fn predicate_skip_treats_tokens_as_trivia() {
    let mut diags = Vec::new();
    let p: Parser<'_, CstData<Token, Rule>, Ctx> =
        Parser::new_with_context("a;b", &mut diags, Ctx { skip_semis: true });
    let data = p.parse_with(
        |p, d| {
            assert_eq!(p.current, Token::Id);
            p.advance(false, d);
            assert_eq!(p.pos, 2);
            assert_eq!(p.current, Token::Id);
            assert_eq!(p.peek_left(1), Token::Semi);
            p.advance(false, d);
        },
        &mut diags,
        Rule::File,
    );
    assert!(diags.is_empty());
    assert_eq!(tokens_in(&data), vec![Token::Id, Token::Semi, Token::Id]);
}
