use lelwel::frontend::{parse_grammar, ParserCallbacks, Rule, Rules, Token};
use lelwel::{Cst, CstData, Node, NodeRef, Parser, Span};

struct Ctx;

type Diag = (Span, String);

fn lex(source: &str) -> (Vec<Token>, Vec<Span>) {
    let bytes = source.as_bytes();
    let mut tokens = Vec::new();
    let mut spans = Vec::new();
    let mut i = 0;
    while i < bytes.len() {
        let start = i;
        let c = bytes[i];
        let token = if c.is_ascii_alphabetic() || c == b'_' {
            while i < bytes.len() && (bytes[i].is_ascii_alphanumeric() || bytes[i] == b'_') {
                i += 1;
            }
            match &source[start..i] {
                "start" => Token::Start,
                "token" => Token::Token,
                "right" => Token::Right,
                "skip" => Token::Skip,
                "part" => Token::Part,
                _ => Token::Id,
            }
        } else if c == b'\'' {
            i += 1;
            while i < bytes.len() && bytes[i] != b'\'' {
                i += 1;
            }
            i += 1;
            Token::Str
        } else if c.is_ascii_whitespace() {
            while i < bytes.len() && bytes[i].is_ascii_whitespace() {
                i += 1;
            }
            Token::Whitespace
        } else {
            i += 1;
            match c {
                b';' => Token::Semi,
                b':' => Token::Colon,
                b'|' => Token::Or,
                b'=' => Token::Equal,
                b'(' => Token::LPar,
                b')' => Token::RPar,
                b'[' => Token::LBrak,
                b']' => Token::RBrak,
                b'*' => Token::Star,
                b'+' => Token::Plus,
                b'/' => Token::Slash,
                b'^' => Token::Hat,
                b'~' => Token::Tilde,
                b'&' => Token::And,
                _ => Token::Error,
            }
        };
        tokens.push(token);
        spans.push(start..i);
    }
    (tokens, spans)
}

impl ParserCallbacks for Ctx {
    type Diagnostic = Diag;

    fn create_tokens(_context: &mut Self, source: &str, _diags: &mut Vec<Diag>) -> (Vec<Token>, Vec<Span>) {
        lex(source)
    }

    fn create_diagnostic(&self, span: Span, message: String) -> Diag {
        (span, message)
    }

    fn predicate_decl_1(&self, parser: &Parser<'_, CstData<Token, Rule>, Self>) -> bool {
        matches!(parser.peek(1), Token::Colon | Token::Hat)
    }
}

fn parse(source: &str) -> (Cst<'_, Token, Rule>, Vec<Diag>) {
    let mut diags = Vec::new();
    let cst = parse_grammar(source, Ctx, &mut diags).expect("the input fits");
    (cst, diags)
}

fn token_count(cst: &Cst<'_, Token, Rule>) -> usize {
    cst.data.nodes.iter().filter(|n| matches!(n, Node::Token(..))).count()
}

#[test]
fn start_declaration_tree() {
    let (cst, diags) = parse("start s;");
    assert!(diags.is_empty());
    assert_eq!(
        cst.to_string(),
        "file [0..8]\n    start_decl [0..8]\n        Start \"start\" [0..5]\n        Whitespace \" \" [5..6]\n        Id \"s\" [6..7]\n        Semi \";\" [7..8]\n"
    );
}

#[test]
fn missing_identifier_is_reported_once() {
    let (cst, diags) = parse("start ;");
    assert_eq!(diags.len(), 1);
    assert_eq!(diags[0].0, 6..7);
    assert_eq!(diags[0].1, "invalid syntax, expected: <identifier>");
    assert!(cst.match_rule(NodeRef(1), Rule::StartDecl));
}

#[test]
fn rule_with_alternation_and_concatenation() {
    let source = "a: b c | d*;";
    let (cst, diags) = parse(source);
    assert!(diags.is_empty());
    let text = cst.to_string();
    for kind in ["rule_decl", "alternation", "concat", "name", "star"] {
        assert!(text.contains(kind), "missing {kind} in\n{text}");
    }
    assert_eq!(token_count(&cst), lex(source).0.len());
}

#[test]
fn every_token_is_kept_even_after_errors() {
    let source = "start s; ; x token A = 'a' ;";
    let (cst, diags) = parse(source);
    assert!(!diags.is_empty());
    assert_eq!(token_count(&cst), lex(source).0.len());
    let root_span = cst.span(NodeRef(0));
    assert_eq!(root_span, 0..source.len());
}

#[test]
fn stray_token_at_top_level() {
    let (cst, diags) = parse(";");
    assert_eq!(diags.len(), 1);
    assert_eq!(
        diags[0].1,
        "invalid syntax, expected one of: <end of file>, <identifier>, 'part', 'right', 'skip', 'start', 'token'"
    );
    assert!(cst.match_rule(NodeRef(1), Rule::Error));
}

#[test]
fn identifier_without_colon_is_invalid() {
    let (_cst, diags) = parse("x");
    assert_eq!(diags.len(), 1);
    assert_eq!(diags[0].1, "invalid syntax");
}

#[test]
fn token_list_and_symbols() {
    let (cst, diags) = parse("token A='a' B; right A 'b'; skip A; part x y;");
    assert!(diags.is_empty(), "{diags:?}");
    let text = cst.to_string();
    for kind in ["token_list", "token_decl", "right_decl", "skip_decl", "part_decl"] {
        assert!(text.contains(kind), "missing {kind} in\n{text}");
    }
}

#[test]
fn peek_skips_trivia() {
    let mut diags: Vec<Diag> = Vec::new();
    let p: Parser<'_, CstData<Token, Rule>, Ctx> = Parser::new_with_context("a  : b", &mut diags, Ctx);
    assert_eq!(p.peek(0), Token::Id);
    assert_eq!(p.peek(1), Token::Colon);
    assert_eq!(p.peek(2), Token::Id);
    assert_eq!(p.peek(3), Token::EOF);
    assert_eq!(p.peek_left(0), Token::Id);
    assert_eq!(p.peek_left(1), Token::EOF);
}

#[test]
fn rule_names_are_the_grammar_names() {
    assert_eq!(Rule::OrderedChoice.name(), "ordered_choice");
    assert_eq!(Rule::File.name(), "file");
    assert_eq!(Rule::NodeElision.name(), "node_elision");
}
