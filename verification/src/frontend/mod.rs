use vstd::prelude::*;

mod rules;

pub use rules::Rules;


use crate::builder::{RuleType, TokenType};
use crate::cst::{Cst, CstData, NodeView};
use crate::parser::{Parser, ParserHooks};
use crate::types::{NodeRef, Span};

verus! {

/// The tokens of the grammar description language.
#[derive(Debug, Copy, Clone, PartialEq, Eq, Structural, Hash)]
pub enum Token {
    Action,
    And,
    Assertion,
    BlockComment,
    Colon,
    DocComment,
    EOF,
    Equal,
    Error,
    Hat,
    Id,
    LBrak,
    LPar,
    LineComment,
    NodeCreation,
    NodeMarker,
    NodeRename,
    Or,
    Part,
    Plus,
    Predicate,
    RBrak,
    RPar,
    Right,
    Semi,
    Skip,
    Slash,
    Star,
    Start,
    Str,
    Tilde,
    Token,
    Whitespace,
}

impl TokenType for Token {
    open spec fn spec_is_skip(&self) -> bool {
        matches!(
            *self,
            Token::Error | Token::LineComment | Token::BlockComment | Token::DocComment | Token::Whitespace
        )
    }

    open spec fn spec_is_eof(&self) -> bool {
        *self == Token::EOF
    }

    fn is_skip(&self) -> (r: bool) {
        matches!(
            *self,
            Token::Error | Token::LineComment | Token::BlockComment | Token::DocComment | Token::Whitespace
        )
    }

    fn is_eof(&self) -> (r: bool) {
        matches!(*self, Token::EOF)
    }

    fn eof() -> (r: Self) {
        Token::EOF
    }
}

/// The trivia of the grammar description language are exactly its comments (line, block
/// and doc comments), whitespace, and the error token: these are the tokens the parser
/// skips, every other token is significant.
pub proof fn lemma_skip_tokens(t: Token)
    ensures
        t.spec_is_skip() <==> (t == Token::LineComment || t == Token::BlockComment
            || t == Token::DocComment || t == Token::Whitespace || t == Token::Error),
        forall|r: bool|
            #[trigger] call_ensures(Token::is_skip, (&t,), r) ==> (r <==> (t == Token::LineComment
                || t == Token::BlockComment || t == Token::DocComment || t == Token::Whitespace
                || t == Token::Error)),
{
}

/// The rules of the grammar description language, the kinds of its syntax tree nodes.
#[derive(Debug, Copy, Clone, PartialEq, Eq, Structural)]
pub enum Rule {
    Error,
    Action,
    Alternation,
    Assertion,
    Commit,
    Concat,
    Decl,
    File,
    Name,
    NodeCreation,
    NodeElision,
    NodeMarker,
    NodeRename,
    Optional,
    OrderedChoice,
    Paren,
    PartDecl,
    Plus,
    Postfix,
    Predicate,
    Regex,
    Return,
    RightDecl,
    RuleDecl,
    SkipDecl,
    Star,
    StartDecl,
    Symbol,
    TokenDecl,
    TokenList,
}

impl RuleType for Rule {
    open spec fn spec_error() -> Self {
        Rule::Error
    }

    fn error() -> (r: Self) {
        Rule::Error
    }

    /// The name of the rule as written in the grammar.
    fn listing_name(&self) -> (r: String)
        ensures
            r@ == rule_name(*self),
    {
        String::from_str(self.name())
    }
}

/// The name of a rule as written in the grammar.
pub open spec fn rule_name(rule: Rule) -> Seq<char> {
    match rule {
        Rule::Error => "error"@,
        Rule::Action => "action"@,
        Rule::Alternation => "alternation"@,
        Rule::Assertion => "assertion"@,
        Rule::Commit => "commit"@,
        Rule::Concat => "concat"@,
        Rule::Decl => "decl"@,
        Rule::File => "file"@,
        Rule::Name => "name"@,
        Rule::NodeCreation => "node_creation"@,
        Rule::NodeElision => "node_elision"@,
        Rule::NodeMarker => "node_marker"@,
        Rule::NodeRename => "node_rename"@,
        Rule::Optional => "optional"@,
        Rule::OrderedChoice => "ordered_choice"@,
        Rule::Paren => "paren"@,
        Rule::PartDecl => "part_decl"@,
        Rule::Plus => "plus"@,
        Rule::Postfix => "postfix"@,
        Rule::Predicate => "predicate"@,
        Rule::Regex => "regex"@,
        Rule::Return => "return"@,
        Rule::RightDecl => "right_decl"@,
        Rule::RuleDecl => "rule_decl"@,
        Rule::SkipDecl => "skip_decl"@,
        Rule::Star => "star"@,
        Rule::StartDecl => "start_decl"@,
        Rule::Symbol => "symbol"@,
        Rule::TokenDecl => "token_decl"@,
        Rule::TokenList => "token_list"@,
    }
}

impl Rule {
    /// The name of the rule as written in the grammar.
    pub fn name(&self) -> (r: &'static str)
        ensures
            r@ == rule_name(*self),
    {
        match self {
            Rule::Error => "error",
            Rule::Action => "action",
            Rule::Alternation => "alternation",
            Rule::Assertion => "assertion",
            Rule::Commit => "commit",
            Rule::Concat => "concat",
            Rule::Decl => "decl",
            Rule::File => "file",
            Rule::Name => "name",
            Rule::NodeCreation => "node_creation",
            Rule::NodeElision => "node_elision",
            Rule::NodeMarker => "node_marker",
            Rule::NodeRename => "node_rename",
            Rule::Optional => "optional",
            Rule::OrderedChoice => "ordered_choice",
            Rule::Paren => "paren",
            Rule::PartDecl => "part_decl",
            Rule::Plus => "plus",
            Rule::Postfix => "postfix",
            Rule::Predicate => "predicate",
            Rule::Regex => "regex",
            Rule::Return => "return",
            Rule::RightDecl => "right_decl",
            Rule::RuleDecl => "rule_decl",
            Rule::SkipDecl => "skip_decl",
            Rule::Star => "star",
            Rule::StartDecl => "start_decl",
            Rule::Symbol => "symbol",
            Rule::TokenDecl => "token_decl",
            Rule::TokenList => "token_list",
        }
    }
}

/// The callbacks of a parser for the grammar description language, implemented by its
/// context: tokenizing, making diagnostics, and hooks for every kind of node.
pub trait ParserCallbacks: Sized {
    type Diagnostic;

    /// Called at the start of the parse to generate all tokens and corresponding spans.
    fn create_tokens(
        context: &mut Self,
        source: &str,
        diags: &mut Vec<Self::Diagnostic>,
    ) -> (Vec<Token>, Vec<Span>);

    /// Called when a diagnostic is created.
    fn create_diagnostic(&self, span: Span, message: String) -> Self::Diagnostic;

    /// This predicate can be used to skip normal tokens.
    fn predicate_skip(&self, _token: Token) -> (r: bool)
        default_ensures
            !r,
    {
        false
    }

    /// Called when a `action` node is created.
    fn create_node_action(
        &mut self,
        _tree: &CstData<Token, Rule>,
        _node_ref: NodeRef,
        _diags: &mut Vec<Self::Diagnostic>,
    ) {
    }

    /// Called when a `alternation` node is created.
    fn create_node_alternation(
        &mut self,
        _tree: &CstData<Token, Rule>,
        _node_ref: NodeRef,
        _diags: &mut Vec<Self::Diagnostic>,
    ) {
    }

    /// Called when a `assertion` node is created.
    fn create_node_assertion(
        &mut self,
        _tree: &CstData<Token, Rule>,
        _node_ref: NodeRef,
        _diags: &mut Vec<Self::Diagnostic>,
    ) {
    }

    /// Called when a `commit` node is created.
    fn create_node_commit(
        &mut self,
        _tree: &CstData<Token, Rule>,
        _node_ref: NodeRef,
        _diags: &mut Vec<Self::Diagnostic>,
    ) {
    }

    /// Called when a `concat` node is created.
    fn create_node_concat(
        &mut self,
        _tree: &CstData<Token, Rule>,
        _node_ref: NodeRef,
        _diags: &mut Vec<Self::Diagnostic>,
    ) {
    }

    /// Called when a `decl` node is created.
    fn create_node_decl(
        &mut self,
        _tree: &CstData<Token, Rule>,
        _node_ref: NodeRef,
        _diags: &mut Vec<Self::Diagnostic>,
    ) {
    }

    /// Called when a `error` node is created.
    fn create_node_error(
        &mut self,
        _tree: &CstData<Token, Rule>,
        _node_ref: NodeRef,
        _diags: &mut Vec<Self::Diagnostic>,
    ) {
    }

    /// Called when a `file` node is created.
    fn create_node_file(
        &mut self,
        _tree: &CstData<Token, Rule>,
        _node_ref: NodeRef,
        _diags: &mut Vec<Self::Diagnostic>,
    ) {
    }

    /// Called when a `name` node is created.
    fn create_node_name(
        &mut self,
        _tree: &CstData<Token, Rule>,
        _node_ref: NodeRef,
        _diags: &mut Vec<Self::Diagnostic>,
    ) {
    }

    /// Called when a `node_creation` node is created.
    fn create_node_node_creation(
        &mut self,
        _tree: &CstData<Token, Rule>,
        _node_ref: NodeRef,
        _diags: &mut Vec<Self::Diagnostic>,
    ) {
    }

    /// Called when a `node_elision` node is created.
    fn create_node_node_elision(
        &mut self,
        _tree: &CstData<Token, Rule>,
        _node_ref: NodeRef,
        _diags: &mut Vec<Self::Diagnostic>,
    ) {
    }

    /// Called when a `node_marker` node is created.
    fn create_node_node_marker(
        &mut self,
        _tree: &CstData<Token, Rule>,
        _node_ref: NodeRef,
        _diags: &mut Vec<Self::Diagnostic>,
    ) {
    }

    /// Called when a `node_rename` node is created.
    fn create_node_node_rename(
        &mut self,
        _tree: &CstData<Token, Rule>,
        _node_ref: NodeRef,
        _diags: &mut Vec<Self::Diagnostic>,
    ) {
    }

    /// Called when a `optional` node is created.
    fn create_node_optional(
        &mut self,
        _tree: &CstData<Token, Rule>,
        _node_ref: NodeRef,
        _diags: &mut Vec<Self::Diagnostic>,
    ) {
    }

    /// Called when a `ordered_choice` node is created.
    fn create_node_ordered_choice(
        &mut self,
        _tree: &CstData<Token, Rule>,
        _node_ref: NodeRef,
        _diags: &mut Vec<Self::Diagnostic>,
    ) {
    }

    /// Called when a `paren` node is created.
    fn create_node_paren(
        &mut self,
        _tree: &CstData<Token, Rule>,
        _node_ref: NodeRef,
        _diags: &mut Vec<Self::Diagnostic>,
    ) {
    }

    /// Called when a `part_decl` node is created.
    fn create_node_part_decl(
        &mut self,
        _tree: &CstData<Token, Rule>,
        _node_ref: NodeRef,
        _diags: &mut Vec<Self::Diagnostic>,
    ) {
    }

    /// Called when a `plus` node is created.
    fn create_node_plus(
        &mut self,
        _tree: &CstData<Token, Rule>,
        _node_ref: NodeRef,
        _diags: &mut Vec<Self::Diagnostic>,
    ) {
    }

    /// Called when a `postfix` node is created.
    fn create_node_postfix(
        &mut self,
        _tree: &CstData<Token, Rule>,
        _node_ref: NodeRef,
        _diags: &mut Vec<Self::Diagnostic>,
    ) {
    }

    /// Called when a `predicate` node is created.
    fn create_node_predicate(
        &mut self,
        _tree: &CstData<Token, Rule>,
        _node_ref: NodeRef,
        _diags: &mut Vec<Self::Diagnostic>,
    ) {
    }

    /// Called when a `regex` node is created.
    fn create_node_regex(
        &mut self,
        _tree: &CstData<Token, Rule>,
        _node_ref: NodeRef,
        _diags: &mut Vec<Self::Diagnostic>,
    ) {
    }

    /// Called when a `return` node is created.
    fn create_node_return(
        &mut self,
        _tree: &CstData<Token, Rule>,
        _node_ref: NodeRef,
        _diags: &mut Vec<Self::Diagnostic>,
    ) {
    }

    /// Called when a `right_decl` node is created.
    fn create_node_right_decl(
        &mut self,
        _tree: &CstData<Token, Rule>,
        _node_ref: NodeRef,
        _diags: &mut Vec<Self::Diagnostic>,
    ) {
    }

    /// Called when a `rule_decl` node is created.
    fn create_node_rule_decl(
        &mut self,
        _tree: &CstData<Token, Rule>,
        _node_ref: NodeRef,
        _diags: &mut Vec<Self::Diagnostic>,
    ) {
    }

    /// Called when a `skip_decl` node is created.
    fn create_node_skip_decl(
        &mut self,
        _tree: &CstData<Token, Rule>,
        _node_ref: NodeRef,
        _diags: &mut Vec<Self::Diagnostic>,
    ) {
    }

    /// Called when a `star` node is created.
    fn create_node_star(
        &mut self,
        _tree: &CstData<Token, Rule>,
        _node_ref: NodeRef,
        _diags: &mut Vec<Self::Diagnostic>,
    ) {
    }

    /// Called when a `start_decl` node is created.
    fn create_node_start_decl(
        &mut self,
        _tree: &CstData<Token, Rule>,
        _node_ref: NodeRef,
        _diags: &mut Vec<Self::Diagnostic>,
    ) {
    }

    /// Called when a `symbol` node is created.
    fn create_node_symbol(
        &mut self,
        _tree: &CstData<Token, Rule>,
        _node_ref: NodeRef,
        _diags: &mut Vec<Self::Diagnostic>,
    ) {
    }

    /// Called when a `token_decl` node is created.
    fn create_node_token_decl(
        &mut self,
        _tree: &CstData<Token, Rule>,
        _node_ref: NodeRef,
        _diags: &mut Vec<Self::Diagnostic>,
    ) {
    }

    /// Called when a `token_list` node is created.
    fn create_node_token_list(
        &mut self,
        _tree: &CstData<Token, Rule>,
        _node_ref: NodeRef,
        _diags: &mut Vec<Self::Diagnostic>,
    ) {
    }

    /// Called when semantic predicate `?1` in rule `decl` is visited.
    fn predicate_decl_1(&self, parser: &Parser<'_, CstData<Token, Rule>, Self>) -> bool;
}

impl<C: ParserCallbacks> ParserHooks<CstData<Token, Rule>> for C {
    type Diag = C::Diagnostic;

    /// Forwards to the context's `create_tokens`.
    fn create_tokens_hook(
        ctx: &mut Self,
        source: &str,
        diags: &mut Vec<Self::Diag>,
    ) -> (r: (Vec<Token>, Vec<Span>))
        ensures
            exists|c: &mut C, d: &mut Vec<C::Diagnostic>|
                #![trigger call_ensures(C::create_tokens, (c, source, d), r)]
                mut_ref_current(c) == *old(ctx) && mut_ref_future(c) == *final(ctx)
                    && mut_ref_current(d)@ == old(diags)@ && mut_ref_future(d)@ == final(diags)@
                    && call_ensures(C::create_tokens, (c, source, d), r),
    {
        let r = C::create_tokens(ctx, source, diags);
        proof {
            assert(exists|c: &mut C, d: &mut Vec<C::Diagnostic>|
                #[trigger] call_ensures(C::create_tokens, (c, source, d), r)
                && mut_ref_current(c) == *old(ctx) && mut_ref_future(c) == *ctx
                && mut_ref_current(d)@ == old(diags)@ && mut_ref_future(d)@ == diags@);
        }
        r
    }

    /// Forwards to the context's `create_diagnostic`.
    fn create_diagnostic_hook(&self, span: Span, message: String) -> (r: Self::Diag)
        ensures
            call_ensures(C::create_diagnostic, (self, span, message), r),
    {
        self.create_diagnostic(span, message)
    }

    /// Forwards to the context's `predicate_skip`.
    fn predicate_skip_hook(&self, token: Token) -> (r: bool)
        ensures
            call_ensures(C::predicate_skip, (self, token), r),
    {
        self.predicate_skip(token)
    }

    /// Forwards to the context's `create_node_*` method for the kind of the node.
    fn create_node(
        &mut self,
        tree: &CstData<Token, Rule>,
        rule: Rule,
        node_ref: NodeRef,
        diags: &mut Vec<Self::Diag>,
    )
        ensures
            rule == Rule::Action ==> exists|c: &mut C, d: &mut Vec<C::Diagnostic>|
                #![trigger call_ensures(C::create_node_action, (c, tree, node_ref, d), ())]
                mut_ref_current(c) == *old(self) && mut_ref_future(c) == *final(self)
                    && mut_ref_current(d)@ == old(diags)@ && mut_ref_future(d)@ == final(diags)@
                    && call_ensures(C::create_node_action, (c, tree, node_ref, d), ()),
            rule == Rule::Alternation ==> exists|c: &mut C, d: &mut Vec<C::Diagnostic>|
                #![trigger call_ensures(C::create_node_alternation, (c, tree, node_ref, d), ())]
                mut_ref_current(c) == *old(self) && mut_ref_future(c) == *final(self)
                    && mut_ref_current(d)@ == old(diags)@ && mut_ref_future(d)@ == final(diags)@
                    && call_ensures(C::create_node_alternation, (c, tree, node_ref, d), ()),
            rule == Rule::Assertion ==> exists|c: &mut C, d: &mut Vec<C::Diagnostic>|
                #![trigger call_ensures(C::create_node_assertion, (c, tree, node_ref, d), ())]
                mut_ref_current(c) == *old(self) && mut_ref_future(c) == *final(self)
                    && mut_ref_current(d)@ == old(diags)@ && mut_ref_future(d)@ == final(diags)@
                    && call_ensures(C::create_node_assertion, (c, tree, node_ref, d), ()),
            rule == Rule::Commit ==> exists|c: &mut C, d: &mut Vec<C::Diagnostic>|
                #![trigger call_ensures(C::create_node_commit, (c, tree, node_ref, d), ())]
                mut_ref_current(c) == *old(self) && mut_ref_future(c) == *final(self)
                    && mut_ref_current(d)@ == old(diags)@ && mut_ref_future(d)@ == final(diags)@
                    && call_ensures(C::create_node_commit, (c, tree, node_ref, d), ()),
            rule == Rule::Concat ==> exists|c: &mut C, d: &mut Vec<C::Diagnostic>|
                #![trigger call_ensures(C::create_node_concat, (c, tree, node_ref, d), ())]
                mut_ref_current(c) == *old(self) && mut_ref_future(c) == *final(self)
                    && mut_ref_current(d)@ == old(diags)@ && mut_ref_future(d)@ == final(diags)@
                    && call_ensures(C::create_node_concat, (c, tree, node_ref, d), ()),
            rule == Rule::Decl ==> exists|c: &mut C, d: &mut Vec<C::Diagnostic>|
                #![trigger call_ensures(C::create_node_decl, (c, tree, node_ref, d), ())]
                mut_ref_current(c) == *old(self) && mut_ref_future(c) == *final(self)
                    && mut_ref_current(d)@ == old(diags)@ && mut_ref_future(d)@ == final(diags)@
                    && call_ensures(C::create_node_decl, (c, tree, node_ref, d), ()),
            rule == Rule::Error ==> exists|c: &mut C, d: &mut Vec<C::Diagnostic>|
                #![trigger call_ensures(C::create_node_error, (c, tree, node_ref, d), ())]
                mut_ref_current(c) == *old(self) && mut_ref_future(c) == *final(self)
                    && mut_ref_current(d)@ == old(diags)@ && mut_ref_future(d)@ == final(diags)@
                    && call_ensures(C::create_node_error, (c, tree, node_ref, d), ()),
            rule == Rule::File ==> exists|c: &mut C, d: &mut Vec<C::Diagnostic>|
                #![trigger call_ensures(C::create_node_file, (c, tree, node_ref, d), ())]
                mut_ref_current(c) == *old(self) && mut_ref_future(c) == *final(self)
                    && mut_ref_current(d)@ == old(diags)@ && mut_ref_future(d)@ == final(diags)@
                    && call_ensures(C::create_node_file, (c, tree, node_ref, d), ()),
            rule == Rule::Name ==> exists|c: &mut C, d: &mut Vec<C::Diagnostic>|
                #![trigger call_ensures(C::create_node_name, (c, tree, node_ref, d), ())]
                mut_ref_current(c) == *old(self) && mut_ref_future(c) == *final(self)
                    && mut_ref_current(d)@ == old(diags)@ && mut_ref_future(d)@ == final(diags)@
                    && call_ensures(C::create_node_name, (c, tree, node_ref, d), ()),
            rule == Rule::NodeCreation ==> exists|c: &mut C, d: &mut Vec<C::Diagnostic>|
                #![trigger call_ensures(C::create_node_node_creation, (c, tree, node_ref, d), ())]
                mut_ref_current(c) == *old(self) && mut_ref_future(c) == *final(self)
                    && mut_ref_current(d)@ == old(diags)@ && mut_ref_future(d)@ == final(diags)@
                    && call_ensures(C::create_node_node_creation, (c, tree, node_ref, d), ()),
            rule == Rule::NodeElision ==> exists|c: &mut C, d: &mut Vec<C::Diagnostic>|
                #![trigger call_ensures(C::create_node_node_elision, (c, tree, node_ref, d), ())]
                mut_ref_current(c) == *old(self) && mut_ref_future(c) == *final(self)
                    && mut_ref_current(d)@ == old(diags)@ && mut_ref_future(d)@ == final(diags)@
                    && call_ensures(C::create_node_node_elision, (c, tree, node_ref, d), ()),
            rule == Rule::NodeMarker ==> exists|c: &mut C, d: &mut Vec<C::Diagnostic>|
                #![trigger call_ensures(C::create_node_node_marker, (c, tree, node_ref, d), ())]
                mut_ref_current(c) == *old(self) && mut_ref_future(c) == *final(self)
                    && mut_ref_current(d)@ == old(diags)@ && mut_ref_future(d)@ == final(diags)@
                    && call_ensures(C::create_node_node_marker, (c, tree, node_ref, d), ()),
            rule == Rule::NodeRename ==> exists|c: &mut C, d: &mut Vec<C::Diagnostic>|
                #![trigger call_ensures(C::create_node_node_rename, (c, tree, node_ref, d), ())]
                mut_ref_current(c) == *old(self) && mut_ref_future(c) == *final(self)
                    && mut_ref_current(d)@ == old(diags)@ && mut_ref_future(d)@ == final(diags)@
                    && call_ensures(C::create_node_node_rename, (c, tree, node_ref, d), ()),
            rule == Rule::Optional ==> exists|c: &mut C, d: &mut Vec<C::Diagnostic>|
                #![trigger call_ensures(C::create_node_optional, (c, tree, node_ref, d), ())]
                mut_ref_current(c) == *old(self) && mut_ref_future(c) == *final(self)
                    && mut_ref_current(d)@ == old(diags)@ && mut_ref_future(d)@ == final(diags)@
                    && call_ensures(C::create_node_optional, (c, tree, node_ref, d), ()),
            rule == Rule::OrderedChoice ==> exists|c: &mut C, d: &mut Vec<C::Diagnostic>|
                #![trigger call_ensures(C::create_node_ordered_choice, (c, tree, node_ref, d), ())]
                mut_ref_current(c) == *old(self) && mut_ref_future(c) == *final(self)
                    && mut_ref_current(d)@ == old(diags)@ && mut_ref_future(d)@ == final(diags)@
                    && call_ensures(C::create_node_ordered_choice, (c, tree, node_ref, d), ()),
            rule == Rule::Paren ==> exists|c: &mut C, d: &mut Vec<C::Diagnostic>|
                #![trigger call_ensures(C::create_node_paren, (c, tree, node_ref, d), ())]
                mut_ref_current(c) == *old(self) && mut_ref_future(c) == *final(self)
                    && mut_ref_current(d)@ == old(diags)@ && mut_ref_future(d)@ == final(diags)@
                    && call_ensures(C::create_node_paren, (c, tree, node_ref, d), ()),
            rule == Rule::PartDecl ==> exists|c: &mut C, d: &mut Vec<C::Diagnostic>|
                #![trigger call_ensures(C::create_node_part_decl, (c, tree, node_ref, d), ())]
                mut_ref_current(c) == *old(self) && mut_ref_future(c) == *final(self)
                    && mut_ref_current(d)@ == old(diags)@ && mut_ref_future(d)@ == final(diags)@
                    && call_ensures(C::create_node_part_decl, (c, tree, node_ref, d), ()),
            rule == Rule::Plus ==> exists|c: &mut C, d: &mut Vec<C::Diagnostic>|
                #![trigger call_ensures(C::create_node_plus, (c, tree, node_ref, d), ())]
                mut_ref_current(c) == *old(self) && mut_ref_future(c) == *final(self)
                    && mut_ref_current(d)@ == old(diags)@ && mut_ref_future(d)@ == final(diags)@
                    && call_ensures(C::create_node_plus, (c, tree, node_ref, d), ()),
            rule == Rule::Postfix ==> exists|c: &mut C, d: &mut Vec<C::Diagnostic>|
                #![trigger call_ensures(C::create_node_postfix, (c, tree, node_ref, d), ())]
                mut_ref_current(c) == *old(self) && mut_ref_future(c) == *final(self)
                    && mut_ref_current(d)@ == old(diags)@ && mut_ref_future(d)@ == final(diags)@
                    && call_ensures(C::create_node_postfix, (c, tree, node_ref, d), ()),
            rule == Rule::Predicate ==> exists|c: &mut C, d: &mut Vec<C::Diagnostic>|
                #![trigger call_ensures(C::create_node_predicate, (c, tree, node_ref, d), ())]
                mut_ref_current(c) == *old(self) && mut_ref_future(c) == *final(self)
                    && mut_ref_current(d)@ == old(diags)@ && mut_ref_future(d)@ == final(diags)@
                    && call_ensures(C::create_node_predicate, (c, tree, node_ref, d), ()),
            rule == Rule::Regex ==> exists|c: &mut C, d: &mut Vec<C::Diagnostic>|
                #![trigger call_ensures(C::create_node_regex, (c, tree, node_ref, d), ())]
                mut_ref_current(c) == *old(self) && mut_ref_future(c) == *final(self)
                    && mut_ref_current(d)@ == old(diags)@ && mut_ref_future(d)@ == final(diags)@
                    && call_ensures(C::create_node_regex, (c, tree, node_ref, d), ()),
            rule == Rule::Return ==> exists|c: &mut C, d: &mut Vec<C::Diagnostic>|
                #![trigger call_ensures(C::create_node_return, (c, tree, node_ref, d), ())]
                mut_ref_current(c) == *old(self) && mut_ref_future(c) == *final(self)
                    && mut_ref_current(d)@ == old(diags)@ && mut_ref_future(d)@ == final(diags)@
                    && call_ensures(C::create_node_return, (c, tree, node_ref, d), ()),
            rule == Rule::RightDecl ==> exists|c: &mut C, d: &mut Vec<C::Diagnostic>|
                #![trigger call_ensures(C::create_node_right_decl, (c, tree, node_ref, d), ())]
                mut_ref_current(c) == *old(self) && mut_ref_future(c) == *final(self)
                    && mut_ref_current(d)@ == old(diags)@ && mut_ref_future(d)@ == final(diags)@
                    && call_ensures(C::create_node_right_decl, (c, tree, node_ref, d), ()),
            rule == Rule::RuleDecl ==> exists|c: &mut C, d: &mut Vec<C::Diagnostic>|
                #![trigger call_ensures(C::create_node_rule_decl, (c, tree, node_ref, d), ())]
                mut_ref_current(c) == *old(self) && mut_ref_future(c) == *final(self)
                    && mut_ref_current(d)@ == old(diags)@ && mut_ref_future(d)@ == final(diags)@
                    && call_ensures(C::create_node_rule_decl, (c, tree, node_ref, d), ()),
            rule == Rule::SkipDecl ==> exists|c: &mut C, d: &mut Vec<C::Diagnostic>|
                #![trigger call_ensures(C::create_node_skip_decl, (c, tree, node_ref, d), ())]
                mut_ref_current(c) == *old(self) && mut_ref_future(c) == *final(self)
                    && mut_ref_current(d)@ == old(diags)@ && mut_ref_future(d)@ == final(diags)@
                    && call_ensures(C::create_node_skip_decl, (c, tree, node_ref, d), ()),
            rule == Rule::Star ==> exists|c: &mut C, d: &mut Vec<C::Diagnostic>|
                #![trigger call_ensures(C::create_node_star, (c, tree, node_ref, d), ())]
                mut_ref_current(c) == *old(self) && mut_ref_future(c) == *final(self)
                    && mut_ref_current(d)@ == old(diags)@ && mut_ref_future(d)@ == final(diags)@
                    && call_ensures(C::create_node_star, (c, tree, node_ref, d), ()),
            rule == Rule::StartDecl ==> exists|c: &mut C, d: &mut Vec<C::Diagnostic>|
                #![trigger call_ensures(C::create_node_start_decl, (c, tree, node_ref, d), ())]
                mut_ref_current(c) == *old(self) && mut_ref_future(c) == *final(self)
                    && mut_ref_current(d)@ == old(diags)@ && mut_ref_future(d)@ == final(diags)@
                    && call_ensures(C::create_node_start_decl, (c, tree, node_ref, d), ()),
            rule == Rule::Symbol ==> exists|c: &mut C, d: &mut Vec<C::Diagnostic>|
                #![trigger call_ensures(C::create_node_symbol, (c, tree, node_ref, d), ())]
                mut_ref_current(c) == *old(self) && mut_ref_future(c) == *final(self)
                    && mut_ref_current(d)@ == old(diags)@ && mut_ref_future(d)@ == final(diags)@
                    && call_ensures(C::create_node_symbol, (c, tree, node_ref, d), ()),
            rule == Rule::TokenDecl ==> exists|c: &mut C, d: &mut Vec<C::Diagnostic>|
                #![trigger call_ensures(C::create_node_token_decl, (c, tree, node_ref, d), ())]
                mut_ref_current(c) == *old(self) && mut_ref_future(c) == *final(self)
                    && mut_ref_current(d)@ == old(diags)@ && mut_ref_future(d)@ == final(diags)@
                    && call_ensures(C::create_node_token_decl, (c, tree, node_ref, d), ()),
            rule == Rule::TokenList ==> exists|c: &mut C, d: &mut Vec<C::Diagnostic>|
                #![trigger call_ensures(C::create_node_token_list, (c, tree, node_ref, d), ())]
                mut_ref_current(c) == *old(self) && mut_ref_future(c) == *final(self)
                    && mut_ref_current(d)@ == old(diags)@ && mut_ref_future(d)@ == final(diags)@
                    && call_ensures(C::create_node_token_list, (c, tree, node_ref, d), ()),
    {
        match rule {
            Rule::Action => {
                self.create_node_action(tree, node_ref, diags);
                proof {
                    assert(exists|c: &mut C, d: &mut Vec<C::Diagnostic>|
                        #[trigger] call_ensures(C::create_node_action, (c, tree, node_ref, d), ())
                        && mut_ref_current(c) == *old(self) && mut_ref_future(c) == *self
                        && mut_ref_current(d)@ == old(diags)@ && mut_ref_future(d)@ == diags@);
                }
            },
            Rule::Alternation => {
                self.create_node_alternation(tree, node_ref, diags);
                proof {
                    assert(exists|c: &mut C, d: &mut Vec<C::Diagnostic>|
                        #[trigger] call_ensures(C::create_node_alternation, (c, tree, node_ref, d), ())
                        && mut_ref_current(c) == *old(self) && mut_ref_future(c) == *self
                        && mut_ref_current(d)@ == old(diags)@ && mut_ref_future(d)@ == diags@);
                }
            },
            Rule::Assertion => {
                self.create_node_assertion(tree, node_ref, diags);
                proof {
                    assert(exists|c: &mut C, d: &mut Vec<C::Diagnostic>|
                        #[trigger] call_ensures(C::create_node_assertion, (c, tree, node_ref, d), ())
                        && mut_ref_current(c) == *old(self) && mut_ref_future(c) == *self
                        && mut_ref_current(d)@ == old(diags)@ && mut_ref_future(d)@ == diags@);
                }
            },
            Rule::Commit => {
                self.create_node_commit(tree, node_ref, diags);
                proof {
                    assert(exists|c: &mut C, d: &mut Vec<C::Diagnostic>|
                        #[trigger] call_ensures(C::create_node_commit, (c, tree, node_ref, d), ())
                        && mut_ref_current(c) == *old(self) && mut_ref_future(c) == *self
                        && mut_ref_current(d)@ == old(diags)@ && mut_ref_future(d)@ == diags@);
                }
            },
            Rule::Concat => {
                self.create_node_concat(tree, node_ref, diags);
                proof {
                    assert(exists|c: &mut C, d: &mut Vec<C::Diagnostic>|
                        #[trigger] call_ensures(C::create_node_concat, (c, tree, node_ref, d), ())
                        && mut_ref_current(c) == *old(self) && mut_ref_future(c) == *self
                        && mut_ref_current(d)@ == old(diags)@ && mut_ref_future(d)@ == diags@);
                }
            },
            Rule::Decl => {
                self.create_node_decl(tree, node_ref, diags);
                proof {
                    assert(exists|c: &mut C, d: &mut Vec<C::Diagnostic>|
                        #[trigger] call_ensures(C::create_node_decl, (c, tree, node_ref, d), ())
                        && mut_ref_current(c) == *old(self) && mut_ref_future(c) == *self
                        && mut_ref_current(d)@ == old(diags)@ && mut_ref_future(d)@ == diags@);
                }
            },
            Rule::Error => {
                self.create_node_error(tree, node_ref, diags);
                proof {
                    assert(exists|c: &mut C, d: &mut Vec<C::Diagnostic>|
                        #[trigger] call_ensures(C::create_node_error, (c, tree, node_ref, d), ())
                        && mut_ref_current(c) == *old(self) && mut_ref_future(c) == *self
                        && mut_ref_current(d)@ == old(diags)@ && mut_ref_future(d)@ == diags@);
                }
            },
            Rule::File => {
                self.create_node_file(tree, node_ref, diags);
                proof {
                    assert(exists|c: &mut C, d: &mut Vec<C::Diagnostic>|
                        #[trigger] call_ensures(C::create_node_file, (c, tree, node_ref, d), ())
                        && mut_ref_current(c) == *old(self) && mut_ref_future(c) == *self
                        && mut_ref_current(d)@ == old(diags)@ && mut_ref_future(d)@ == diags@);
                }
            },
            Rule::Name => {
                self.create_node_name(tree, node_ref, diags);
                proof {
                    assert(exists|c: &mut C, d: &mut Vec<C::Diagnostic>|
                        #[trigger] call_ensures(C::create_node_name, (c, tree, node_ref, d), ())
                        && mut_ref_current(c) == *old(self) && mut_ref_future(c) == *self
                        && mut_ref_current(d)@ == old(diags)@ && mut_ref_future(d)@ == diags@);
                }
            },
            Rule::NodeCreation => {
                self.create_node_node_creation(tree, node_ref, diags);
                proof {
                    assert(exists|c: &mut C, d: &mut Vec<C::Diagnostic>|
                        #[trigger] call_ensures(C::create_node_node_creation, (c, tree, node_ref, d), ())
                        && mut_ref_current(c) == *old(self) && mut_ref_future(c) == *self
                        && mut_ref_current(d)@ == old(diags)@ && mut_ref_future(d)@ == diags@);
                }
            },
            Rule::NodeElision => {
                self.create_node_node_elision(tree, node_ref, diags);
                proof {
                    assert(exists|c: &mut C, d: &mut Vec<C::Diagnostic>|
                        #[trigger] call_ensures(C::create_node_node_elision, (c, tree, node_ref, d), ())
                        && mut_ref_current(c) == *old(self) && mut_ref_future(c) == *self
                        && mut_ref_current(d)@ == old(diags)@ && mut_ref_future(d)@ == diags@);
                }
            },
            Rule::NodeMarker => {
                self.create_node_node_marker(tree, node_ref, diags);
                proof {
                    assert(exists|c: &mut C, d: &mut Vec<C::Diagnostic>|
                        #[trigger] call_ensures(C::create_node_node_marker, (c, tree, node_ref, d), ())
                        && mut_ref_current(c) == *old(self) && mut_ref_future(c) == *self
                        && mut_ref_current(d)@ == old(diags)@ && mut_ref_future(d)@ == diags@);
                }
            },
            Rule::NodeRename => {
                self.create_node_node_rename(tree, node_ref, diags);
                proof {
                    assert(exists|c: &mut C, d: &mut Vec<C::Diagnostic>|
                        #[trigger] call_ensures(C::create_node_node_rename, (c, tree, node_ref, d), ())
                        && mut_ref_current(c) == *old(self) && mut_ref_future(c) == *self
                        && mut_ref_current(d)@ == old(diags)@ && mut_ref_future(d)@ == diags@);
                }
            },
            Rule::Optional => {
                self.create_node_optional(tree, node_ref, diags);
                proof {
                    assert(exists|c: &mut C, d: &mut Vec<C::Diagnostic>|
                        #[trigger] call_ensures(C::create_node_optional, (c, tree, node_ref, d), ())
                        && mut_ref_current(c) == *old(self) && mut_ref_future(c) == *self
                        && mut_ref_current(d)@ == old(diags)@ && mut_ref_future(d)@ == diags@);
                }
            },
            Rule::OrderedChoice => {
                self.create_node_ordered_choice(tree, node_ref, diags);
                proof {
                    assert(exists|c: &mut C, d: &mut Vec<C::Diagnostic>|
                        #[trigger] call_ensures(C::create_node_ordered_choice, (c, tree, node_ref, d), ())
                        && mut_ref_current(c) == *old(self) && mut_ref_future(c) == *self
                        && mut_ref_current(d)@ == old(diags)@ && mut_ref_future(d)@ == diags@);
                }
            },
            Rule::Paren => {
                self.create_node_paren(tree, node_ref, diags);
                proof {
                    assert(exists|c: &mut C, d: &mut Vec<C::Diagnostic>|
                        #[trigger] call_ensures(C::create_node_paren, (c, tree, node_ref, d), ())
                        && mut_ref_current(c) == *old(self) && mut_ref_future(c) == *self
                        && mut_ref_current(d)@ == old(diags)@ && mut_ref_future(d)@ == diags@);
                }
            },
            Rule::PartDecl => {
                self.create_node_part_decl(tree, node_ref, diags);
                proof {
                    assert(exists|c: &mut C, d: &mut Vec<C::Diagnostic>|
                        #[trigger] call_ensures(C::create_node_part_decl, (c, tree, node_ref, d), ())
                        && mut_ref_current(c) == *old(self) && mut_ref_future(c) == *self
                        && mut_ref_current(d)@ == old(diags)@ && mut_ref_future(d)@ == diags@);
                }
            },
            Rule::Plus => {
                self.create_node_plus(tree, node_ref, diags);
                proof {
                    assert(exists|c: &mut C, d: &mut Vec<C::Diagnostic>|
                        #[trigger] call_ensures(C::create_node_plus, (c, tree, node_ref, d), ())
                        && mut_ref_current(c) == *old(self) && mut_ref_future(c) == *self
                        && mut_ref_current(d)@ == old(diags)@ && mut_ref_future(d)@ == diags@);
                }
            },
            Rule::Postfix => {
                self.create_node_postfix(tree, node_ref, diags);
                proof {
                    assert(exists|c: &mut C, d: &mut Vec<C::Diagnostic>|
                        #[trigger] call_ensures(C::create_node_postfix, (c, tree, node_ref, d), ())
                        && mut_ref_current(c) == *old(self) && mut_ref_future(c) == *self
                        && mut_ref_current(d)@ == old(diags)@ && mut_ref_future(d)@ == diags@);
                }
            },
            Rule::Predicate => {
                self.create_node_predicate(tree, node_ref, diags);
                proof {
                    assert(exists|c: &mut C, d: &mut Vec<C::Diagnostic>|
                        #[trigger] call_ensures(C::create_node_predicate, (c, tree, node_ref, d), ())
                        && mut_ref_current(c) == *old(self) && mut_ref_future(c) == *self
                        && mut_ref_current(d)@ == old(diags)@ && mut_ref_future(d)@ == diags@);
                }
            },
            Rule::Regex => {
                self.create_node_regex(tree, node_ref, diags);
                proof {
                    assert(exists|c: &mut C, d: &mut Vec<C::Diagnostic>|
                        #[trigger] call_ensures(C::create_node_regex, (c, tree, node_ref, d), ())
                        && mut_ref_current(c) == *old(self) && mut_ref_future(c) == *self
                        && mut_ref_current(d)@ == old(diags)@ && mut_ref_future(d)@ == diags@);
                }
            },
            Rule::Return => {
                self.create_node_return(tree, node_ref, diags);
                proof {
                    assert(exists|c: &mut C, d: &mut Vec<C::Diagnostic>|
                        #[trigger] call_ensures(C::create_node_return, (c, tree, node_ref, d), ())
                        && mut_ref_current(c) == *old(self) && mut_ref_future(c) == *self
                        && mut_ref_current(d)@ == old(diags)@ && mut_ref_future(d)@ == diags@);
                }
            },
            Rule::RightDecl => {
                self.create_node_right_decl(tree, node_ref, diags);
                proof {
                    assert(exists|c: &mut C, d: &mut Vec<C::Diagnostic>|
                        #[trigger] call_ensures(C::create_node_right_decl, (c, tree, node_ref, d), ())
                        && mut_ref_current(c) == *old(self) && mut_ref_future(c) == *self
                        && mut_ref_current(d)@ == old(diags)@ && mut_ref_future(d)@ == diags@);
                }
            },
            Rule::RuleDecl => {
                self.create_node_rule_decl(tree, node_ref, diags);
                proof {
                    assert(exists|c: &mut C, d: &mut Vec<C::Diagnostic>|
                        #[trigger] call_ensures(C::create_node_rule_decl, (c, tree, node_ref, d), ())
                        && mut_ref_current(c) == *old(self) && mut_ref_future(c) == *self
                        && mut_ref_current(d)@ == old(diags)@ && mut_ref_future(d)@ == diags@);
                }
            },
            Rule::SkipDecl => {
                self.create_node_skip_decl(tree, node_ref, diags);
                proof {
                    assert(exists|c: &mut C, d: &mut Vec<C::Diagnostic>|
                        #[trigger] call_ensures(C::create_node_skip_decl, (c, tree, node_ref, d), ())
                        && mut_ref_current(c) == *old(self) && mut_ref_future(c) == *self
                        && mut_ref_current(d)@ == old(diags)@ && mut_ref_future(d)@ == diags@);
                }
            },
            Rule::Star => {
                self.create_node_star(tree, node_ref, diags);
                proof {
                    assert(exists|c: &mut C, d: &mut Vec<C::Diagnostic>|
                        #[trigger] call_ensures(C::create_node_star, (c, tree, node_ref, d), ())
                        && mut_ref_current(c) == *old(self) && mut_ref_future(c) == *self
                        && mut_ref_current(d)@ == old(diags)@ && mut_ref_future(d)@ == diags@);
                }
            },
            Rule::StartDecl => {
                self.create_node_start_decl(tree, node_ref, diags);
                proof {
                    assert(exists|c: &mut C, d: &mut Vec<C::Diagnostic>|
                        #[trigger] call_ensures(C::create_node_start_decl, (c, tree, node_ref, d), ())
                        && mut_ref_current(c) == *old(self) && mut_ref_future(c) == *self
                        && mut_ref_current(d)@ == old(diags)@ && mut_ref_future(d)@ == diags@);
                }
            },
            Rule::Symbol => {
                self.create_node_symbol(tree, node_ref, diags);
                proof {
                    assert(exists|c: &mut C, d: &mut Vec<C::Diagnostic>|
                        #[trigger] call_ensures(C::create_node_symbol, (c, tree, node_ref, d), ())
                        && mut_ref_current(c) == *old(self) && mut_ref_future(c) == *self
                        && mut_ref_current(d)@ == old(diags)@ && mut_ref_future(d)@ == diags@);
                }
            },
            Rule::TokenDecl => {
                self.create_node_token_decl(tree, node_ref, diags);
                proof {
                    assert(exists|c: &mut C, d: &mut Vec<C::Diagnostic>|
                        #[trigger] call_ensures(C::create_node_token_decl, (c, tree, node_ref, d), ())
                        && mut_ref_current(c) == *old(self) && mut_ref_future(c) == *self
                        && mut_ref_current(d)@ == old(diags)@ && mut_ref_future(d)@ == diags@);
                }
            },
            Rule::TokenList => {
                self.create_node_token_list(tree, node_ref, diags);
                proof {
                    assert(exists|c: &mut C, d: &mut Vec<C::Diagnostic>|
                        #[trigger] call_ensures(C::create_node_token_list, (c, tree, node_ref, d), ())
                        && mut_ref_current(c) == *old(self) && mut_ref_future(c) == *self
                        && mut_ref_current(d)@ == old(diags)@ && mut_ref_future(d)@ == diags@);
                }
            },
        }
    }

    /// Forwards to the context's `create_node_error`.
    fn create_node_error_hook(&mut self, tree: &CstData<Token, Rule>, node_ref: NodeRef, diags: &mut Vec<Self::Diag>)
        ensures
            exists|c: &mut C, d: &mut Vec<C::Diagnostic>|
                #![trigger call_ensures(C::create_node_error, (c, tree, node_ref, d), ())]
                mut_ref_current(c) == *old(self) && mut_ref_future(c) == *final(self)
                    && mut_ref_current(d)@ == old(diags)@ && mut_ref_future(d)@ == final(diags)@
                    && call_ensures(C::create_node_error, (c, tree, node_ref, d), ()),
    {
        self.create_node_error(tree, node_ref, diags);
        proof {
            assert(exists|c: &mut C, d: &mut Vec<C::Diagnostic>|
                #[trigger] call_ensures(C::create_node_error, (c, tree, node_ref, d), ())
                && mut_ref_current(c) == *old(self) && mut_ref_future(c) == *self
                && mut_ref_current(d)@ == old(diags)@ && mut_ref_future(d)@ == diags@);
        }
    }

    fn delete_node(&mut self, _rule: Rule, _node_ref: NodeRef) {
    }
}

/// Tokenizes `source` through the context's `create_tokens` and parses it as a grammar
/// file, provided the tokens fit (see `Parser::check_input`); `None` when they do not.
/// The tree holds every token, in order, under a root file node, and can be listed.
pub fn parse_grammar<'a, C: ParserCallbacks>(
    source: &'a str,
    context: C,
    diags: &mut Vec<C::Diagnostic>,
) -> (r: Option<Cst<'a, Token, Rule>>)
    ensures
        r matches Some(c) ==> {
            &&& c.text() == source
            &&& c.tree().listable(source)
            &&& c.tree().nodes.len() >= 1
            &&& c.tree().nodes[0] == NodeView::<Token, Rule>::Rule(
                Rule::File,
                (c.tree().nodes.len() - 1) as nat,
            )
        },
        r is None ==> exists|p: Parser<'a, CstData<Token, Rule>, C>, c: &mut C, d: &mut Vec<C::Diagnostic>|
            #![trigger call_ensures(C::create_tokens_hook, (c, source, d), (p.tokens, p.spans)), p.input_fits()]
            mut_ref_current(c) == context && mut_ref_current(d)@ == old(diags)@ && call_ensures(
                C::create_tokens_hook,
                (c, source, d),
                (p.tokens, p.spans),
            ) && p.builder.text() == source && !p.input_fits(),
{
    let p = Parser::<CstData<Token, Rule>, C>::new_with_context(source, diags, context);
    if p.check_input() {
        proof {
            p.lemma_fresh();
        }
        Some(p.parse(diags))
    } else {
        None
    }
}

} // verus!
