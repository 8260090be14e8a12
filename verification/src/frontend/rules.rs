use vstd::prelude::*;

use crate::cst::{extent, token_nodes, Cst, CstData, NodeView};
use crate::cst_parse::{load_limit, rule_of};
use super::{ParserCallbacks, Rule, Token};
use crate::parser::{Parser, ParserHooks};

verus! {

/// The tokens that can start a regular expression of the grammar (and its alternations,
/// ordered choices, concatenations and postfix expressions).
pub open spec fn first_regex(t: Token) -> bool {
    matches!(
        t,
        Token::Action | Token::And | Token::Assertion | Token::Hat | Token::Id | Token::LBrak
            | Token::LPar | Token::NodeCreation | Token::NodeMarker | Token::NodeRename
            | Token::Predicate | Token::Str | Token::Tilde
    )
}

/// The tokens that can start a declaration.
pub open spec fn first_decl(t: Token) -> bool {
    matches!(t, Token::Id | Token::Part | Token::Right | Token::Skip | Token::Start | Token::Token)
}

/// The tokens at which the symbol list of a `right` or `skip` declaration ends: its `;`,
/// the start of a following declaration other than a rule, or the end of input.
pub open spec fn ends_symbols(t: Token) -> bool {
    matches!(
        t,
        Token::Semi | Token::EOF | Token::Part | Token::Right | Token::Skip | Token::Start
            | Token::Token
    )
}

/// The tokens at which a declaration that misses its `;` ends: the start of a following
/// declaration other than a rule, or the end of input.
pub open spec fn ends_decl(t: Token) -> bool {
    matches!(t, Token::EOF | Token::Part | Token::Right | Token::Skip | Token::Start | Token::Token)
}

/// The node kinds of an atom: what a postfix expression builds when no `*` or `+` follows.
pub open spec fn atom_kind(k: Rule) -> bool {
    matches!(
        k,
        Rule::Paren | Rule::Optional | Rule::Name | Rule::Symbol | Rule::Predicate | Rule::Action
            | Rule::Assertion | Rule::NodeRename | Rule::NodeMarker | Rule::NodeCreation
            | Rule::NodeElision | Rule::Commit | Rule::Return
    )
}

/// The node kinds at the top of a postfix expression: an atom, or a `*` or `+` over one.
pub open spec fn postfix_kind(k: Rule) -> bool {
    atom_kind(k) || k == Rule::Star || k == Rule::Plus
}

/// The node kinds at the top of a concatenation: a postfix expression alone, or a `Concat`.
pub open spec fn concat_kind(k: Rule) -> bool {
    postfix_kind(k) || k == Rule::Concat
}

/// The node kinds at the top of an ordered choice: a concatenation alone, or an
/// `OrderedChoice`.
pub open spec fn choice_kind(k: Rule) -> bool {
    concat_kind(k) || k == Rule::OrderedChoice
}

/// The node kinds at the top of a regular expression: an ordered choice alone, or an
/// `Alternation`.
pub open spec fn regex_kind(k: Rule) -> bool {
    choice_kind(k) || k == Rule::Alternation
}

/// The token that an atom of kind `k` starts with, its first child.
pub open spec fn atom_token(k: Rule) -> Option<Token> {
    match k {
        Rule::Paren => Some(Token::LPar),
        Rule::Optional => Some(Token::LBrak),
        Rule::Name => Some(Token::Id),
        Rule::Symbol => Some(Token::Str),
        Rule::Predicate => Some(Token::Predicate),
        Rule::Action => Some(Token::Action),
        Rule::Assertion => Some(Token::Assertion),
        Rule::NodeRename => Some(Token::NodeRename),
        Rule::NodeMarker => Some(Token::NodeMarker),
        Rule::NodeCreation => Some(Token::NodeCreation),
        Rule::NodeElision => Some(Token::Hat),
        Rule::Commit => Some(Token::Tilde),
        Rule::Return => Some(Token::And),
        _ => None,
    }
}

/// If the node at `e` is an atom, the node right after it is the atom's token.
pub open spec fn atom_opened(nodes: Seq<NodeView<Token, Rule>>, e: int) -> bool {
    0 <= e < nodes.len() ==> match nodes[e] {
        NodeView::Rule(k, _) => match atom_token(k) {
            Some(t) => e + 1 < nodes.len() && (nodes[e + 1] matches NodeView::Token(u, _) && u == t),
            None => true,
        },
        NodeView::Token(..) => true,
    }
}

/// The tokens at which a regular expression (an alternation) ends: a closing bracket or
/// parenthesis, a `;`, or the start of another declaration or the end of input.
pub open spec fn ends_regex(t: Token) -> bool {
    matches!(
        t,
        Token::RBrak | Token::RPar | Token::Semi | Token::EOF | Token::Id | Token::Part
            | Token::Right | Token::Skip | Token::Start | Token::Token
    )
}

/// The tokens at which an ordered choice ends: those of a regular expression and `|`.
pub open spec fn ends_choice(t: Token) -> bool {
    ends_regex(t) || t == Token::Or
}

/// The tokens at which a concatenation ends: those of an ordered choice and `/`, except
/// an identifier, which starts another element.
pub open spec fn ends_concat(t: Token) -> bool {
    (ends_choice(t) && t != Token::Id) || t == Token::Slash
}

/// `after` keeps the expression ends of `before` in place and adds only ends of expressions
/// that started at position `lo` or later.
pub open spec fn ends_from(
    before: Seq<(Rule, nat, Token, Option<Rule>)>,
    after: Seq<(Rule, nat, Token, Option<Rule>)>,
    lo: int,
) -> bool {
    &&& before.len() <= after.len()
    &&& forall|k: int| 0 <= k < before.len() ==> #[trigger] after[k] == before[k]
    &&& forall|k: int| before.len() <= k < after.len() ==> (#[trigger] after[k]).1 >= lo
}

/// Adding ends in two steps adds only ends from the lower of the two bounds on.
pub proof fn lemma_ends_from_trans(
    a: Seq<(Rule, nat, Token, Option<Rule>)>,
    b: Seq<(Rule, nat, Token, Option<Rule>)>,
    c: Seq<(Rule, nat, Token, Option<Rule>)>,
    lo: int,
    lo2: int,
)
    requires
        ends_from(a, b, lo),
        ends_from(b, c, lo2),
        lo <= lo2,
    ensures
        ends_from(a, c, lo),
{
    assert forall|k: int| a.len() <= k < c.len() implies (#[trigger] c[k]).1 >= lo by {
        if k < b.len() {
            assert(c[k] == b[k]);
        }
    }
}

/// Ends added up to a last one, which starts at `lo` or later, are all from `lo` on.
pub proof fn lemma_ends_from_last(a: Seq<(Rule, nat, Token, Option<Rule>)>, b: Seq<(Rule, nat, Token, Option<Rule>)>, lo: int)
    requires
        b.len() > a.len(),
        ends_from(a, b.drop_last(), lo),
        b.last().1 >= lo,
    ensures
        ends_from(a, b, lo),
{
    assert forall|k: int| 0 <= k < a.len() implies #[trigger] b[k] == a[k] by {
        assert(b[k] == b.drop_last()[k]);
    }
    assert forall|k: int| a.len() <= k < b.len() implies (#[trigger] b[k]).1 >= lo by {
        if k < b.len() - 1 {
            assert(b[k] == b.drop_last()[k]);
        }
    }
}

/// The recursive-descent rules of the grammar description language.
///
/// Each rule keeps the parser invariant and every node already in the tree (with its
/// kind), never moves backwards, and raises the load by at most the nodes it may open
/// before consuming a token; when the current token can start it, it consumes at least one
/// token and lowers the load. This makes every loop and the recursion terminate, and keeps
/// the tree's indices in range. Each rule also states the kind of the node it leaves where
/// its first node goes: a declaration its own kind, an expression one of the kinds that
/// its level of the grammar can build, and a `*` or `+` node only after its operator.
pub trait Rules: Sized {
    type Diagnostic;

    /// What a whole parse returns.
    type Output;

    /// The parser invariant.
    spec fn rules_ok(&self) -> bool;

    /// The resource measure of the parser (see `Parser::load`).
    spec fn rules_load(&self) -> int;

    /// The current token.
    spec fn current_token(&self) -> Token;

    /// `next` has the same input, a tree at least as large and a position at least as far.
    spec fn extends(&self, next: Self) -> bool;

    /// The kind of the rule node in `next` at the place where the next node of `self` goes
    /// (after its pending skip tokens); `None` where `next` has no rule node there.
    spec fn entry_kind(&self, next: Self) -> Option<Rule>;

    /// The token of the last node of the tree, if that node is a token.
    spec fn last_token(&self) -> Option<Token>;

    /// In `next`, an atom at the place where the next node of `self` goes starts with its
    /// token (see `atom_opened`).
    spec fn entry_opened(&self, next: Self) -> bool;

    /// `next` is at a later position.
    spec fn advanced(&self, next: Self) -> bool;

    /// The position of the current token.
    spec fn position(&self) -> nat;

    /// The ends of the expressions parsed so far, in the order they ended: the level of
    /// the expression, the position it started at, the token it stopped at, and the kind of
    /// the node it left where it started (as `entry_kind` gives it).
    spec fn expr_ends(&self) -> Seq<(Rule, nat, Token, Option<Rule>)>;

    /// In `next`, the rule node at the place where the next node of `self` goes reaches to
    /// the end of the tree, up to its last node that is not a trailing skip token: it holds
    /// every token consumed since.
    spec fn entry_closed(&self, next: Self) -> bool;

    /// A whole parse may be run.
    spec fn can_parse(&self) -> bool;

    /// `r` is what a whole parse from `self` returns: the tree holds every input token, in
    /// order, each with its own span; every rule's descendants lie within the tree; and a
    /// fresh parse puts a root file node over all of it.
    spec fn parsed(&self, r: Self::Output) -> bool;

    /// Parses the whole input as a grammar file.
    fn parse(self, diags: &mut Vec<Self::Diagnostic>) -> (r: Self::Output)
        requires
            self.can_parse(),
        ensures
            self.parsed(r),
    ;

    fn rule_file(&mut self, diags: &mut Vec<Self::Diagnostic>)
        requires
            old(self).rules_ok(),
            old(self).rules_load() + 2 <= load_limit(),
        ensures
            final(self).rules_ok(),
            old(self).extends(*final(self)),
            final(self).rules_load() <= old(self).rules_load(),
            final(self).current_token() == Token::EOF,
    ;

    fn rule_decl(&mut self, diags: &mut Vec<Self::Diagnostic>)
        requires
            old(self).rules_ok(),
            old(self).rules_load() + 2 <= load_limit(),
        ensures
            final(self).rules_ok(),
            old(self).extends(*final(self)),
            final(self).rules_load() <= old(self).rules_load(),
            first_decl(old(self).current_token()) ==> old(self).advanced(*final(self)) && final(self).rules_load() <= old(self).rules_load() - 1,
            old(self).current_token() == Token::Token ==> old(self).entry_kind(*final(self)) == Some(Rule::TokenList),
            old(self).current_token() == Token::Start ==> old(self).entry_kind(*final(self)) == Some(Rule::StartDecl),
            old(self).current_token() == Token::Right ==> old(self).entry_kind(*final(self)) == Some(Rule::RightDecl),
            old(self).current_token() == Token::Skip ==> old(self).entry_kind(*final(self)) == Some(Rule::SkipDecl),
            old(self).current_token() == Token::Part ==> old(self).entry_kind(*final(self)) == Some(Rule::PartDecl),
    ;

    fn rule_start_decl(&mut self, diags: &mut Vec<Self::Diagnostic>)
        requires
            old(self).rules_ok(),
            old(self).rules_load() <= load_limit(),
        ensures
            final(self).rules_ok(),
            old(self).extends(*final(self)),
            final(self).rules_load() <= old(self).rules_load() + 1,
            old(self).current_token() == Token::Start ==> old(self).advanced(*final(self)) && final(self).rules_load() <= old(self).rules_load() - 2,
            old(self).entry_kind(*final(self)) == Some(Rule::StartDecl),
            old(self).entry_closed(*final(self)),
            final(self).last_token() == Some(Token::Semi) || final(self).current_token() != Token::Semi,
    ;

    fn rule_right_decl(&mut self, diags: &mut Vec<Self::Diagnostic>)
        requires
            old(self).rules_ok(),
            old(self).rules_load() <= load_limit(),
        ensures
            final(self).rules_ok(),
            old(self).extends(*final(self)),
            final(self).rules_load() <= old(self).rules_load() + 1,
            old(self).current_token() == Token::Right ==> old(self).advanced(*final(self)) && final(self).rules_load() <= old(self).rules_load() - 2,
            old(self).entry_kind(*final(self)) == Some(Rule::RightDecl),
            old(self).entry_closed(*final(self)),
            final(self).last_token() == Some(Token::Semi) || ends_decl(final(self).current_token()),
    ;

    fn rule_skip_decl(&mut self, diags: &mut Vec<Self::Diagnostic>)
        requires
            old(self).rules_ok(),
            old(self).rules_load() <= load_limit(),
        ensures
            final(self).rules_ok(),
            old(self).extends(*final(self)),
            final(self).rules_load() <= old(self).rules_load() + 1,
            old(self).current_token() == Token::Skip ==> old(self).advanced(*final(self)) && final(self).rules_load() <= old(self).rules_load() - 2,
            old(self).entry_kind(*final(self)) == Some(Rule::SkipDecl),
            old(self).entry_closed(*final(self)),
            final(self).last_token() == Some(Token::Semi) || ends_decl(final(self).current_token()),
    ;

    fn rule_part_decl(&mut self, diags: &mut Vec<Self::Diagnostic>)
        requires
            old(self).rules_ok(),
            old(self).rules_load() <= load_limit(),
        ensures
            final(self).rules_ok(),
            old(self).extends(*final(self)),
            final(self).rules_load() <= old(self).rules_load() + 1,
            old(self).current_token() == Token::Part ==> old(self).advanced(*final(self)) && final(self).rules_load() <= old(self).rules_load() - 2,
            old(self).entry_kind(*final(self)) == Some(Rule::PartDecl),
            old(self).entry_closed(*final(self)),
            final(self).last_token() == Some(Token::Semi) || ends_decl(final(self).current_token()),
    ;

    fn rule_token_list(&mut self, diags: &mut Vec<Self::Diagnostic>)
        requires
            old(self).rules_ok(),
            old(self).rules_load() + 2 <= load_limit(),
        ensures
            final(self).rules_ok(),
            old(self).extends(*final(self)),
            final(self).rules_load() <= old(self).rules_load() + 2,
            old(self).current_token() == Token::Token ==> old(self).advanced(*final(self)) && final(self).rules_load() <= old(self).rules_load() - 1,
            old(self).entry_kind(*final(self)) == Some(Rule::TokenList),
            old(self).entry_closed(*final(self)),
            final(self).last_token() == Some(Token::Semi) || ends_decl(final(self).current_token()),
    ;

    fn rule_token_decl(&mut self, diags: &mut Vec<Self::Diagnostic>)
        requires
            old(self).rules_ok(),
            old(self).rules_load() <= load_limit(),
        ensures
            final(self).rules_ok(),
            old(self).extends(*final(self)),
            final(self).rules_load() <= old(self).rules_load() + 1,
            old(self).current_token() == Token::Id ==> old(self).advanced(*final(self)) && final(self).rules_load() <= old(self).rules_load() - 2,
            old(self).entry_kind(*final(self)) == Some(Rule::TokenDecl),
            old(self).entry_closed(*final(self)),
    ;

    fn rule_rule_decl(&mut self, diags: &mut Vec<Self::Diagnostic>)
        requires
            old(self).rules_ok(),
            old(self).rules_load() + 1 <= load_limit(),
        ensures
            final(self).rules_ok(),
            old(self).extends(*final(self)),
            final(self).rules_load() <= old(self).rules_load() + 1,
            old(self).current_token() == Token::Id ==> old(self).advanced(*final(self)) && final(self).rules_load() <= old(self).rules_load() - 2,
            old(self).entry_kind(*final(self)) == Some(Rule::RuleDecl),
            old(self).entry_closed(*final(self)),
            final(self).last_token() == Some(Token::Semi) || final(self).current_token() != Token::Semi,
    ;

    fn rule_regex(&mut self, diags: &mut Vec<Self::Diagnostic>)
        requires
            old(self).rules_ok(),
            old(self).rules_load() <= load_limit(),
        ensures
            final(self).rules_ok(),
            old(self).extends(*final(self)),
            final(self).rules_load() <= old(self).rules_load(),
            first_regex(old(self).current_token()) ==> old(self).advanced(*final(self)) && final(self).rules_load() <= old(self).rules_load() - 2,
            first_regex(old(self).current_token()) ==> (old(self).entry_kind(*final(self)) matches Some(k) && regex_kind(k)),
            first_regex(old(self).current_token()) ==> old(self).entry_opened(*final(self)),
            ends_regex(final(self).current_token()),
            ends_from(old(self).expr_ends(), final(self).expr_ends(), old(self).position() as int),
    ;

    fn rule_alternation(&mut self, diags: &mut Vec<Self::Diagnostic>)
        requires
            old(self).rules_ok(),
            old(self).rules_load() <= load_limit(),
        ensures
            final(self).rules_ok(),
            old(self).extends(*final(self)),
            final(self).rules_load() <= old(self).rules_load(),
            first_regex(old(self).current_token()) ==> old(self).advanced(*final(self)) && final(self).rules_load() <= old(self).rules_load() - 2,
            first_regex(old(self).current_token()) ==> (old(self).entry_kind(*final(self)) matches Some(k) && regex_kind(k)),
            first_regex(old(self).current_token()) ==> old(self).entry_opened(*final(self)),
            ends_regex(final(self).current_token()),
            ends_from(old(self).expr_ends(), final(self).expr_ends(), old(self).position() as int),
            forall|k: int|
                #![trigger final(self).expr_ends()[k]]
                old(self).expr_ends().len() <= k < final(self).expr_ends().len()
                    && final(self).expr_ends()[k].0 == Rule::OrderedChoice
                    && final(self).expr_ends()[k].1 == old(self).position() ==> if final(self).expr_ends()[k].2 == Token::Or {
                    old(self).entry_kind(*final(self)) == Some(Rule::Alternation)
                } else {
                    old(self).entry_kind(*final(self)) == final(self).expr_ends()[k].3
                },
    ;

    fn rule_ordered_choice(&mut self, diags: &mut Vec<Self::Diagnostic>)
        requires
            old(self).rules_ok(),
            old(self).rules_load() <= load_limit(),
        ensures
            final(self).rules_ok(),
            old(self).extends(*final(self)),
            final(self).rules_load() <= old(self).rules_load(),
            first_regex(old(self).current_token()) ==> old(self).advanced(*final(self)) && final(self).rules_load() <= old(self).rules_load() - 2,
            first_regex(old(self).current_token()) ==> (old(self).entry_kind(*final(self)) matches Some(k) && choice_kind(k)),
            first_regex(old(self).current_token()) ==> old(self).entry_opened(*final(self)),
            ends_choice(final(self).current_token()),
            final(self).expr_ends().len() > old(self).expr_ends().len(),
            ends_from(old(self).expr_ends(), final(self).expr_ends(), old(self).position() as int),
            final(self).expr_ends().last() == (
                Rule::OrderedChoice,
                old(self).position(),
                final(self).current_token(),
                old(self).entry_kind(*final(self)),
            ),
            forall|k: int|
                #![trigger final(self).expr_ends()[k]]
                old(self).expr_ends().len() <= k < final(self).expr_ends().len() - 1
                    && final(self).expr_ends()[k].1 == old(self).position()
                    ==> final(self).expr_ends()[k].0 == Rule::Concat,
            forall|k: int|
                #![trigger final(self).expr_ends()[k]]
                old(self).expr_ends().len() <= k < final(self).expr_ends().len()
                    && final(self).expr_ends()[k].0 == Rule::Concat
                    && final(self).expr_ends()[k].1 == old(self).position() ==> if final(self).expr_ends()[k].2 == Token::Slash {
                    old(self).entry_kind(*final(self)) == Some(Rule::OrderedChoice)
                } else {
                    old(self).entry_kind(*final(self)) == final(self).expr_ends()[k].3
                },
    ;

    fn rule_concat(&mut self, diags: &mut Vec<Self::Diagnostic>)
        requires
            old(self).rules_ok(),
            old(self).rules_load() <= load_limit(),
        ensures
            final(self).rules_ok(),
            old(self).extends(*final(self)),
            final(self).rules_load() <= old(self).rules_load(),
            first_regex(old(self).current_token()) ==> old(self).advanced(*final(self)) && final(self).rules_load() <= old(self).rules_load() - 2,
            first_regex(old(self).current_token()) ==> (old(self).entry_kind(*final(self)) matches Some(k) && concat_kind(k)),
            first_regex(old(self).current_token()) ==> old(self).entry_opened(*final(self)),
            ends_concat(final(self).current_token()),
            final(self).expr_ends().len() > old(self).expr_ends().len(),
            ends_from(old(self).expr_ends(), final(self).expr_ends().drop_last(), old(self).position() as int + 1),
            final(self).expr_ends().last() == (
                Rule::Concat,
                old(self).position(),
                final(self).current_token(),
                old(self).entry_kind(*final(self)),
            ),
    ;

    fn rule_postfix(&mut self, diags: &mut Vec<Self::Diagnostic>)
        requires
            old(self).rules_ok(),
            old(self).rules_load() <= load_limit(),
        ensures
            final(self).rules_ok(),
            old(self).extends(*final(self)),
            final(self).rules_load() <= old(self).rules_load(),
            first_regex(old(self).current_token()) ==> old(self).advanced(*final(self)) && final(self).rules_load() <= old(self).rules_load() - 2,
            first_regex(old(self).current_token()) ==> (old(self).entry_kind(*final(self)) matches Some(k) && postfix_kind(k)),
            old(self).entry_kind(*final(self)) == Some(Rule::Star) ==> final(self).last_token() == Some(Token::Star),
            old(self).entry_kind(*final(self)) == Some(Rule::Plus) ==> final(self).last_token() == Some(Token::Plus),
            first_regex(old(self).current_token()) ==> old(self).entry_opened(*final(self)),
            final(self).current_token() != Token::Star && final(self).current_token() != Token::Plus,
            ends_from(old(self).expr_ends(), final(self).expr_ends(), old(self).position() as int + 1),
    ;
}


/// A concatenation records where it started and the token it stopped at. The first
/// concatenation of an ordered choice is the only one that starts where the choice does:
/// when it stopped at a `/`, the node the choice leaves where it started is an
/// `OrderedChoice`. Likewise the first ordered choice of an alternation is the only one
/// that starts there, and when it stopped at a `|` the node left there is an `Alternation`.
pub proof fn lemma_choice_nodes<P: Rules>()
    ensures
        forall|p: &mut P, d: &mut Vec<P::Diagnostic>|
            #[trigger] call_ensures(P::rule_concat, (p, d), ()) ==> mut_ref_future(p).expr_ends().last()
                == (
                Rule::Concat,
                mut_ref_current(p).position(),
                mut_ref_future(p).current_token(),
                mut_ref_current(p).entry_kind(mut_ref_future(p)),
            ),
        forall|p: &mut P, d: &mut Vec<P::Diagnostic>|
            #[trigger] call_ensures(P::rule_ordered_choice, (p, d), ()) ==> forall|k: int|
                #![trigger mut_ref_future(p).expr_ends()[k]]
                mut_ref_current(p).expr_ends().len() <= k < mut_ref_future(p).expr_ends().len()
                    && mut_ref_future(p).expr_ends()[k].0 == Rule::Concat
                    && mut_ref_future(p).expr_ends()[k].1 == mut_ref_current(p).position() ==> if mut_ref_future(p).expr_ends()[k].2 == Token::Slash {
                    mut_ref_current(p).entry_kind(mut_ref_future(p)) == Some(Rule::OrderedChoice)
                } else {
                    mut_ref_current(p).entry_kind(mut_ref_future(p)) == mut_ref_future(p).expr_ends()[k].3
                },
        forall|p: &mut P, d: &mut Vec<P::Diagnostic>|
            #[trigger] call_ensures(P::rule_alternation, (p, d), ()) ==> forall|k: int|
                #![trigger mut_ref_future(p).expr_ends()[k]]
                mut_ref_current(p).expr_ends().len() <= k < mut_ref_future(p).expr_ends().len()
                    && mut_ref_future(p).expr_ends()[k].0 == Rule::OrderedChoice
                    && mut_ref_future(p).expr_ends()[k].1 == mut_ref_current(p).position() ==> if mut_ref_future(p).expr_ends()[k].2 == Token::Or {
                    mut_ref_current(p).entry_kind(mut_ref_future(p)) == Some(Rule::Alternation)
                } else {
                    mut_ref_current(p).entry_kind(mut_ref_future(p)) == mut_ref_future(p).expr_ends()[k].3
                },
{
}

/// A `right`, `skip`, `part` or `token` declaration consumes its closing `;`: after it, the
/// last node of the tree is that `;`, unless the declaration ran into the next declaration
/// or the end of input without one. A `start` declaration or a rule never stops in front
/// of a `;` that it leaves unconsumed.
pub proof fn lemma_declarations_take_their_semicolon<P: Rules>()
    ensures
        forall|p: &mut P, d: &mut Vec<P::Diagnostic>|
            #[trigger] call_ensures(P::rule_start_decl, (p, d), ()) ==> mut_ref_future(p).last_token()
                == Some(Token::Semi) || mut_ref_future(p).current_token() != Token::Semi,
        forall|p: &mut P, d: &mut Vec<P::Diagnostic>|
            #[trigger] call_ensures(P::rule_rule_decl, (p, d), ()) ==> mut_ref_future(p).last_token()
                == Some(Token::Semi) || mut_ref_future(p).current_token() != Token::Semi,
        forall|p: &mut P, d: &mut Vec<P::Diagnostic>|
            #[trigger] call_ensures(P::rule_right_decl, (p, d), ()) ==> mut_ref_future(p).last_token() == Some(
                Token::Semi,
            ) || ends_decl(mut_ref_future(p).current_token()),
        forall|p: &mut P, d: &mut Vec<P::Diagnostic>|
            #[trigger] call_ensures(P::rule_skip_decl, (p, d), ()) ==> mut_ref_future(p).last_token() == Some(
                Token::Semi,
            ) || ends_decl(mut_ref_future(p).current_token()),
        forall|p: &mut P, d: &mut Vec<P::Diagnostic>|
            #[trigger] call_ensures(P::rule_part_decl, (p, d), ()) ==> mut_ref_future(p).last_token() == Some(
                Token::Semi,
            ) || ends_decl(mut_ref_future(p).current_token()),
        forall|p: &mut P, d: &mut Vec<P::Diagnostic>|
            #[trigger] call_ensures(P::rule_token_list, (p, d), ()) ==> mut_ref_future(p).last_token() == Some(
                Token::Semi,
            ) || ends_decl(mut_ref_future(p).current_token()),
{
}

/// Each declaration rule leaves, where it started, one node of its declaration's kind that
/// holds every token it consumed, its closing `;` included: no consumed token is left
/// behind that node as a sibling of it.
pub proof fn lemma_declarations_hold_their_tokens<P: Rules>()
    ensures
        forall|p: &mut P, d: &mut Vec<P::Diagnostic>|
            #[trigger] call_ensures(P::rule_start_decl, (p, d), ()) ==> mut_ref_current(p).entry_kind(
                mut_ref_future(p),
            ) == Some(Rule::StartDecl) && mut_ref_current(p).entry_closed(mut_ref_future(p)),
        forall|p: &mut P, d: &mut Vec<P::Diagnostic>|
            #[trigger] call_ensures(P::rule_right_decl, (p, d), ()) ==> mut_ref_current(p).entry_kind(
                mut_ref_future(p),
            ) == Some(Rule::RightDecl) && mut_ref_current(p).entry_closed(mut_ref_future(p)),
        forall|p: &mut P, d: &mut Vec<P::Diagnostic>|
            #[trigger] call_ensures(P::rule_skip_decl, (p, d), ()) ==> mut_ref_current(p).entry_kind(
                mut_ref_future(p),
            ) == Some(Rule::SkipDecl) && mut_ref_current(p).entry_closed(mut_ref_future(p)),
        forall|p: &mut P, d: &mut Vec<P::Diagnostic>|
            #[trigger] call_ensures(P::rule_part_decl, (p, d), ()) ==> mut_ref_current(p).entry_kind(
                mut_ref_future(p),
            ) == Some(Rule::PartDecl) && mut_ref_current(p).entry_closed(mut_ref_future(p)),
        forall|p: &mut P, d: &mut Vec<P::Diagnostic>|
            #[trigger] call_ensures(P::rule_token_list, (p, d), ()) ==> mut_ref_current(p).entry_kind(
                mut_ref_future(p),
            ) == Some(Rule::TokenList) && mut_ref_current(p).entry_closed(mut_ref_future(p)),
        forall|p: &mut P, d: &mut Vec<P::Diagnostic>|
            #[trigger] call_ensures(P::rule_token_decl, (p, d), ()) ==> mut_ref_current(p).entry_kind(
                mut_ref_future(p),
            ) == Some(Rule::TokenDecl) && mut_ref_current(p).entry_closed(mut_ref_future(p)),
        forall|p: &mut P, d: &mut Vec<P::Diagnostic>|
            #[trigger] call_ensures(P::rule_rule_decl, (p, d), ()) ==> mut_ref_current(p).entry_kind(
                mut_ref_future(p),
            ) == Some(Rule::RuleDecl) && mut_ref_current(p).entry_closed(mut_ref_future(p)),
{
}

impl<'a, C: ParserCallbacks> Parser<'a, CstData<Token, Rule>, C> {
    /// The invariant of a parser for the grammar description language: the invariant of a
    /// parser over a tree, with the end of input read as the end-of-file token.
    pub open spec fn fe_ok(self) -> bool {
        &&& self.shape()
        &&& self.end_of_input == Token::EOF
    }

    /// Consumes the current token if it is `token`, and reports `message` otherwise.
    fn expect(&mut self, token: Token, message: &str, diags: &mut Vec<C::Diagnostic>)
        requires
            old(self).fe_ok(),
            old(self).load() <= load_limit() + 4,
            token != Token::EOF,
        ensures
            final(self).ends@ == old(self).ends@,
            final(self).fe_ok(),
            old(self).grew(*final(self)),
            old(self).kept(*final(self)),
            final(self).load() <= old(self).load(),
            old(self).current == token ==> old(self).pos < final(self).pos && final(self).load()
                <= old(self).load() - 3,
            old(self).current == token ==> final(self).tree_model().nodes.len() == old(self).entry() + 1
                && (final(self).tree_model().nodes.last() matches NodeView::Token(t, _) && t == token),
            old(self).current != token ==> final(self).pos == old(self).pos,
    {
        if self.current == token {
            self.consume(diags);
        } else {
            self.report(message, diags);
        }
    }

    /// Reports `message` and consumes the current token into an error node.
    fn recover(&mut self, message: &str, diags: &mut Vec<C::Diagnostic>)
        requires
            old(self).fe_ok(),
            old(self).load() <= load_limit() + 4,
            old(self).current != Token::EOF,
        ensures
            final(self).ends@ == old(self).ends@,
            final(self).fe_ok(),
            old(self).grew(*final(self)),
            old(self).kept(*final(self)),
            old(self).pos < final(self).pos,
            final(self).load() <= old(self).load() - 2,
    {
        let d = self.context.create_diagnostic_hook(self.span(), message.to_owned());
        self.consume_error(diags, d);
    }

    /// The symbol list of a `right` or `skip` declaration: a first identifier or string
    /// literal, then any more of them up to `;`.
    fn symbols(&mut self, diags: &mut Vec<C::Diagnostic>, m: usize)
        requires
            old(self).fe_ok(),
            old(self).load() <= load_limit() + 2,
            m < old(self).tree_model().nodes.len(),
            1 <= old(self).tree_model().non_skip_len,
        ensures
            final(self).fe_ok(),
            old(self).grew(*final(self)),
            old(self).kept(*final(self)),
            final(self).load() <= old(self).load(),
            ends_symbols(final(self).current),
            old(self).current == Token::Id || old(self).current == Token::Str ==> old(self).pos
                < final(self).pos,
    {
        match self.current {
            Token::Id => {
                self.expect(Token::Id, "invalid syntax, expected: <identifier>", diags);
            },
            Token::Str => {
                self.expect(Token::Str, "invalid syntax, expected: <string literal>", diags);
            },
            _ => {
                self.report("invalid syntax, expected one of: <identifier>, <string literal>", diags);
            },
        }
        let ghost head = *self;
        loop
            invariant
                self.fe_ok(),
                old(self).grew(*self),
                self.load() <= head.load(),
                head.load() <= old(self).load(),
                old(self).load() <= load_limit() + 2,
                old(self).kept(*self),
                old(self).current == Token::Id || old(self).current == Token::Str ==> old(self).pos
                    < self.pos,
            ensures
                ends_symbols(self.current),
            decreases self.tokens@.len() - self.pos,
        {
            match self.current {
                Token::Id | Token::Str => {
                    match self.current {
                        Token::Id => {
                            self.expect(Token::Id, "invalid syntax, expected: <identifier>", diags);
                        },
                        Token::Str => {
                            self.expect(Token::Str, "invalid syntax, expected: <string literal>", diags);
                        },
                        _ => {
                            self.report(
                                "invalid syntax, expected one of: <identifier>, <string literal>",
                                diags,
                            );
                        },
                    }
                },
                Token::Semi => break,
                Token::EOF | Token::Part | Token::Right | Token::Skip | Token::Start | Token::Token => {
                    self.report("invalid syntax, expected one of: <identifier>, ';', <string literal>", diags);
                    break;
                },
                _ => {
                    self.recover("invalid syntax, expected one of: <identifier>, ';', <string literal>", diags);
                },
            }
        }
    }

    /// A postfix expression whose operand starts at `lhs`: an atom, then any number of
    /// `*` or `+`, each wrapping everything since `lhs`.
    #[verifier::rlimit(40)]
    fn postfix_rec(&mut self, diags: &mut Vec<C::Diagnostic>, lhs: usize)
        requires
            old(self).fe_ok(),
            old(self).load() <= load_limit(),
            lhs == old(self).tree_model().nodes.len(),
            old(self).builder.pending().len() == 0,
        ensures
            final(self).fe_ok(),
            old(self).grew(*final(self)),
            old(self).kept(*final(self)),
            final(self).load() <= old(self).load(),
            first_regex(old(self).current) ==> old(self).pos < final(self).pos && final(self).load()
                <= old(self).load() - 2,
            first_regex(old(self).current) ==> lhs < final(self).tree_model().nodes.len() && (
                final(self).tree_model().nodes[lhs as int] matches NodeView::Rule(k, _)
                && postfix_kind(k)),
            lhs < final(self).tree_model().nodes.len() && rule_of(final(self).tree_model().nodes[lhs as int], Rule::Star)
                ==> final(self).last_token() == Some(Token::Star),
            atom_opened(final(self).tree_model().nodes, lhs as int),
            final(self).current != Token::Star && final(self).current != Token::Plus,
            lhs < final(self).tree_model().nodes.len() && rule_of(final(self).tree_model().nodes[lhs as int], Rule::Plus)
                ==> final(self).last_token() == Some(Token::Plus),
            ends_from(old(self).ends@, final(self).ends@, old(self).pos + 1),
        decreases old(self).tokens@.len() - old(self).pos, 0nat,
    {
        let mut lhs = lhs;
        let mut node_kind = Rule::Postfix;
        match self.current {
            Token::LPar => {
                let m = self.open_rule(diags);
                self.expect(Token::LPar, "invalid syntax, expected: '('", diags);
                loop
                    invariant
                        self.fe_ok(),
                        old(self).grew(*self),
                        old(self).pos < self.pos,
                        self.load() <= old(self).load() - 2,
                        old(self).load() <= load_limit(),
                        m < self.tree_model().nodes.len(),
                        self.tree_model().nodes[m as int] is Rule,
                        old(self).kept(*self),
                        1 <= self.tree_model().non_skip_len,
                        m == lhs,
                        lhs == old(self).tree_model().nodes.len(),
                        lhs + 1 < self.tree_model().nodes.len() && (self.tree_model().nodes[lhs + 1]
                            matches NodeView::Token(u, _) && u == Token::LPar),
                        ends_from(old(self).ends@, self.ends@, old(self).pos + 1),
                    decreases self.tokens@.len() - self.pos,
                {
                    match self.current {
                        Token::Action | Token::And | Token::Assertion | Token::Hat | Token::Id
                        | Token::LBrak | Token::LPar | Token::NodeCreation | Token::NodeMarker
                        | Token::NodeRename | Token::Predicate | Token::Str | Token::Tilde => {
                            let ghost before = *self;
                            self.rule_regex(diags);
                            proof {
                                lemma_ends_from_trans(
                                    old(self).ends@,
                                    before.ends@,
                                    self.ends@,
                                    old(self).pos + 1,
                                    before.pos as int,
                                );
                            }
                            break;
                        },
                        Token::RPar => break,
                        Token::EOF | Token::Or | Token::Part | Token::Plus | Token::RBrak
                        | Token::Right | Token::Semi | Token::Skip | Token::Slash | Token::Star
                        | Token::Start | Token::Token => {
                            self.report(
                                "invalid syntax, expected one of: <semantic action>, '&', <semantic assertion>, '^', <identifier>, '[', '(', <node creation>, <node marker>, <node rename>, <semantic predicate>, ')', <string literal>, '~'",
                                diags,
                            );
                            break;
                        },
                        _ => {
                            self.recover(
                                "invalid syntax, expected one of: <semantic action>, '&', <semantic assertion>, '^', <identifier>, '[', '(', <node creation>, <node marker>, <node rename>, <semantic predicate>, ')', <string literal>, '~'",
                                diags,
                            );
                        },
                    }
                }
                self.expect(Token::RPar, "invalid syntax, expected: ')'", diags);
                node_kind = Rule::Paren;
                let _closed = self.close_rule(m, node_kind, diags);
            },
            Token::LBrak => {
                let m = self.open_rule(diags);
                self.expect(Token::LBrak, "invalid syntax, expected: '['", diags);
                let ghost before = *self;
                self.rule_regex(diags);
                proof {
                    lemma_ends_from_trans(
                        old(self).ends@,
                        before.ends@,
                        self.ends@,
                        old(self).pos + 1,
                        before.pos as int,
                    );
                }
                self.expect(Token::RBrak, "invalid syntax, expected: ']'", diags);
                node_kind = Rule::Optional;
                let _closed = self.close_rule(m, node_kind, diags);
            },
            Token::Id => {
                let m = self.open_rule(diags);
                self.expect(Token::Id, "invalid syntax, expected: <identifier>", diags);
                node_kind = Rule::Name;
                let _closed = self.close_rule(m, node_kind, diags);
            },
            Token::Str => {
                let m = self.open_rule(diags);
                self.expect(Token::Str, "invalid syntax, expected: <string literal>", diags);
                node_kind = Rule::Symbol;
                let _closed = self.close_rule(m, node_kind, diags);
            },
            Token::Predicate => {
                let m = self.open_rule(diags);
                self.expect(Token::Predicate, "invalid syntax, expected: <semantic predicate>", diags);
                node_kind = Rule::Predicate;
                let _closed = self.close_rule(m, node_kind, diags);
            },
            Token::Action => {
                let m = self.open_rule(diags);
                self.expect(Token::Action, "invalid syntax, expected: <semantic action>", diags);
                node_kind = Rule::Action;
                let _closed = self.close_rule(m, node_kind, diags);
            },
            Token::Assertion => {
                let m = self.open_rule(diags);
                self.expect(Token::Assertion, "invalid syntax, expected: <semantic assertion>", diags);
                node_kind = Rule::Assertion;
                let _closed = self.close_rule(m, node_kind, diags);
            },
            Token::NodeRename => {
                let m = self.open_rule(diags);
                self.expect(Token::NodeRename, "invalid syntax, expected: <node rename>", diags);
                node_kind = Rule::NodeRename;
                let _closed = self.close_rule(m, node_kind, diags);
            },
            Token::NodeMarker => {
                let m = self.open_rule(diags);
                self.expect(Token::NodeMarker, "invalid syntax, expected: <node marker>", diags);
                node_kind = Rule::NodeMarker;
                let _closed = self.close_rule(m, node_kind, diags);
            },
            Token::NodeCreation => {
                let m = self.open_rule(diags);
                self.expect(Token::NodeCreation, "invalid syntax, expected: <node creation>", diags);
                node_kind = Rule::NodeCreation;
                let _closed = self.close_rule(m, node_kind, diags);
            },
            Token::Hat => {
                let m = self.open_rule(diags);
                self.expect(Token::Hat, "invalid syntax, expected: '^'", diags);
                node_kind = Rule::NodeElision;
                let _closed = self.close_rule(m, node_kind, diags);
            },
            Token::Tilde => {
                let m = self.open_rule(diags);
                self.expect(Token::Tilde, "invalid syntax, expected: '~'", diags);
                node_kind = Rule::Commit;
                let _closed = self.close_rule(m, node_kind, diags);
            },
            Token::And => {
                let m = self.open_rule(diags);
                self.expect(Token::And, "invalid syntax, expected: '&'", diags);
                node_kind = Rule::Return;
                let _closed = self.close_rule(m, node_kind, diags);
            },
            _ => {
                self.report(
                    "invalid syntax, expected one of: <semantic action>, '&', <semantic assertion>, '^', <identifier>, '[', '(', <node creation>, <node marker>, <node rename>, <semantic predicate>, <string literal>, '~'",
                    diags,
                );
            },
        }
        let ghost after_atom = *self;
        loop
            invariant
                self.fe_ok(),
                old(self).grew(*self),
                after_atom.grew(*self),
                self.load() <= after_atom.load(),
                after_atom.load() <= old(self).load(),
                old(self).load() <= load_limit(),
                first_regex(old(self).current) ==> old(self).pos < after_atom.pos && after_atom.load()
                    <= old(self).load() - 2,
                lhs <= self.tree_model().nodes.len(),
                lhs >= old(self).tree_model().nodes.len(),
                old(self).kept(*self),
                lhs == old(self).tree_model().nodes.len(),
                first_regex(old(self).current) ==> lhs < self.tree_model().nodes.len() && (
                self.tree_model().nodes[lhs as int] matches NodeView::Rule(k, _) && postfix_kind(k)),
                lhs < self.tree_model().nodes.len() && rule_of(self.tree_model().nodes[lhs as int], Rule::Star)
                    ==> self.last_token() == Some(Token::Star),
                atom_opened(self.tree_model().nodes, lhs as int),
                lhs < self.tree_model().nodes.len() && rule_of(self.tree_model().nodes[lhs as int], Rule::Plus)
                    ==> self.last_token() == Some(Token::Plus),
                ends_from(old(self).ends@, self.ends@, old(self).pos + 1),
            ensures
                self.current != Token::Star && self.current != Token::Plus,
            decreases self.tokens@.len() - self.pos,
        {
            node_kind = Rule::Postfix;
            match self.current {
                Token::Star => {
                    let m = self.open_rule_before(lhs, diags);
                    self.expect(Token::Star, "invalid syntax, expected: '*'", diags);
                    node_kind = Rule::Star;
                    let closed = self.close_rule(m, node_kind, diags);
                    lhs = closed;
                    continue;
                },
                Token::Plus => {
                    let m = self.open_rule_before(lhs, diags);
                    self.expect(Token::Plus, "invalid syntax, expected: '+'", diags);
                    node_kind = Rule::Plus;
                    let closed = self.close_rule(m, node_kind, diags);
                    lhs = closed;
                    continue;
                },
                _ => {
                    break;
                },
            }
        }
    }
}

impl<'a, C: ParserCallbacks> Rules for Parser<'a, CstData<Token, Rule>, C> {
    type Diagnostic = C::Diagnostic;

    type Output = Cst<'a, Token, Rule>;

    open spec fn rules_ok(&self) -> bool {
        self.fe_ok()
    }

    open spec fn rules_load(&self) -> int {
        self.load()
    }

    open spec fn current_token(&self) -> Token {
        self.current
    }

    open spec fn extends(&self, next: Self) -> bool {
        self.grew(next) && self.kept(next)
    }

    open spec fn entry_kind(&self, next: Self) -> Option<Rule> {
        let e = self.entry();
        if 0 <= e < next.tree_model().nodes.len() {
            match next.tree_model().nodes[e] {
                NodeView::Rule(k, _) => Some(k),
                NodeView::Token(..) => None,
            }
        } else {
            None
        }
    }

    open spec fn last_token(&self) -> Option<Token> {
        let n = self.tree_model().nodes;
        if n.len() > 0 {
            match n.last() {
                NodeView::Token(t, _) => Some(t),
                NodeView::Rule(..) => None,
            }
        } else {
            None
        }
    }

    open spec fn entry_opened(&self, next: Self) -> bool {
        atom_opened(next.tree_model().nodes, self.entry())
    }

    open spec fn advanced(&self, next: Self) -> bool {
        self.pos < next.pos
    }

    open spec fn position(&self) -> nat {
        self.pos as nat
    }

    open spec fn expr_ends(&self) -> Seq<(Rule, nat, Token, Option<Rule>)> {
        self.ends@
    }

    open spec fn entry_closed(&self, next: Self) -> bool {
        let e = self.entry();
        &&& 0 <= e < next.tree_model().nodes.len()
        &&& next.tree_model().non_skip_len <= e + extent(next.tree_model().nodes[e]) + 1
    }

    open spec fn parsed(&self, r: Cst<'a, Token, Rule>) -> bool {
        &&& r.text() == self.builder.text()
        &&& token_nodes(r.tree().nodes) == Seq::new(
            self.tokens@.len(),
            |j: int| (self.tokens@[j], j as nat),
        )
        &&& r.tree().token_count == self.tokens@.len()
        &&& r.tree().nested()
        &&& r.tree().spans == self.token_spans()
        &&& r.tree().nodes.len() <= load_limit() + 1
        &&& forall|i: int|
            0 <= i < r.tree().nodes.len() ==> (#[trigger] r.tree().nodes[i] matches NodeView::Token(_, t)
                ==> t < self.tokens@.len())
        &&& self.tree_model().nodes.len() == 0 && self.builder.pending().len() == 0 ==> {
            &&& r.tree().nodes.len() >= 1
            &&& r.tree().nodes[0] == NodeView::<Token, Rule>::Rule(
                Rule::File,
                (r.tree().nodes.len() - 1) as nat,
            )
        }
    }

    open spec fn can_parse(&self) -> bool {
        &&& self.tree_shape()
        &&& self.load() + 3 <= load_limit()
    }

    fn parse(self, diags: &mut Vec<C::Diagnostic>) -> (r: Cst<'a, Token, Rule>) {
        let mut p = self;
        p.end_of_input = Token::EOF;
        let source = p.builder.source();
        let start_rule = (|parser: &mut Self, diags: &mut Vec<C::Diagnostic>|
            requires
                old(parser).fe_ok(),
                old(parser).load() + 2 <= load_limit(),
            ensures
                final(parser).fe_ok(),
                old(parser).grew(*final(parser)),
                old(parser).kept(*final(parser)),
                final(parser).load() <= load_limit(),
            { parser.rule_file(diags) });
        let data = p.parse_with(start_rule, diags, Rule::File);
        Cst::new(source, data)
    }

    fn rule_file(&mut self, diags: &mut Vec<C::Diagnostic>) {
        loop
            invariant
                self.fe_ok(),
                old(self).grew(*self),
                self.load() <= old(self).load(),
                old(self).load() + 2 <= load_limit(),
                old(self).kept(*self),
            ensures
                self.fe_ok(),
                old(self).grew(*self),
                old(self).kept(*self),
                self.load() <= old(self).load(),
                self.current == Token::EOF,
            decreases self.tokens@.len() - self.pos,
        {
            match self.current {
                Token::Id | Token::Part | Token::Right | Token::Skip | Token::Start | Token::Token => {
                    self.rule_decl(diags);
                },
                Token::EOF => break,
                _ => {
                    self.recover(
                        "invalid syntax, expected one of: <end of file>, <identifier>, 'part', 'right', 'skip', 'start', 'token'",
                        diags,
                    );
                },
            }
        }
    }

    fn rule_decl(&mut self, diags: &mut Vec<C::Diagnostic>) {
        match self.current {
            Token::Token => {
                self.rule_token_list(diags);
            },
            Token::Id => {
                if self.context.predicate_decl_1(&*self) {
                    self.rule_rule_decl(diags);
                } else {
                    self.recover("invalid syntax", diags);
                }
            },
            Token::Start => {
                self.rule_start_decl(diags);
            },
            Token::Right => {
                self.rule_right_decl(diags);
            },
            Token::Skip => {
                self.rule_skip_decl(diags);
            },
            Token::Part => {
                self.rule_part_decl(diags);
            },
            _ => {
                self.report(
                    "invalid syntax, expected one of: <identifier>, 'part', 'right', 'skip', 'start', 'token'",
                    diags,
                );
            },
        }
    }

    fn rule_start_decl(&mut self, diags: &mut Vec<C::Diagnostic>) {
        let m = self.open_rule(diags);
        self.expect(Token::Start, "invalid syntax, expected: 'start'", diags);
        self.expect(Token::Id, "invalid syntax, expected: <identifier>", diags);
        self.expect(Token::Semi, "invalid syntax, expected: ';'", diags);
        let _closed = self.close_rule(m, Rule::StartDecl, diags);
    }

    fn rule_right_decl(&mut self, diags: &mut Vec<C::Diagnostic>) {
        let m = self.open_rule(diags);
        self.expect(Token::Right, "invalid syntax, expected: 'right'", diags);
        self.symbols(diags, m);
        self.expect(Token::Semi, "invalid syntax, expected: ';'", diags);
        let _closed = self.close_rule(m, Rule::RightDecl, diags);
    }

    fn rule_skip_decl(&mut self, diags: &mut Vec<C::Diagnostic>) {
        let m = self.open_rule(diags);
        self.expect(Token::Skip, "invalid syntax, expected: 'skip'", diags);
        self.symbols(diags, m);
        self.expect(Token::Semi, "invalid syntax, expected: ';'", diags);
        let _closed = self.close_rule(m, Rule::SkipDecl, diags);
    }

    fn rule_part_decl(&mut self, diags: &mut Vec<C::Diagnostic>) {
        let m = self.open_rule(diags);
        self.expect(Token::Part, "invalid syntax, expected: 'part'", diags);
        self.expect(Token::Id, "invalid syntax, expected: <identifier>", diags);
        let ghost head = *self;
        loop
            invariant
                self.fe_ok(),
                old(self).grew(head),
                head.grew(*self),
                self.load() <= head.load(),
                head.load() <= old(self).load() + 1,
                old(self).load() + 0 <= load_limit(),
                old(self).current == Token::Part ==> old(self).pos < head.pos && head.load()
                    <= old(self).load() - 2,
                m < self.tree_model().nodes.len(),
                self.tree_model().nodes[m as int] is Rule,
                old(self).kept(*self),
                1 <= self.tree_model().non_skip_len,
            ensures
                self.current == Token::Semi || ends_decl(self.current),
            decreases self.tokens@.len() - self.pos,
        {
            match self.current {
                Token::Id => {
                    self.expect(Token::Id, "invalid syntax, expected: <identifier>", diags);
                },
                Token::Semi => break,
                Token::EOF | Token::Part | Token::Right | Token::Skip | Token::Start | Token::Token => {
                    self.report("invalid syntax, expected one of: <identifier>, ';'", diags);
                    break;
                },
                _ => {
                    self.recover("invalid syntax, expected one of: <identifier>, ';'", diags);
                },
            }
        }
        self.expect(Token::Semi, "invalid syntax, expected: ';'", diags);
        let _closed = self.close_rule(m, Rule::PartDecl, diags);
    }

    fn rule_token_list(&mut self, diags: &mut Vec<C::Diagnostic>) {
        let m = self.open_rule(diags);
        self.expect(Token::Token, "invalid syntax, expected: 'token'", diags);
        self.rule_token_decl(diags);
        let ghost head = *self;
        loop
            invariant
                self.fe_ok(),
                old(self).grew(head),
                head.grew(*self),
                self.load() <= head.load(),
                head.load() <= old(self).load() + 2,
                old(self).load() + 2 <= load_limit(),
                old(self).current == Token::Token ==> old(self).pos < head.pos && head.load()
                    <= old(self).load() - 1,
                m < self.tree_model().nodes.len(),
                self.tree_model().nodes[m as int] is Rule,
                old(self).kept(*self),
                1 <= self.tree_model().non_skip_len,
            ensures
                self.current == Token::Semi || ends_decl(self.current),
            decreases self.tokens@.len() - self.pos,
        {
            match self.current {
                Token::Id => {
                    self.rule_token_decl(diags);
                },
                Token::Semi => break,
                Token::EOF | Token::Part | Token::Right | Token::Skip | Token::Start | Token::Token => {
                    self.report("invalid syntax, expected one of: <identifier>, ';'", diags);
                    break;
                },
                _ => {
                    self.recover("invalid syntax, expected one of: <identifier>, ';'", diags);
                },
            }
        }
        self.expect(Token::Semi, "invalid syntax, expected: ';'", diags);
        let _closed = self.close_rule(m, Rule::TokenList, diags);
    }

    fn rule_token_decl(&mut self, diags: &mut Vec<C::Diagnostic>) {
        let m = self.open_rule(diags);
        self.expect(Token::Id, "invalid syntax, expected: <identifier>", diags);
        let ghost head = *self;
        loop
            invariant
                self.fe_ok(),
                old(self).grew(head),
                head.grew(*self),
                self.load() <= head.load(),
                head.load() <= old(self).load() + 1,
                old(self).load() + 0 <= load_limit(),
                old(self).current == Token::Id ==> old(self).pos < head.pos && head.load()
                    <= old(self).load() - 2,
                m < self.tree_model().nodes.len(),
                self.tree_model().nodes[m as int] is Rule,
                old(self).kept(*self),
                1 <= self.tree_model().non_skip_len,
            decreases self.tokens@.len() - self.pos,
        {
            match self.current {
                Token::Equal => {
                    self.expect(Token::Equal, "invalid syntax, expected: '='", diags);
                    self.expect(Token::Str, "invalid syntax, expected: <string literal>", diags);
                    break;
                },
                Token::Id | Token::Semi => break,
                Token::EOF | Token::Part | Token::Right | Token::Skip | Token::Start | Token::Token => {
                    self.report("invalid syntax, expected one of: '=', <identifier>, ';'", diags);
                    break;
                },
                _ => {
                    self.recover("invalid syntax, expected one of: '=', <identifier>, ';'", diags);
                },
            }
        }
        let _closed = self.close_rule(m, Rule::TokenDecl, diags);
    }

    fn rule_rule_decl(&mut self, diags: &mut Vec<C::Diagnostic>) {
        let m = self.open_rule(diags);
        self.expect(Token::Id, "invalid syntax, expected: <identifier>", diags);
        let ghost head = *self;
        loop
            invariant
                self.fe_ok(),
                old(self).grew(head),
                head.grew(*self),
                self.load() <= head.load(),
                head.load() <= old(self).load() + 1,
                old(self).load() + 1 <= load_limit(),
                old(self).current == Token::Id ==> old(self).pos < head.pos && head.load()
                    <= old(self).load() - 2,
                m < self.tree_model().nodes.len(),
                self.tree_model().nodes[m as int] is Rule,
                old(self).kept(*self),
                1 <= self.tree_model().non_skip_len,
            decreases self.tokens@.len() - self.pos,
        {
            match self.current {
                Token::Hat => {
                    self.expect(Token::Hat, "invalid syntax, expected: '^'", diags);
                    break;
                },
                Token::Colon => break,
                Token::EOF | Token::Id | Token::Part | Token::Right | Token::Skip | Token::Start
                | Token::Token => {
                    self.report("invalid syntax, expected one of: ':', '^'", diags);
                    break;
                },
                _ => {
                    self.recover("invalid syntax, expected one of: ':', '^'", diags);
                },
            }
        }
        self.expect(Token::Colon, "invalid syntax, expected: ':'", diags);
        let ghost body = *self;
        loop
            invariant
                self.fe_ok(),
                old(self).grew(body),
                body.grew(*self),
                self.load() <= body.load(),
                body.load() <= old(self).load() + 1,
                old(self).load() + 1 <= load_limit(),
                old(self).current == Token::Id ==> old(self).pos < body.pos && body.load()
                    <= old(self).load() - 2,
                m < self.tree_model().nodes.len(),
                self.tree_model().nodes[m as int] is Rule,
                old(self).kept(*self),
                1 <= self.tree_model().non_skip_len,
            decreases self.tokens@.len() - self.pos,
        {
            match self.current {
                Token::Action | Token::And | Token::Assertion | Token::Hat | Token::Id | Token::LBrak
                | Token::LPar | Token::NodeCreation | Token::NodeMarker | Token::NodeRename
                | Token::Predicate | Token::Str | Token::Tilde => {
                    self.rule_regex(diags);
                    break;
                },
                Token::Semi => break,
                Token::EOF | Token::Part | Token::Right | Token::Skip | Token::Start | Token::Token => {
                    self.report(
                        "invalid syntax, expected one of: <semantic action>, '&', <semantic assertion>, '^', <identifier>, '[', '(', <node creation>, <node marker>, <node rename>, <semantic predicate>, ';', <string literal>, '~'",
                        diags,
                    );
                    break;
                },
                _ => {
                    self.recover(
                        "invalid syntax, expected one of: <semantic action>, '&', <semantic assertion>, '^', <identifier>, '[', '(', <node creation>, <node marker>, <node rename>, <semantic predicate>, ';', <string literal>, '~'",
                        diags,
                    );
                },
            }
        }
        self.expect(Token::Semi, "invalid syntax, expected: ';'", diags);
        let _closed = self.close_rule(m, Rule::RuleDecl, diags);
    }

    fn rule_regex(&mut self, diags: &mut Vec<C::Diagnostic>)
        decreases old(self).tokens@.len() - old(self).pos, 5nat,
    {
        self.rule_alternation(diags);
    }

    fn rule_alternation(&mut self, diags: &mut Vec<C::Diagnostic>)
        decreases old(self).tokens@.len() - old(self).pos, 4nat,
    {
        let start = self.mark_here(diags);
        let ghost marked = *self;
        self.rule_ordered_choice(diags);
        let ghost head = *self;
        loop
            invariant_except_break
                *self == head,
            invariant
                ends_choice(head.current),
                self.fe_ok(),
                old(self).grew(head),
                head.grew(*self),
                self.load() <= head.load(),
                head.load() <= old(self).load(),
                old(self).load() <= load_limit(),
                first_regex(old(self).current) ==> old(self).pos < head.pos && head.load() <= old(self).load() - 2,
                start <= self.tree_model().nodes.len(),
                start >= old(self).tree_model().nodes.len(),
                start == old(self).entry(),
                first_regex(old(self).current) ==> atom_opened(self.tree_model().nodes, start as int),
                first_regex(old(self).current) ==> start < self.tree_model().nodes.len() && (
                self.tree_model().nodes[start as int] matches NodeView::Rule(k, _) && regex_kind(k)),
                old(self).kept(*self),
                ends_from(head.ends@, self.ends@, old(self).pos + 1),
        ensures
                ends_regex(self.current),
                head.current == Token::Or ==> start < self.tree_model().nodes.len() && rule_of(
                    self.tree_model().nodes[start as int],
                    Rule::Alternation,
                ),
                head.current != Token::Or ==> self.tree_model() == head.tree_model(),
            decreases self.tokens@.len() - self.pos,
        {
            match self.current {
                Token::Or => {
                    self.expect(Token::Or, "invalid syntax, expected: '|'", diags);
                    let ghost before = *self;
                    self.rule_ordered_choice(diags);
                    proof {
                        lemma_ends_from_trans(head.ends@, before.ends@, self.ends@, old(self).pos + 1, before.pos as int);
                    }
                    let ghost inner = *self;
                    loop
                        invariant
                            self.fe_ok(),
                            old(self).grew(head),
                            head.grew(inner),
                            inner.grew(*self),
                            self.load() <= inner.load(),
                            inner.load() + 3 <= head.load(),
                            head.load() <= old(self).load(),
                            old(self).load() <= load_limit(),
                            first_regex(old(self).current) ==> old(self).pos < head.pos && head.load()
                                <= old(self).load() - 2,
                            start <= self.tree_model().nodes.len(),
                            start >= old(self).tree_model().nodes.len(),
                            start == old(self).entry(),
                            first_regex(old(self).current) ==> atom_opened(self.tree_model().nodes, start as int),
                            first_regex(old(self).current) ==> start < self.tree_model().nodes.len() && (
                            self.tree_model().nodes[start as int] matches NodeView::Rule(k, _) && regex_kind(k)),
                            old(self).kept(*self),
                            ends_from(head.ends@, self.ends@, old(self).pos + 1),
                    ensures
                            ends_regex(self.current),
                        decreases self.tokens@.len() - self.pos,
                    {
                        match self.current {
                            Token::Or => {
                                self.expect(Token::Or, "invalid syntax, expected: '|'", diags);
                                let ghost before = *self;
                                self.rule_ordered_choice(diags);
                                proof {
                                    lemma_ends_from_trans(head.ends@, before.ends@, self.ends@, old(self).pos + 1, before.pos as int);
                                }
                            },
                            Token::RBrak | Token::RPar | Token::Semi => break,
                            Token::EOF | Token::Id | Token::Part | Token::Right | Token::Skip
                            | Token::Start | Token::Token => {
                                self.report("invalid syntax, expected one of: '|', ']', ')', ';'", diags);
                                break;
                            },
                            _ => {
                                self.recover("invalid syntax, expected one of: '|', ']', ')', ';'", diags);
                            },
                        }
                    }
                    let open_node = self.open_rule_before(start, diags);
                    let _closed = self.close_rule(open_node, Rule::Alternation, diags);
                    break;
                },
                Token::RBrak | Token::RPar | Token::Semi => break,
                Token::EOF | Token::Id | Token::Part | Token::Right | Token::Skip | Token::Start
                | Token::Token => {
                    self.report("invalid syntax, expected one of: '|', ']', ')', ';'", diags);
                    break;
                },
                _ => {
                    self.recover("invalid syntax, expected one of: '|', ']', ')', ';'", diags);
                },
            }
        }
        proof {
            let e = self.ends@;
            let n0 = old(self).ends@.len();
            let h = head.ends@;
            lemma_ends_from_trans(old(self).ends@, h, e, old(self).pos as int, old(self).pos + 1);
            assert(old(self).entry() == marked.entry());
            assert forall|k: int|
                n0 <= k < e.len() && (#[trigger] e[k]).0 == Rule::OrderedChoice && e[k].1 == old(self).pos
                implies e[k] == h.last() by {
                if k < h.len() {
                    assert(e[k] == h[k]);
                }
            }
        }
    }

    fn rule_ordered_choice(&mut self, diags: &mut Vec<C::Diagnostic>)
        decreases old(self).tokens@.len() - old(self).pos, 3nat,
    {
        let start = self.mark_here(diags);
        let ghost marked = *self;
        self.rule_concat(diags);
        let ghost head = *self;
        proof {
            lemma_ends_from_last(old(self).ends@, head.ends@, old(self).pos as int);
        }
        loop
            invariant_except_break
                *self == head,
            invariant
                ends_concat(head.current),
                self.fe_ok(),
                old(self).grew(head),
                head.grew(*self),
                self.load() <= head.load(),
                head.load() <= old(self).load(),
                old(self).load() <= load_limit(),
                first_regex(old(self).current) ==> old(self).pos < head.pos && head.load() <= old(self).load() - 2,
                start <= self.tree_model().nodes.len(),
                start >= old(self).tree_model().nodes.len(),
                start == old(self).entry(),
                first_regex(old(self).current) ==> atom_opened(self.tree_model().nodes, start as int),
                first_regex(old(self).current) ==> start < self.tree_model().nodes.len() && (
                self.tree_model().nodes[start as int] matches NodeView::Rule(k, _) && choice_kind(k)),
                old(self).kept(*self),
                ends_from(head.ends@, self.ends@, old(self).pos + 1),
        ensures
                ends_choice(self.current),
                head.current == Token::Slash ==> start < self.tree_model().nodes.len() && rule_of(
                    self.tree_model().nodes[start as int],
                    Rule::OrderedChoice,
                ),
                head.current != Token::Slash ==> self.tree_model() == head.tree_model(),
            decreases self.tokens@.len() - self.pos,
        {
            match self.current {
                Token::Slash => {
                    self.expect(Token::Slash, "invalid syntax, expected: '/'", diags);
                    let ghost before = *self;
                    self.rule_concat(diags);
                    proof {
                        lemma_ends_from_last(before.ends@, self.ends@, before.pos as int);
                        lemma_ends_from_trans(head.ends@, before.ends@, self.ends@, old(self).pos + 1, before.pos as int);
                    }
                    let ghost inner = *self;
                    loop
                        invariant
                            self.fe_ok(),
                            old(self).grew(head),
                            head.grew(inner),
                            inner.grew(*self),
                            self.load() <= inner.load(),
                            inner.load() + 3 <= head.load(),
                            head.load() <= old(self).load(),
                            old(self).load() <= load_limit(),
                            first_regex(old(self).current) ==> old(self).pos < head.pos && head.load()
                                <= old(self).load() - 2,
                            start <= self.tree_model().nodes.len(),
                            start >= old(self).tree_model().nodes.len(),
                            start == old(self).entry(),
                            first_regex(old(self).current) ==> atom_opened(self.tree_model().nodes, start as int),
                            first_regex(old(self).current) ==> start < self.tree_model().nodes.len() && (
                            self.tree_model().nodes[start as int] matches NodeView::Rule(k, _) && choice_kind(k)),
                            old(self).kept(*self),
                            ends_from(head.ends@, self.ends@, old(self).pos + 1),
                    ensures
                            ends_choice(self.current),
                        decreases self.tokens@.len() - self.pos,
                    {
                        match self.current {
                            Token::Slash => {
                                self.expect(Token::Slash, "invalid syntax, expected: '/'", diags);
                                let ghost before = *self;
                                self.rule_concat(diags);
                                proof {
                                    lemma_ends_from_last(before.ends@, self.ends@, before.pos as int);
                                    lemma_ends_from_trans(head.ends@, before.ends@, self.ends@, old(self).pos + 1, before.pos as int);
                                }
                            },
                            Token::Or | Token::RBrak | Token::RPar | Token::Semi => break,
                            Token::EOF | Token::Id | Token::Part | Token::Right | Token::Skip
                            | Token::Start | Token::Token => {
                                self.report(
                                    "invalid syntax, expected one of: '|', ']', ')', ';', '/'",
                                    diags,
                                );
                                break;
                            },
                            _ => {
                                self.recover(
                                    "invalid syntax, expected one of: '|', ']', ')', ';', '/'",
                                    diags,
                                );
                            },
                        }
                    }
                    let open_node = self.open_rule_before(start, diags);
                    let _closed = self.close_rule(open_node, Rule::OrderedChoice, diags);
                    break;
                },
                Token::Or | Token::RBrak | Token::RPar | Token::Semi => break,
                Token::EOF | Token::Id | Token::Part | Token::Right | Token::Skip | Token::Start
                | Token::Token => {
                    self.report("invalid syntax, expected one of: '|', ']', ')', ';', '/'", diags);
                    break;
                },
                _ => {
                    self.recover("invalid syntax, expected one of: '|', ']', ')', ';', '/'", diags);
                },
            }
        }
        let ghost body_ends = self.ends@;
        self.ends = Ghost(
            self.ends@.push((Rule::OrderedChoice, old(self).pos as nat, self.current, old(self).entry_kind(*self))),
        );
        proof {
            let e = self.ends@;
            let n0 = old(self).ends@.len();
            let h = head.ends@;
            assert(e.drop_last() == body_ends);
            lemma_ends_from_trans(old(self).ends@, h, body_ends, old(self).pos as int, old(self).pos + 1);
            lemma_ends_from_last(old(self).ends@, e, old(self).pos as int);
            assert forall|k: int| n0 <= k < e.len() - 1 && (#[trigger] e[k]).1 == old(self).pos implies k
                == h.len() - 1 by {
                assert(e[k] == body_ends[k]);
                if k < h.len() - 1 {
                    assert(body_ends[k] == h[k]);
                    assert(h[k] == h.drop_last()[k]);
                } else if k >= h.len() {
                    assert(body_ends[k].1 >= old(self).pos + 1);
                }
            }
            assert(e[h.len() - 1] == h.last()) by {
                assert(e[h.len() - 1] == body_ends[h.len() - 1]);
            }
            assert(old(self).entry() == marked.entry());
        }
    }

    fn rule_concat(&mut self, diags: &mut Vec<C::Diagnostic>)
        decreases old(self).tokens@.len() - old(self).pos, 2nat,
    {
        let start = self.mark_here(diags);
        self.rule_postfix(diags);
        let ghost head = *self;
        assert(ends_from(old(self).ends@, self.ends@, old(self).pos + 1));
        loop
            invariant
                self.fe_ok(),
                old(self).grew(head),
                head.grew(*self),
                self.load() <= head.load(),
                head.load() <= old(self).load(),
                old(self).load() <= load_limit(),
                first_regex(old(self).current) ==> old(self).pos < head.pos && head.load() <= old(self).load() - 2,
                start <= self.tree_model().nodes.len(),
                start >= old(self).tree_model().nodes.len(),
                start == old(self).entry(),
                first_regex(old(self).current) ==> atom_opened(self.tree_model().nodes, start as int),
                first_regex(old(self).current) ==> start < self.tree_model().nodes.len() && (
                self.tree_model().nodes[start as int] matches NodeView::Rule(k, _) && concat_kind(k)),
                old(self).kept(*self),
                ends_from(old(self).ends@, self.ends@, old(self).pos + 1),
        ensures
                ends_concat(self.current),
            decreases self.tokens@.len() - self.pos,
        {
            match self.current {
                Token::Action | Token::And | Token::Assertion | Token::Hat | Token::Id | Token::LBrak
                | Token::LPar | Token::NodeCreation | Token::NodeMarker | Token::NodeRename
                | Token::Predicate | Token::Str | Token::Tilde => {
                    let ghost before = *self;
                    self.rule_postfix(diags);
                    proof {
                        lemma_ends_from_trans(
                            old(self).ends@,
                            before.ends@,
                            self.ends@,
                            old(self).pos + 1,
                            before.pos + 1,
                        );
                    }
                    let ghost inner = *self;
                    loop
                        invariant
                            self.fe_ok(),
                            old(self).grew(head),
                            head.grew(inner),
                            inner.grew(*self),
                            self.load() <= inner.load(),
                            inner.load() + 2 <= head.load(),
                            head.load() <= old(self).load(),
                            old(self).load() <= load_limit(),
                            first_regex(old(self).current) ==> old(self).pos < head.pos && head.load()
                                <= old(self).load() - 2,
                            start <= self.tree_model().nodes.len(),
                            start >= old(self).tree_model().nodes.len(),
                            start == old(self).entry(),
                            first_regex(old(self).current) ==> atom_opened(self.tree_model().nodes, start as int),
                            first_regex(old(self).current) ==> start < self.tree_model().nodes.len() && (
                            self.tree_model().nodes[start as int] matches NodeView::Rule(k, _) && concat_kind(k)),
                            old(self).kept(*self),
                            ends_from(old(self).ends@, self.ends@, old(self).pos + 1),
                    ensures
                            ends_concat(self.current),
                        decreases self.tokens@.len() - self.pos,
                    {
                        match self.current {
                            Token::Action | Token::And | Token::Assertion | Token::Hat | Token::Id
                            | Token::LBrak | Token::LPar | Token::NodeCreation | Token::NodeMarker
                            | Token::NodeRename | Token::Predicate | Token::Str | Token::Tilde => {
                                let ghost before = *self;
                                self.rule_postfix(diags);
                                proof {
                                    lemma_ends_from_trans(
                                        old(self).ends@,
                                        before.ends@,
                                        self.ends@,
                                        old(self).pos + 1,
                                        before.pos + 1,
                                    );
                                }
                            },
                            Token::Or | Token::RBrak | Token::RPar | Token::Semi | Token::Slash => break,
                            Token::EOF | Token::Part | Token::Right | Token::Skip | Token::Start
                            | Token::Token => {
                                self.report(
                                    "invalid syntax, expected one of: <semantic action>, '&', <semantic assertion>, '^', <identifier>, '[', '(', <node creation>, <node marker>, <node rename>, '|', <semantic predicate>, ']', ')', ';', '/', <string literal>, '~'",
                                    diags,
                                );
                                break;
                            },
                            _ => {
                                self.recover(
                                    "invalid syntax, expected one of: <semantic action>, '&', <semantic assertion>, '^', <identifier>, '[', '(', <node creation>, <node marker>, <node rename>, '|', <semantic predicate>, ']', ')', ';', '/', <string literal>, '~'",
                                    diags,
                                );
                            },
                        }
                    }
                    let open_node = self.open_rule_before(start, diags);
                    let _closed = self.close_rule(open_node, Rule::Concat, diags);
                    break;
                },
                Token::Or | Token::RBrak | Token::RPar | Token::Semi | Token::Slash => {
                    break;
                },
                Token::EOF | Token::Part | Token::Right | Token::Skip | Token::Start | Token::Token => {
                    self.report(
                        "invalid syntax, expected one of: <semantic action>, '&', <semantic assertion>, '^', <identifier>, '[', '(', <node creation>, <node marker>, <node rename>, '|', <semantic predicate>, ']', ')', ';', '/', <string literal>, '~'",
                        diags,
                    );
                    break;
                },
                _ => {
                    self.recover(
                        "invalid syntax, expected one of: <semantic action>, '&', <semantic assertion>, '^', <identifier>, '[', '(', <node creation>, <node marker>, <node rename>, '|', <semantic predicate>, ']', ')', ';', '/', <string literal>, '~'",
                        diags,
                    );
                },
            }
        }
        let ghost body_ends = self.ends@;
        self.ends = Ghost(
            self.ends@.push((Rule::Concat, old(self).pos as nat, self.current, old(self).entry_kind(*self))),
        );
        assert(self.ends@.drop_last() == body_ends);
    }

    fn rule_postfix(&mut self, diags: &mut Vec<C::Diagnostic>)
        decreases old(self).tokens@.len() - old(self).pos, 1nat,
    {
        let lhs = self.mark_here(diags);
        self.postfix_rec(diags, lhs);
    }
}

} // verus!
