use crate::element::{Element, Node};
use crate::engine::{take_all, Machine};
use crate::errors::Error;
use crate::machine::{current, evaluate, finish, opens_query, Outcome};
use crate::parser::{lemma_lex_takes, lex, lex_all, Token};
use crate::position::{has_path, node_at};
use crate::tokens::{lexemes, AxesName, Lexeme, ValidToken};
use crate::tree::ElementTree;
use vstd::prelude::*;

verus! {

/// One result of a query.
#[derive(Debug)]
pub enum ReturnEnum<'a> {
    /// A node of the tree.
    ElementNode(&'a Element),
    /// A namespace prefix.
    ElementName(String),
}

impl<'a> Clone for ReturnEnum<'a> {
    fn clone(&self) -> (copy: ReturnEnum<'a>)
        ensures
            match (*self, copy) {
                (ReturnEnum::ElementNode(mine), ReturnEnum::ElementNode(other)) => mine == other,
                (ReturnEnum::ElementName(mine), ReturnEnum::ElementName(other)) => mine@ == other@,
                _ => false,
            },
    {
        match self {
            ReturnEnum::ElementNode(element) => ReturnEnum::ElementNode(*element),
            ReturnEnum::ElementName(name) => ReturnEnum::ElementName(name.clone()),
        }
    }
}

/// The step that a token stands for: a shorthand symbol becomes its axis, any other token stays.
pub open spec fn canonical(token: Lexeme) -> Lexeme {
    match token {
        Lexeme::Period => Lexeme::Axes(AxesName::SelfAxis),
        Lexeme::AtSign => Lexeme::Axes(AxesName::Attribute),
        Lexeme::Parent => Lexeme::Axes(AxesName::Parent),
        Lexeme::DoubleForwardSlash => Lexeme::Axes(AxesName::DescendantOrSelf),
        Lexeme::ForwardSlash => Lexeme::Axes(AxesName::Child),
        other => other,
    }
}

/// Whether a token is one of the shorthand symbols.
pub open spec fn is_shorthand(token: Lexeme) -> bool {
    token is Period || token is AtSign || token is Parent || token is DoubleForwardSlash
        || token is ForwardSlash
}

/// The step for a token is no shorthand symbol, and it is the token itself unless that is one.
pub proof fn lemma_canonical(token: Lexeme)
    ensures
        !is_shorthand(canonical(token)),
        !is_shorthand(token) ==> canonical(token) == token,
{
}

/// The steps of a path hold no shorthand symbol.
pub proof fn lemma_steps_hold_no_shorthand(path: Seq<char>)
    ensures
        forall|i: int| 0 <= i < steps_of(path).len() ==> !is_shorthand(#[trigger] steps_of(path)[i]),
{
    assert forall|i: int| 0 <= i < steps_of(path).len() implies !is_shorthand(
        #[trigger] steps_of(path)[i],
    ) by {
        lemma_canonical(lex_all(path).0[i]);
    }
}

/// The steps that a run of tokens stands for.
pub open spec fn canonical_all(tokens: Seq<Lexeme>) -> Seq<Lexeme> {
    tokens.map_values(|token: Lexeme| canonical(token))
}

/// The steps of a path, up to its end or to the first place where no lexical rule applies.
pub open spec fn steps_of(path: Seq<char>) -> Seq<Lexeme> {
    canonical_all(lex_all(path).0)
}

/// Whether `items` are what `outcome` describes on the tree under `root`:
/// for each place, in order, the node that stands there in the tree, or the one name.
pub open spec fn answers<'a>(root: Node, outcome: Outcome, items: Seq<ReturnEnum<'a>>) -> bool {
    match outcome {
        Outcome::Nodes(found) => items.len() == found.len() && forall|i: int|
            0 <= i < found.len() ==> match #[trigger] items[i] {
                ReturnEnum::ElementNode(element) => has_path(root, found[i]) && element@ == node_at(
                    root,
                    found[i],
                ),
                ReturnEnum::ElementName(_) => false,
            },
        Outcome::Name(prefix) => items.len() == 1 && match items[0] {
            ReturnEnum::ElementNode(_) => false,
            ReturnEnum::ElementName(name) => name@ == prefix,
        },
    }
}

/// What a query yields on a document. On a document without a root it fails.
pub open spec fn query(tree: ElementTree, steps: Seq<Lexeme>) -> Result<Outcome, Error> {
    match tree.root {
        Some(root) => evaluate(root@, steps),
        None => Err(Error::XPath),
    }
}

/// Turns the last state of an evaluation into the results of the query.
pub fn project<'a>(root: &'a Element, machine: Machine<'a>) -> (out: Result<
    Vec<ReturnEnum<'a>>,
    Error,
>)
    requires
        machine.sound(root@),
    ensures
        match out {
            Ok(items) => finish(root@, machine@) is Ok && answers(
                root@,
                finish(root@, machine@)->Ok_0,
                items@,
            ),
            Err(error) => finish(root@, machine@) == Err::<Outcome, Error>(error),
        },
{
    let mut items: Vec<ReturnEnum<'a>> = Vec::new();
    if machine.namespace {
        let count = machine.hits.len();
        if count == 0 {
            return Err(Error::XPath);
        }
        let last = &machine.hits[count - 1];
        assert(last.anchored(root@));
        assert(last.place() == current(machine@.results));
        match &last.node.namespace {
            Some(prefix) => {
                items.push(ReturnEnum::ElementName(prefix.clone()));
                Ok(items)
            },
            None => Err(Error::NoNamespace),
        }
    } else if machine.valid && !machine.bracket_open {
        let mut i: usize = 0;
        while i < machine.hits.len()
            invariant
                i <= machine.hits@.len(),
                machine.sound(root@),
                items@.len() == i,
                forall|j: int|
                    0 <= j < i ==> match #[trigger] items@[j] {
                        ReturnEnum::ElementNode(element) => has_path(
                            root@,
                            machine.hits@[j].place(),
                        ) && element@ == node_at(root@, machine.hits@[j].place()),
                        ReturnEnum::ElementName(_) => false,
                    },
            decreases machine.hits@.len() - i,
        {
            assert(machine.hits@[i as int].anchored(root@));
            items.push(ReturnEnum::ElementNode(machine.hits[i].node));
            i += 1;
        }
        Ok(items)
    } else {
        Err(Error::XPath)
    }
}

/// A query on a document: the document, the lexer on the path, the steps read so far,
/// and the lexical error, if reading met one.
pub struct Bridge {
    pub tree: ElementTree,
    pub token: Token,
    pub token_steps: Vec<ValidToken>,
    pub error: Option<Error>,
}

impl Bridge {
    /// A query on `tree` with the path `xpath`, of which nothing is read yet.
    pub fn new(tree: ElementTree, xpath: String) -> (bridge: Bridge)
        ensures
            bridge.tree == tree,
            bridge.token.path() == xpath@,
            bridge.token.cursor() == 0,
            bridge.token_steps@.len() == 0,
            bridge.error is None,
    {
        Bridge { tree, token: Token::new(xpath), token_steps: Vec::new(), error: None }
    }

    /// Appends the step that `token` stands for.
    pub fn expand_abbreviation(&mut self, token: ValidToken)
        ensures
            lexemes(final(self).token_steps@) == lexemes(old(self).token_steps@).push(
                canonical(token@),
            ),
            final(self).tree == old(self).tree,
            final(self).token == old(self).token,
            final(self).error == old(self).error,
    {
        let ghost before = self.token_steps@;
        let step = match token {
            ValidToken::Period => ValidToken::Axes(AxesName::SelfAxis),
            ValidToken::AtSign => ValidToken::Axes(AxesName::Attribute),
            ValidToken::Parent => ValidToken::Axes(AxesName::Parent),
            ValidToken::DoubleForwardSlash => ValidToken::Axes(AxesName::DescendantOrSelf),
            ValidToken::ForwardSlash => ValidToken::Axes(AxesName::Child),
            other => other,
        };
        self.token_steps.push(step);
        assert(lexemes(self.token_steps@) =~= lexemes(before).push(canonical(token@)));
    }

    /// Reads the rest of the path and appends its steps. Where no lexical
    /// rule applies, reading stops there and the error is kept.
    pub fn token_step_filler(&mut self)
        ensures
            lexemes(final(self).token_steps@) == lexemes(old(self).token_steps@) + steps_of(
                old(self).token.remaining(),
            ),
            final(self).error == if lex_all(old(self).token.remaining()).1 {
                old(self).error
            } else {
                Some(Error::Token)
            },
            final(self).tree == old(self).tree,
            final(self).token.path() == old(self).token.path(),
            final(self).token.cursor() == old(self).token.path().len(),
    {
        let ghost first = self.token.remaining();
        let ghost given = lexemes(self.token_steps@);
        assert(given + steps_of(first) =~= lexemes(self.token_steps@) + steps_of(
            self.token.remaining(),
        ));
        loop
            invariant_except_break
                self.error == old(self).error,
                given + steps_of(first) == lexemes(self.token_steps@) + steps_of(
                    self.token.remaining(),
                ),
                lex_all(first).1 == lex_all(self.token.remaining()).1,
            invariant
                self.tree == old(self).tree,
                self.token.path() == old(self).token.path(),
                first == old(self).token.remaining(),
                given == lexemes(old(self).token_steps@),
            ensures
                lexemes(self.token_steps@) == given + steps_of(first),
                self.error == if lex_all(first).1 {
                    old(self).error
                } else {
                    Some(Error::Token)
                },
                self.tree == old(self).tree,
                self.token.path() == old(self).token.path(),
                self.token.cursor() == self.token.path().len(),
            decreases self.token.path().len() - self.token.cursor(),
        {
            let ghost rest = self.token.remaining();
            let ghost steps = lexemes(self.token_steps@);
            if self.token.is_end() {
                assert(steps_of(rest) =~= Seq::<Lexeme>::empty());
                assert(steps + steps_of(rest) =~= steps);
                break;
            }
            proof {
                lemma_lex_takes(rest);
            }
            match self.token.next() {
                Some(token) => {
                    proof {
                        let taken = match lex(rest) {
                            Some((_, size)) => size,
                            None => 0,
                        };
                        assert(self.token.remaining() =~= rest.skip(taken as int));
                        let more = lex_all(rest.skip(taken as int)).0;
                        assert(lex_all(rest).0 == seq![token@] + more);
                        assert(steps_of(rest) =~= seq![canonical(token@)] + canonical_all(more));
                        assert(steps + steps_of(rest) =~= steps.push(canonical(token@))
                            + steps_of(self.token.remaining()));
                    }
                    self.expand_abbreviation(token);
                },
                None => {
                    assert(steps_of(rest) =~= Seq::<Lexeme>::empty());
                    assert(steps + steps_of(rest) =~= steps);
                    self.error = Some(Error::Token);
                    break;
                },
            }
        }
    }

    /// Runs the steps read so far on the document. A lexical error kept in
    /// `error` is not looked at: the steps before it are run as they are.
    pub fn produce(&self) -> (out: Result<Vec<ReturnEnum<'_>>, Error>)
        ensures
            match out {
                Ok(items) => self.tree.root is Some && query(
                    self.tree,
                    lexemes(self.token_steps@),
                ) is Ok && answers(
                    self.tree.root->0@,
                    query(self.tree, lexemes(self.token_steps@))->Ok_0,
                    items@,
                ),
                Err(error) => query(self.tree, lexemes(self.token_steps@)) == Err::<
                    Outcome,
                    Error,
                >(error),
            },
    {
        let root = match &self.tree.root {
            Some(root) => root,
            None => {
                return Err(Error::XPath);
            },
        };
        if self.token_steps.len() < 2 {
            return Err(Error::XPath);
        }
        let opens = match &self.token_steps[0] {
            ValidToken::Axes(axis) => *axis == AxesName::Child || *axis
                == AxesName::DescendantOrSelf,
            _ => false,
        };
        assert(opens == opens_query(lexemes(self.token_steps@)[0]));
        if !opens {
            return Err(Error::XPath);
        }
        match take_all(root, Machine::start(), &self.token_steps) {
            Ok(machine) => project(root, machine),
            Err(error) => Err(error),
        }
    }
}

} // verus!
