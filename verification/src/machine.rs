use crate::element::Node;
use crate::errors::Error;
use crate::position::{node_at, tag_at, Path};
use crate::search::{
    ancestors, children_of, children_tagged, descent, first_tagged, first_tagged_in, gather,
};
use crate::tokens::{AxesName, Lexeme};
use vstd::prelude::*;

verus! {

/// What the next literal of a path is taken for.
#[derive(Debug, Clone, Copy, PartialEq, Eq, Structural)]
pub enum Pending {
    /// Nothing awaits a literal: one that comes is passed over.
    Idle,
    /// A tag to look for among children.
    Child,
    /// A tag to look for among the children of the current node.
    SelfAxis,
    /// A tag whose first bearer's parent is wanted.
    Parent,
    /// A tag whose first bearer's ancestors are wanted.
    Ancestor,
    /// A tag whose first bearer is wanted together with its ancestors.
    AncestorOrSelf,
    /// A tag to descend for, whether or not the start carries it.
    Descendant,
    /// A tag to descend for unless the start carries it.
    DescendantOrSelf,
    /// The name of an attribute.
    Attribute,
    /// The value that the named attribute must have.
    Value,
    /// A tag after which siblings are wanted.
    FollowingSibling,
    /// A tag before which siblings are wanted.
    PrecedingSibling,
}

/// The state of an evaluation between two steps.
pub ghost struct State {
    /// What the next literal is taken for.
    pub pending: Pending,
    /// The attribute name taken last.
    pub attribute: Seq<char>,
    /// Whether a bracket is open.
    pub bracket_open: bool,
    /// Whether the steps so far make a complete query.
    pub valid: bool,
    /// Whether the query asks for a namespace.
    pub namespace: bool,
    /// The places found so far, in order.
    pub results: Seq<Path>,
}

/// What a query yields.
pub ghost enum Outcome {
    /// The places of the nodes found, in order.
    Nodes(Seq<Path>),
    /// The namespace prefix of the node found.
    Name(Seq<char>),
}

/// The state before the first step.
pub open spec fn initial() -> State {
    State {
        pending: Pending::Idle,
        attribute: Seq::empty(),
        bracket_open: false,
        valid: false,
        namespace: false,
        results: Seq::empty(),
    }
}

/// The place of the root.
pub open spec fn root_place() -> Path {
    Seq::empty()
}

/// The node that a step starts from: the last place found.
pub open spec fn current(results: Seq<Path>) -> Path
    recommends
        results.len() > 0,
{
    results.last()
}

/// Whether the node at `place` has the attribute `name` with the value `value`.
pub open spec fn has_attribute(root: Node, place: Path, name: Seq<char>, value: Seq<char>) -> bool {
    node_at(root, place).attributes.contains_key(name) && node_at(root, place).attributes[name]
        == value
}

/// The first place of a run whose node has the attribute `name` with the value `value`.
pub open spec fn first_with_attribute(
    root: Node,
    run: Seq<Path>,
    name: Seq<char>,
    value: Seq<char>,
) -> Option<Path>
    decreases run.len(),
{
    if run.len() == 0 {
        None
    } else {
        match first_with_attribute(root, run.drop_last(), name, value) {
            Some(place) => Some(place),
            None => if has_attribute(root, run.last(), name, value) {
                Some(run.last())
            } else {
                None
            },
        }
    }
}

/// A run's first place with the attribute is that of any prefix which has one.
pub proof fn lemma_first_with_attribute_stays(
    root: Node,
    run: Seq<Path>,
    name: Seq<char>,
    value: Seq<char>,
    n: int,
)
    requires
        0 <= n <= run.len(),
        first_with_attribute(root, run.take(n), name, value) is Some,
    ensures
        first_with_attribute(root, run, name, value) == first_with_attribute(
            root,
            run.take(n),
            name,
            value,
        ),
    decreases run.len() - n,
{
    if n < run.len() {
        assert(run.take(n + 1).drop_last() =~= run.take(n));
        lemma_first_with_attribute_stays(root, run, name, value, n + 1);
    } else {
        assert(run.take(n) =~= run);
    }
}

/// The child axis. With nothing found yet, the root if it carries `tag`;
/// else the children that carry `tag` of each place found, place by place.
pub open spec fn child_step(root: Node, results: Seq<Path>, tag: Seq<char>) -> Seq<Path> {
    if results.len() == 0 {
        if root.tag == tag {
            seq![root_place()]
        } else {
            Seq::empty()
        }
    } else {
        gather(results, children_tagged(root, tag))
    }
}

/// The self axis. With nothing found yet, the root; else the first child of
/// the current node that carries `tag`, and a failure if none does.
pub open spec fn self_step(root: Node, results: Seq<Path>, tag: Seq<char>) -> Result<Seq<Path>, Error> {
    if results.len() == 0 {
        Ok(seq![root_place()])
    } else {
        match first_tagged_in(root, children_of(root, current(results)), tag) {
            Some(place) => Ok(seq![place]),
            None => Err(Error::XPath),
        }
    }
}

/// The parent axis: the parent of the first bearer of `tag` below the root
/// in breadth-first order, or nothing.
pub open spec fn parent_step(root: Node, tag: Seq<char>) -> Seq<Path> {
    match first_tagged(root, tag) {
        Some(place) => seq![place.drop_last()],
        None => Seq::empty(),
    }
}

/// The ancestor axis: the ancestors of the first bearer of `tag` below the
/// root in breadth-first order, the nearest first and the root last, or nothing.
pub open spec fn ancestor_step(root: Node, tag: Seq<char>) -> Seq<Path> {
    match first_tagged(root, tag) {
        Some(place) => ancestors(place),
        None => Seq::empty(),
    }
}

/// The ancestor-or-self axis: the first bearer of `tag` below the root in
/// breadth-first order, then its ancestors; a failure if there is no bearer.
pub open spec fn ancestor_or_self_step(root: Node, tag: Seq<char>) -> Result<Seq<Path>, Error> {
    match first_tagged(root, tag) {
        Some(place) => Ok(seq![place] + ancestors(place)),
        None => Err(Error::XPath),
    }
}

/// Where a descent starts: at the current node, or at the root with nothing found yet.
pub open spec fn descent_start(results: Seq<Path>) -> Path {
    if results.len() == 0 {
        root_place()
    } else {
        current(results)
    }
}

/// What a descent for `tag` adds: the start if it carries `tag`, then what
/// the descent below it finds. With `always` unset the descent is left out
/// where the start carries `tag`.
pub open spec fn descent_found(root: Node, results: Seq<Path>, tag: Seq<char>, always: bool) -> Seq<
    Path,
> {
    let start = descent_start(results);
    if tag_at(root, start) == tag {
        if always {
            seq![start] + descent(root, start, tag)
        } else {
            seq![start]
        }
    } else {
        descent(root, start, tag)
    }
}

/// The two descendant axes: the places found before but the current one, then what the descent adds.
pub open spec fn descent_step(root: Node, results: Seq<Path>, tag: Seq<char>, always: bool) -> Seq<
    Path,
> {
    let kept = if results.len() == 0 {
        results
    } else {
        results.drop_last()
    };
    kept + descent_found(root, results, tag, always)
}

/// An attribute test: the first place found whose node has the attribute
/// `name` with the value `value`, or nothing.
pub open spec fn value_step(root: Node, results: Seq<Path>, name: Seq<char>, value: Seq<char>) -> Seq<
    Path,
> {
    match first_with_attribute(root, results, name, value) {
        Some(place) => seq![place],
        None => Seq::empty(),
    }
}

/// The two sibling axes. The children of the current node's parent: those
/// after the first that carries `tag` (none if no child carries it), or those
/// before it (all if no child carries it). A failure where nothing is found
/// yet or the current node is the root.
pub open spec fn sibling_step(root: Node, results: Seq<Path>, tag: Seq<char>, following: bool) -> Result<
    Seq<Path>,
    Error,
> {
    if results.len() == 0 || current(results).len() == 0 {
        Err(Error::XPath)
    } else {
        let family = children_of(root, current(results).drop_last());
        match first_tagged_in(root, family, tag) {
            Some(place) => if following {
                Ok(family.skip(place.last() + 1))
            } else {
                Ok(family.take(place.last()))
            },
            None => if following {
                Ok(Seq::empty())
            } else {
                Ok(family)
            },
        }
    }
}

/// The state after a literal that resolves an axis to `results`.
pub open spec fn resolved(state: State, results: Seq<Path>) -> State {
    State { pending: Pending::Idle, valid: true, results, ..state }
}

/// The step for a literal: what it does depends on what is pending.
pub open spec fn literal_step(root: Node, state: State, text: Seq<char>) -> Result<State, Error> {
    match state.pending {
        Pending::Idle => Ok(state),
        Pending::Child => Ok(resolved(state, child_step(root, state.results, text))),
        Pending::SelfAxis => match self_step(root, state.results, text) {
            Ok(results) => Ok(resolved(state, results)),
            Err(error) => Err(error),
        },
        Pending::Parent => Ok(resolved(state, parent_step(root, text))),
        Pending::Ancestor => Ok(resolved(state, ancestor_step(root, text))),
        Pending::AncestorOrSelf => match ancestor_or_self_step(root, text) {
            Ok(results) => Ok(resolved(state, results)),
            Err(error) => Err(error),
        },
        Pending::Descendant => Ok(
            State {
                pending: Pending::Idle,
                valid: state.valid || descent_found(root, state.results, text, true).len() > 0,
                results: descent_step(root, state.results, text, true),
                ..state
            },
        ),
        Pending::DescendantOrSelf => Ok(
            State {
                pending: Pending::Idle,
                valid: state.valid || descent_found(root, state.results, text, false).len() > 0,
                results: descent_step(root, state.results, text, false),
                ..state
            },
        ),
        Pending::Attribute => Ok(State { attribute: text, ..state }),
        Pending::Value => Ok(
            State {
                pending: Pending::Idle,
                valid: state.valid || first_with_attribute(
                    root,
                    state.results,
                    state.attribute,
                    text,
                ) is Some,
                results: value_step(root, state.results, state.attribute, text),
                ..state
            },
        ),
        Pending::FollowingSibling => match sibling_step(root, state.results, text, true) {
            Ok(results) => Ok(resolved(state, results)),
            Err(error) => Err(error),
        },
        Pending::PrecedingSibling => match sibling_step(root, state.results, text, false) {
            Ok(results) => Ok(resolved(state, results)),
            Err(error) => Err(error),
        },
    }
}

/// The step for a number: inside a bracket, the place found at that
/// position, counted from one; a failure outside a bracket or where the
/// number is zero or larger than the number of places found.
pub open spec fn number_step(state: State, value: u64) -> Result<State, Error> {
    if state.bracket_open && 1 <= value <= state.results.len() {
        Ok(State { results: seq![state.results[value - 1]], ..state })
    } else {
        Err(Error::XPath)
    }
}

/// Whether a descendant axis is pending.
pub open spec fn descending(pending: Pending) -> bool {
    pending == Pending::Descendant || pending == Pending::DescendantOrSelf
}

/// The step for an axis: it becomes what is pending.
pub open spec fn axis_step(state: State, axis: AxesName) -> Result<State, Error> {
    match axis {
        AxesName::Ancestor => if descending(state.pending) {
            Ok(State { pending: Pending::Ancestor, valid: false, ..state })
        } else {
            Err(Error::XPath)
        },
        AxesName::AncestorOrSelf => if descending(state.pending) {
            Ok(State { pending: Pending::AncestorOrSelf, valid: false, ..state })
        } else {
            Err(Error::XPath)
        },
        AxesName::Attribute => Ok(
            State { pending: Pending::Attribute, attribute: Seq::empty(), valid: false, ..state },
        ),
        AxesName::Child => Ok(State { pending: Pending::Child, valid: false, ..state }),
        AxesName::Descendant => Ok(State { pending: Pending::Descendant, ..state }),
        AxesName::DescendantOrSelf => Ok(
            State { pending: Pending::DescendantOrSelf, valid: false, ..state },
        ),
        AxesName::Following => Ok(state),
        AxesName::FollowingSibling => Ok(
            State { pending: Pending::FollowingSibling, valid: false, ..state },
        ),
        AxesName::Namespace => Ok(
            State {
                pending: if state.pending == Pending::Child {
                    Pending::Idle
                } else {
                    state.pending
                },
                namespace: true,
                valid: true,
                ..state
            },
        ),
        AxesName::Parent => Ok(State { pending: Pending::Parent, ..state }),
        AxesName::Preceding => Ok(state),
        AxesName::PrecedingSibling => Ok(
            State { pending: Pending::PrecedingSibling, valid: false, ..state },
        ),
        AxesName::SelfAxis => Ok(State { pending: Pending::SelfAxis, valid: true, ..state }),
    }
}

/// One step of an evaluation: the state after `token`, or the failure that ends the query.
pub open spec fn step(root: Node, state: State, token: Lexeme) -> Result<State, Error> {
    match token {
        Lexeme::Equal => if state.pending == Pending::Attribute && state.attribute.len() > 0 {
            Ok(State { pending: Pending::Value, ..state })
        } else {
            Err(Error::XPath)
        },
        Lexeme::AtSign => if state.bracket_open {
            Ok(state)
        } else {
            Err(Error::XPath)
        },
        Lexeme::LeftBracket => Ok(State { bracket_open: true, ..state }),
        Lexeme::RightBracket => if state.bracket_open {
            Ok(State { bracket_open: false, ..state })
        } else {
            Err(Error::XPathOpenBracket)
        },
        Lexeme::Literal(text) => literal_step(root, state, text),
        Lexeme::Number(value) => number_step(state, value),
        Lexeme::Axes(axis) => axis_step(state, axis),
        _ => Ok(state),
    }
}

/// The steps of a run of tokens, one after the other, up to the first failure.
pub open spec fn run(root: Node, state: State, tokens: Seq<Lexeme>) -> Result<State, Error>
    decreases tokens.len(),
{
    if tokens.len() == 0 {
        Ok(state)
    } else {
        match step(root, state, tokens.first()) {
            Ok(next) => run(root, next, tokens.drop_first()),
            Err(error) => Err(error),
        }
    }
}

/// What the last state yields. A query for a namespace yields the prefix of
/// the current node, whatever else holds of the state; any other yields the
/// places found if the steps make a complete query and no bracket is open.
pub open spec fn finish(root: Node, state: State) -> Result<Outcome, Error> {
    if state.namespace {
        if state.results.len() == 0 {
            Err(Error::XPath)
        } else {
            match node_at(root, current(state.results)).namespace {
                Some(prefix) => Ok(Outcome::Name(prefix)),
                None => Err(Error::NoNamespace),
            }
        }
    } else if state.valid && !state.bracket_open {
        Ok(Outcome::Nodes(state.results))
    } else {
        Err(Error::XPath)
    }
}

/// Whether a token may open a query.
pub open spec fn opens_query(token: Lexeme) -> bool {
    token == Lexeme::Axes(AxesName::Child) || token == Lexeme::Axes(AxesName::DescendantOrSelf)
}

/// What a query yields on the tree under `root`. A query of fewer than two
/// steps fails, and so does one that does not open with the child axis or the
/// descendant-or-self axis.
pub open spec fn evaluate(root: Node, tokens: Seq<Lexeme>) -> Result<Outcome, Error> {
    if tokens.len() < 2 || !opens_query(tokens[0]) {
        Err(Error::XPath)
    } else {
        match run(root, initial(), tokens) {
            Ok(state) => finish(root, state),
            Err(error) => Err(error),
        }
    }
}

/// Whether a bracket is open after a run of tokens, if one was `open` before
/// it: the last bracket of the run decides.
pub open spec fn bracket_after(open: bool, tokens: Seq<Lexeme>) -> bool
    decreases tokens.len(),
{
    if tokens.len() == 0 {
        open
    } else {
        let next = match tokens.first() {
            Lexeme::LeftBracket => true,
            Lexeme::RightBracket => false,
            _ => open,
        };
        bracket_after(next, tokens.drop_first())
    }
}

/// Whether the evaluation of a query comes as far as its step `k`: the query
/// has two steps or more, opens with an axis that may open it, and none of
/// the steps before `k` fails.
pub open spec fn reaches(root: Node, tokens: Seq<Lexeme>, k: int) -> bool {
    0 <= k < tokens.len() && tokens.len() >= 2 && opens_query(tokens[0]) && run(
        root,
        initial(),
        tokens.take(k),
    ) is Ok
}

/// A query that does not open with the child axis or the descendant-or-self axis fails as an incorrect path.
pub proof fn lemma_leading_axis(root: Node, tokens: Seq<Lexeme>)
    requires
        tokens.len() > 0,
        !opens_query(tokens[0]),
    ensures
        evaluate(root, tokens) == Err::<Outcome, Error>(Error::XPath),
{
}

/// A query of one step fails as an incorrect path.
pub proof fn lemma_single_step(root: Node, tokens: Seq<Lexeme>)
    requires
        tokens.len() == 1,
    ensures
        evaluate(root, tokens) == Err::<Outcome, Error>(Error::XPath),
{
}

/// The steps of two runs one after the other: those of the first, then those of the second.
pub proof fn lemma_run_add(root: Node, state: State, front: Seq<Lexeme>, back: Seq<Lexeme>)
    ensures
        run(root, state, front + back) == match run(root, state, front) {
            Ok(middle) => run(root, middle, back),
            Err(error) => Err(error),
        },
    decreases front.len(),
{
    if front.len() == 0 {
        assert(front + back =~= back);
    } else {
        assert((front + back).first() == front.first());
        assert((front + back).drop_first() =~= front.drop_first() + back);
        match step(root, state, front.first()) {
            Ok(next) => {
                lemma_run_add(root, next, front.drop_first(), back);
            },
            Err(_) => {},
        }
    }
}

/// Whether a bracket is open after a run of steps is a matter of its brackets alone.
pub proof fn lemma_run_brackets(root: Node, state: State, tokens: Seq<Lexeme>)
    ensures
        match run(root, state, tokens) {
            Ok(last) => last.bracket_open == bracket_after(state.bracket_open, tokens),
            Err(_) => true,
        },
    decreases tokens.len(),
{
    if tokens.len() > 0 {
        match step(root, state, tokens.first()) {
            Ok(next) => {
                lemma_run_brackets(root, next, tokens.drop_first());
            },
            Err(_) => {},
        }
    }
}

/// A closing bracket with no bracket open fails the step.
pub proof fn lemma_closing_bracket(root: Node, state: State)
    requires
        !state.bracket_open,
    ensures
        step(root, state, Lexeme::RightBracket) == Err::<State, Error>(Error::XPathOpenBracket),
{
}

/// A closing bracket that no open bracket awaits fails the query for want of
/// an open bracket, if the evaluation comes as far as that bracket.
pub proof fn lemma_unmatched_bracket(root: Node, tokens: Seq<Lexeme>, k: int)
    requires
        reaches(root, tokens, k),
        tokens[k] == Lexeme::RightBracket,
        !bracket_after(false, tokens.take(k)),
    ensures
        evaluate(root, tokens) == Err::<Outcome, Error>(Error::XPathOpenBracket),
{
    let front = tokens.take(k);
    let back = tokens.skip(k);
    assert(front + back =~= tokens);
    lemma_run_add(root, initial(), front, back);
    lemma_run_brackets(root, initial(), front);
    assert(back.first() == tokens[k]);
}

/// A number inside a bracket that is larger than the number of places found
/// fails the step as an incorrect path; a number from one to the number of
/// places found leaves the place at that position, counted from one, and
/// nothing else.
pub proof fn lemma_number_predicate(root: Node, state: State, value: u64)
    requires
        state.bracket_open,
    ensures
        value > state.results.len() ==> step(root, state, Lexeme::Number(value)) == Err::<
            State,
            Error,
        >(Error::XPath),
        1 <= value <= state.results.len() ==> step(root, state, Lexeme::Number(value)) == Ok::<
            State,
            Error,
        >(State { results: seq![state.results[value - 1]], ..state }),
{
}

} // verus!
