use crate::breadth::lemma_levels_through;
use crate::element::Node;
use crate::machine::{
    current, descent_found, descent_start, evaluate, first_with_attribute, initial, run, step,
    Outcome, Pending, State,
};
use crate::position::{has_path, height, lemma_prefix, lemma_step_down, node_at, Path};
use crate::search::{
    all_children, all_in_tree, ancestors, children_of, children_tagged, children_untagged,
    children_where, descent, finds, finds_among, finds_before, first_tagged, first_tagged_in,
    frontier, gather, grandchildren, lemma_first_tagged_in, levels_through,
};
use crate::tokens::Lexeme;
use vstd::prelude::*;

verus! {

/// Two runs of places of the tree, one after the other, are a run of places of the tree.
pub proof fn lemma_add_in_tree(root: Node, front: Seq<Path>, back: Seq<Path>)
    requires
        all_in_tree(root, front),
        all_in_tree(root, back),
    ensures
        all_in_tree(root, front + back),
{
    assert forall|i: int| 0 <= i < (front + back).len() implies has_path(
        root,
        #[trigger] (front + back)[i],
    ) by {
        if i < front.len() {
            assert((front + back)[i] == front[i]);
        } else {
            assert((front + back)[i] == back[i - front.len()]);
        }
    }
}

/// The children of a place of the tree are places of the tree.
pub proof fn lemma_children_in_tree(root: Node, place: Path)
    requires
        has_path(root, place),
    ensures
        all_in_tree(root, children_of(root, place)),
{
    assert forall|i: int| 0 <= i < children_of(root, place).len() implies has_path(
        root,
        #[trigger] children_of(root, place)[i],
    ) by {
        lemma_step_down(root, place, i);
    }
}

/// The children chosen by their tag are places of the tree.
pub proof fn lemma_children_where_in_tree(
    root: Node,
    place: Path,
    tag: Seq<char>,
    same: bool,
    count: nat,
)
    requires
        has_path(root, place),
        count <= node_at(root, place).children.len(),
    ensures
        all_in_tree(root, children_where(root, place, tag, same, count)),
    decreases count,
{
    if count > 0 {
        lemma_children_where_in_tree(root, place, tag, same, (count - 1) as nat);
        lemma_step_down(root, place, count - 1);
    }
}

/// Where `each` yields places of the tree for every place of the tree, so does `gather` for a run of them.
pub proof fn lemma_gather_in_tree(root: Node, run: Seq<Path>, each: spec_fn(Path) -> Seq<Path>)
    requires
        all_in_tree(root, run),
        forall|place: Path| has_path(root, place) ==> all_in_tree(root, #[trigger] each(place)),
    ensures
        all_in_tree(root, gather(run, each)),
    decreases run.len(),
{
    if run.len() > 0 {
        assert(all_in_tree(root, run.drop_last())) by {
            assert forall|i: int| 0 <= i < run.drop_last().len() implies has_path(
                root,
                #[trigger] run.drop_last()[i],
            ) by {
                assert(run.drop_last()[i] == run[i]);
            }
        }
        lemma_gather_in_tree(root, run.drop_last(), each);
        assert(has_path(root, run[run.len() - 1]));
        lemma_add_in_tree(root, gather(run.drop_last(), each), each(run.last()));
    }
}

/// `all_children` yields places of the tree.
pub proof fn lemma_all_children_in_tree(root: Node)
    ensures
        forall|place: Path|
            has_path(root, place) ==> all_in_tree(root, #[trigger] all_children(root)(place)),
{
    assert forall|place: Path| has_path(root, place) implies all_in_tree(
        root,
        #[trigger] all_children(root)(place),
    ) by {
        lemma_children_in_tree(root, place);
    }
}

/// The grandchildren of a place of the tree are places of the tree.
pub proof fn lemma_grandchildren_in_tree(root: Node, place: Path)
    requires
        has_path(root, place),
    ensures
        all_in_tree(root, grandchildren(root, place)),
{
    lemma_children_in_tree(root, place);
    lemma_all_children_in_tree(root);
    lemma_gather_in_tree(root, children_of(root, place), all_children(root));
}

/// What a visit finds are places of the tree.
pub proof fn lemma_finds_in_tree(root: Node, place: Path, tag: Seq<char>, count: nat)
    requires
        has_path(root, place),
        count <= node_at(root, place).children.len(),
    ensures
        all_in_tree(root, finds_among(root, place, tag, count)),
    decreases count,
{
    if count > 0 {
        let before = finds_among(root, place, tag, (count - 1) as nat);
        let child = place.push(count - 1);
        lemma_finds_in_tree(root, place, tag, (count - 1) as nat);
        lemma_step_down(root, place, count - 1);
        lemma_grandchildren_in_tree(root, child);
        assert(all_in_tree(root, before.push(child))) by {
            assert(before.push(child) =~= before + seq![child]);
            lemma_add_in_tree(root, before, seq![child]);
        }
        lemma_add_in_tree(root, before.push(child), grandchildren(root, child));
    }
}

/// The places that a descent visits in a round are places of the tree.
pub proof fn lemma_frontier_in_tree(root: Node, start: Path, tag: Seq<char>, depth: nat)
    requires
        has_path(root, start),
    ensures
        all_in_tree(root, frontier(root, start, tag, depth)),
    decreases depth,
{
    if depth > 0 {
        lemma_frontier_in_tree(root, start, tag, (depth - 1) as nat);
        assert forall|place: Path| has_path(root, place) implies all_in_tree(
            root,
            #[trigger] children_untagged(root, tag)(place),
        ) by {
            lemma_children_where_in_tree(
                root,
                place,
                tag,
                false,
                node_at(root, place).children.len(),
            );
        }
        lemma_gather_in_tree(
            root,
            frontier(root, start, tag, (depth - 1) as nat),
            children_untagged(root, tag),
        );
    }
}

/// What the rounds of a descent find are places of the tree.
pub proof fn lemma_finds_before_in_tree(root: Node, start: Path, tag: Seq<char>, rounds: nat)
    requires
        has_path(root, start),
    ensures
        all_in_tree(root, finds_before(root, start, tag, rounds)),
    decreases rounds,
{
    if rounds > 0 {
        lemma_finds_before_in_tree(root, start, tag, (rounds - 1) as nat);
        lemma_frontier_in_tree(root, start, tag, (rounds - 1) as nat);
        assert forall|place: Path| has_path(root, place) implies all_in_tree(
            root,
            #[trigger] finds(root, tag)(place),
        ) by {
            lemma_finds_in_tree(root, place, tag, node_at(root, place).children.len());
        }
        lemma_gather_in_tree(
            root,
            frontier(root, start, tag, (rounds - 1) as nat),
            finds(root, tag),
        );
        lemma_add_in_tree(
            root,
            finds_before(root, start, tag, (rounds - 1) as nat),
            gather(frontier(root, start, tag, (rounds - 1) as nat), finds(root, tag)),
        );
    }
}

/// The first tagged place of a run is a place of the run.
pub proof fn lemma_first_tagged_in_tree(root: Node, run: Seq<Path>, tag: Seq<char>)
    requires
        all_in_tree(root, run),
    ensures
        match first_tagged_in(root, run, tag) {
            Some(place) => has_path(root, place),
            None => true,
        },
{
    lemma_first_tagged_in(root, run, tag);
}

/// The first place of a run with an attribute is a place of the run.
pub proof fn lemma_first_with_attribute_in_tree(
    root: Node,
    run: Seq<Path>,
    name: Seq<char>,
    value: Seq<char>,
)
    requires
        all_in_tree(root, run),
    ensures
        match first_with_attribute(root, run, name, value) {
            Some(place) => has_path(root, place),
            None => true,
        },
    decreases run.len(),
{
    if run.len() > 0 {
        assert(all_in_tree(root, run.drop_last())) by {
            assert forall|i: int| 0 <= i < run.drop_last().len() implies has_path(
                root,
                #[trigger] run.drop_last()[i],
            ) by {
                assert(run.drop_last()[i] == run[i]);
            }
        }
        lemma_first_with_attribute_in_tree(root, run.drop_last(), name, value);
        assert(has_path(root, run[run.len() - 1]));
    }
}

/// The first bearer of a tag is a place of the tree, and so are its ancestors.
pub proof fn lemma_first_bearer_in_tree(root: Node, tag: Seq<char>)
    ensures
        match first_tagged(root, tag) {
            Some(place) => has_path(root, place) && place.len() > 0 && has_path(
                root,
                place.drop_last(),
            ) && all_in_tree(root, ancestors(place)),
            None => true,
        },
{
    lemma_levels_through(root, height(root));
    let all = levels_through(root, height(root));
    assert(all_in_tree(root, all));
    lemma_first_tagged_in(root, all, tag);
    match first_tagged(root, tag) {
        Some(place) => {
            assert forall|k: int| 0 <= k < ancestors(place).len() implies has_path(
                root,
                #[trigger] ancestors(place)[k],
            ) by {
                lemma_prefix(root, place, place.len() - 1 - k);
            }
            lemma_prefix(root, place, place.len() - 1);
            assert(place.take(place.len() - 1) =~= place.drop_last());
        },
        None => {},
    }
}

/// A part of a run of places of the tree is a run of places of the tree.
pub proof fn lemma_part_in_tree(root: Node, run: Seq<Path>, from: int, to: int)
    requires
        all_in_tree(root, run),
        0 <= from <= to <= run.len(),
    ensures
        all_in_tree(root, run.subrange(from, to)),
{
    assert forall|i: int| 0 <= i < run.subrange(from, to).len() implies has_path(
        root,
        #[trigger] run.subrange(from, to)[i],
    ) by {
        assert(run.subrange(from, to)[i] == run[from + i]);
    }
}

/// A step on a state whose places lie in the tree leads to a state whose places lie in the tree.
pub proof fn lemma_step_in_tree(root: Node, state: State, token: Lexeme)
    requires
        all_in_tree(root, state.results),
    ensures
        match step(root, state, token) {
            Ok(next) => all_in_tree(root, next.results),
            Err(_) => true,
        },
{
    let results = state.results;
    match token {
        Lexeme::Literal(text) => {
            if results.len() > 0 {
                assert(has_path(root, results[results.len() - 1]));
            }
            let kept = if results.len() == 0 {
                results
            } else {
                results.drop_last()
            };
            assert(all_in_tree(root, kept)) by {
                assert forall|i: int| 0 <= i < kept.len() implies has_path(root, #[trigger] kept[i]) by {
                    assert(kept[i] == results[i]);
                }
            }
            match state.pending {
                Pending::Child => {
                    assert forall|place: Path| has_path(root, place) implies all_in_tree(
                        root,
                        #[trigger] children_tagged(root, text)(place),
                    ) by {
                        lemma_children_where_in_tree(
                            root,
                            place,
                            text,
                            true,
                            node_at(root, place).children.len(),
                        );
                    }
                    lemma_gather_in_tree(root, results, children_tagged(root, text));
                },
                Pending::SelfAxis => {
                    if results.len() > 0 {
                        lemma_children_in_tree(root, current(results));
                        lemma_first_tagged_in_tree(root, children_of(root, current(results)), text);
                    }
                },
                Pending::Parent | Pending::Ancestor | Pending::AncestorOrSelf => {
                    lemma_first_bearer_in_tree(root, text);
                    match first_tagged(root, text) {
                        Some(place) => {
                            lemma_add_in_tree(root, seq![place], ancestors(place));
                        },
                        None => {},
                    }
                },
                Pending::Descendant | Pending::DescendantOrSelf => {
                    let start = descent_start(results);
                    lemma_finds_before_in_tree(root, start, text, height(root) + 1);
                    lemma_add_in_tree(root, seq![start], descent(root, start, text));
                    let always = state.pending == Pending::Descendant;
                    lemma_add_in_tree(root, kept, descent_found(root, results, text, always));
                },
                Pending::Value => {
                    lemma_first_with_attribute_in_tree(root, results, state.attribute, text);
                },
                Pending::FollowingSibling | Pending::PrecedingSibling => {
                    if results.len() > 0 && current(results).len() > 0 {
                        let place = current(results);
                        lemma_prefix(root, place, place.len() - 1);
                        assert(place.take(place.len() - 1) =~= place.drop_last());
                        let family = children_of(root, place.drop_last());
                        lemma_children_in_tree(root, place.drop_last());
                        lemma_first_tagged_in(root, family, text);
                        match first_tagged_in(root, family, text) {
                            Some(found) => {
                                assert(0 <= found.last() < family.len());
                                lemma_part_in_tree(root, family, found.last() + 1, family.len() as int);
                                lemma_part_in_tree(root, family, 0, found.last());
                                assert(family.skip(found.last() + 1) =~= family.subrange(
                                    found.last() + 1,
                                    family.len() as int,
                                ));
                                assert(family.take(found.last()) =~= family.subrange(0, found.last()));
                            },
                            None => {},
                        }
                    }
                },
                _ => {},
            }
        },
        Lexeme::Number(value) => {
            if 1 <= value <= results.len() {
                assert(has_path(root, results[value - 1]));
            }
        },
        _ => {},
    }
}

/// A run of steps from a state whose places lie in the tree leads to a state whose places lie in the tree.
pub proof fn lemma_run_in_tree(root: Node, state: State, tokens: Seq<Lexeme>)
    requires
        all_in_tree(root, state.results),
    ensures
        match run(root, state, tokens) {
            Ok(last) => all_in_tree(root, last.results),
            Err(_) => true,
        },
    decreases tokens.len(),
{
    if tokens.len() > 0 {
        lemma_step_in_tree(root, state, tokens.first());
        match step(root, state, tokens.first()) {
            Ok(next) => {
                lemma_run_in_tree(root, next, tokens.drop_first());
            },
            Err(_) => {},
        }
    }
}

/// The places that a query yields are places of the tree.
pub proof fn lemma_results_in_tree(root: Node, tokens: Seq<Lexeme>)
    ensures
        match evaluate(root, tokens) {
            Ok(Outcome::Nodes(found)) => all_in_tree(root, found),
            _ => true,
        },
{
    lemma_run_in_tree(root, initial(), tokens);
}

} // verus!
