use crate::element::{Element, Node};
use crate::errors::Error;
use crate::machine::{
    ancestor_or_self_step, ancestor_step, axis_step, child_step, current, descent_found,
    descent_step, first_with_attribute, has_attribute, initial,
    lemma_first_with_attribute_stays, literal_step, number_step,
    parent_step, run, self_step, sibling_step, step, value_step, Pending, State,
};
use crate::position::{all_anchored, places, Hit, Path};
use crate::search::{
    children_of, children_tagged, gather, lemma_gather_push, lemma_places_add, lemma_places_push,
};
use crate::tokens::{lexemes, AxesName, ValidToken};
use crate::walk::{
    ancestors_of, descend, every_child, find_first_tagged, first_index, select_children,
};
use vstd::prelude::*;
use vstd::string::StrSliceExecFns;

verus! {

/// The state of an evaluation on a tree: each place found comes with its element.
pub struct Machine<'a> {
    /// What the next literal is taken for.
    pub pending: Pending,
    /// The attribute name taken last.
    pub attribute: String,
    /// Whether a bracket is open.
    pub bracket_open: bool,
    /// Whether the steps so far make a complete query.
    pub valid: bool,
    /// Whether the query asks for a namespace.
    pub namespace: bool,
    /// The nodes found so far, in order.
    pub hits: Vec<Hit<'a>>,
}

impl<'a> View for Machine<'a> {
    type V = State;

    open spec fn view(&self) -> State {
        State {
            pending: self.pending,
            attribute: self.attribute@,
            bracket_open: self.bracket_open,
            valid: self.valid,
            namespace: self.namespace,
            results: places(self.hits@),
        }
    }
}

impl<'a> Machine<'a> {
    /// Whether every node found lies in the tree under `root`.
    pub open spec fn sound(self, root: Node) -> bool {
        all_anchored(self.hits@, root)
    }

    /// The machine before the first step.
    pub fn start() -> (machine: Machine<'a>)
        ensures
            machine@ == initial(),
            machine.hits@.len() == 0,
    {
        let machine = Machine {
            pending: Pending::Idle,
            attribute: String::new(),
            bracket_open: false,
            valid: false,
            namespace: false,
            hits: Vec::new(),
        };
        assert(machine@.results =~= Seq::<Path>::empty());
        machine
    }
}

/// A run holding one hit.
fn single<'a>(hit: Hit<'a>) -> (out: Vec<Hit<'a>>)
    ensures
        out@ == seq![hit],
        places(out@) == seq![hit.place()],
{
    let mut out: Vec<Hit<'a>> = Vec::new();
    out.push(hit);
    assert(out@ =~= seq![hit]);
    assert(places(out@) =~= seq![hit.place()]);
    out
}

/// Second handles on the hits of a run from index `from` up to index `to`.
fn copy_range<'a>(run: &Vec<Hit<'a>>, from: usize, to: usize, Ghost(root): Ghost<Node>) -> (out: Vec<
    Hit<'a>,
>)
    requires
        from <= to <= run@.len(),
        all_anchored(run@, root),
    ensures
        places(out@) == places(run@).subrange(from as int, to as int),
        all_anchored(out@, root),
{
    let mut out: Vec<Hit<'a>> = Vec::new();
    let mut k: usize = from;
    while k < to
        invariant
            from <= k <= to <= run@.len(),
            all_anchored(run@, root),
            out@.len() == k - from,
            forall|j: int| 0 <= j < k - from ==> (#[trigger] out@[j]).place() == run@[from + j].place(),
            all_anchored(out@, root),
        decreases to - k,
    {
        assert(run@[k as int].anchored(root));
        out.push(run[k].copy());
        k += 1;
    }
    assert(places(out@) =~= places(run@).subrange(from as int, to as int));
    out
}

/// The child axis on the nodes found.
pub fn take_children<'a>(root: &'a Element, hits: &Vec<Hit<'a>>, tag: &String) -> (out: Vec<Hit<'a>>)
    requires
        all_anchored(hits@, root@),
    ensures
        places(out@) == child_step(root@, places(hits@), tag@),
        all_anchored(out@, root@),
{
    if hits.len() == 0 {
        if root.tag == *tag {
            single(Hit::at_root(root))
        } else {
            let out: Vec<Hit<'a>> = Vec::new();
            assert(places(out@) =~= Seq::<Path>::empty());
            out
        }
    } else {
        let mut out: Vec<Hit<'a>> = Vec::new();
        let mut k: usize = 0;
        assert(places(hits@).take(0) =~= Seq::<Path>::empty());
        while k < hits.len()
            invariant
                k <= hits@.len(),
                all_anchored(hits@, root@),
                places(out@) == gather(places(hits@).take(k as int), children_tagged(root@, tag@)),
                all_anchored(out@, root@),
            decreases hits@.len() - k,
        {
            assert(hits@[k as int].anchored(root@));
            let mut found = select_children(&hits[k], tag, true, Ghost(root@));
            proof {
                lemma_places_add(out@, found@);
                lemma_gather_push(
                    places(hits@).take(k as int),
                    hits@[k as int].place(),
                    children_tagged(root@, tag@),
                );
                assert(places(hits@).take(k + 1) =~= places(hits@).take(k as int).push(
                    hits@[k as int].place(),
                ));
            }
            out.append(&mut found);
            k += 1;
        }
        assert(places(hits@).take(hits@.len() as int) =~= places(hits@));
        out
    }
}

/// The self axis on the nodes found.
pub fn take_self<'a>(root: &'a Element, hits: &Vec<Hit<'a>>, tag: &String) -> (out: Result<
    Vec<Hit<'a>>,
    Error,
>)
    requires
        all_anchored(hits@, root@),
    ensures
        match out {
            Ok(found) => self_step(root@, places(hits@), tag@) == Ok::<Seq<Path>, Error>(
                places(found@),
            ) && all_anchored(found@, root@),
            Err(error) => self_step(root@, places(hits@), tag@) == Err::<Seq<Path>, Error>(error),
        },
{
    if hits.len() == 0 {
        Ok(single(Hit::at_root(root)))
    } else {
        let last = &hits[hits.len() - 1];
        assert(last.anchored(root@));
        let family = every_child(last, Ghost(root@));
        match first_index(&family, tag, Ghost(root@)) {
            Some(i) => {
                assert(family@[i as int].anchored(root@));
                Ok(single(family[i].copy()))
            },
            None => Err(Error::XPath),
        }
    }
}

/// The parent axis.
pub fn take_parent<'a>(root: &'a Element, tag: &String) -> (out: Vec<Hit<'a>>)
    ensures
        places(out@) == parent_step(root@, tag@),
        all_anchored(out@, root@),
{
    match find_first_tagged(root, tag) {
        Some(hit) => {
            let parent = hit.ancestor(root, 1);
            assert(hit.place().take(hit.place().len() - 1) =~= hit.place().drop_last());
            single(parent)
        },
        None => {
            let out: Vec<Hit<'a>> = Vec::new();
            assert(places(out@) =~= Seq::<Path>::empty());
            out
        },
    }
}

/// The ancestor axis.
pub fn take_ancestors<'a>(root: &'a Element, tag: &String) -> (out: Vec<Hit<'a>>)
    ensures
        places(out@) == ancestor_step(root@, tag@),
        all_anchored(out@, root@),
{
    match find_first_tagged(root, tag) {
        Some(hit) => ancestors_of(root, &hit),
        None => {
            let out: Vec<Hit<'a>> = Vec::new();
            assert(places(out@) =~= Seq::<Path>::empty());
            out
        },
    }
}

/// The ancestor-or-self axis.
pub fn take_ancestors_or_self<'a>(root: &'a Element, tag: &String) -> (out: Result<
    Vec<Hit<'a>>,
    Error,
>)
    ensures
        match out {
            Ok(found) => ancestor_or_self_step(root@, tag@) == Ok::<Seq<Path>, Error>(
                places(found@),
            ) && all_anchored(found@, root@),
            Err(error) => ancestor_or_self_step(root@, tag@) == Err::<Seq<Path>, Error>(error),
        },
{
    match find_first_tagged(root, tag) {
        Some(hit) => {
            let mut above = ancestors_of(root, &hit);
            let mut out = single(hit);
            proof {
                lemma_places_add(out@, above@);
            }
            out.append(&mut above);
            Ok(out)
        },
        None => Err(Error::XPath),
    }
}

/// The two descendant axes on the nodes found. The flag says whether the descent added anything.
pub fn take_descent<'a>(root: &'a Element, hits: Vec<Hit<'a>>, tag: &String, always: bool) -> (out: (
    Vec<Hit<'a>>,
    bool,
))
    requires
        all_anchored(hits@, root@),
    ensures
        places(out.0@) == descent_step(root@, places(hits@), tag@, always),
        out.1 == (descent_found(root@, places(hits@), tag@, always).len() > 0),
        all_anchored(out.0@, root@),
{
    let mut kept = hits;
    let start = match kept.pop() {
        Some(hit) => {
            assert(hit == hits@.last());
            assert(hit.anchored(root@));
            hit
        },
        None => Hit::at_root(root),
    };
    proof {
        if hits@.len() > 0 {
            assert(places(kept@) =~= places(hits@).drop_last());
            assert(start.place() == current(places(hits@)));
        } else {
            assert(places(kept@) =~= places(hits@));
        }
    }
    let mut found: Vec<Hit<'a>> = Vec::new();
    assert(places(found@) =~= Seq::<Path>::empty());
    let own = start.node.tag == *tag;
    if own {
        proof {
            lemma_places_push(found@, start);
        }
        found.push(start.copy());
        assert(places(found@) =~= seq![start.place()]);
    }
    if !own || always {
        let mut below = descend(root, &start, tag);
        proof {
            lemma_places_add(found@, below@);
        }
        found.append(&mut below);
    }
    let any = found.len() > 0;
    proof {
        lemma_places_add(kept@, found@);
        assert(places(found@) =~= descent_found(root@, places(hits@), tag@, always));
    }
    kept.append(&mut found);
    (kept, any)
}

/// An attribute test on the nodes found. The flag says whether a node passed it.
pub fn take_value<'a>(hits: &Vec<Hit<'a>>, name: &String, value: &String, Ghost(root): Ghost<Node>) -> (out:
    (Vec<Hit<'a>>, bool))
    requires
        all_anchored(hits@, root),
    ensures
        places(out.0@) == value_step(root, places(hits@), name@, value@),
        out.1 == (first_with_attribute(root, places(hits@), name@, value@) is Some),
        all_anchored(out.0@, root),
{
    let mut k: usize = 0;
    assert(places(hits@).take(0) =~= Seq::<Path>::empty());
    while k < hits.len()
        invariant
            k <= hits@.len(),
            all_anchored(hits@, root),
            first_with_attribute(root, places(hits@).take(k as int), name@, value@) is None,
        decreases hits@.len() - k,
    {
        assert(places(hits@).take(k + 1).drop_last() =~= places(hits@).take(k as int));
        assert(hits@[k as int].anchored(root));
        let passes = match hits[k].node.attributes.get(name.as_str()) {
            Some(held) => *held == *value,
            None => false,
        };
        assert(passes == has_attribute(root, hits@[k as int].place(), name@, value@));
        if passes {
            proof {
                lemma_first_with_attribute_stays(root, places(hits@), name@, value@, k + 1);
            }
            return (single(hits[k].copy()), true);
        }
        k += 1;
    }
    assert(places(hits@).take(hits@.len() as int) =~= places(hits@));
    let out: Vec<Hit<'a>> = Vec::new();
    assert(places(out@) =~= Seq::<Path>::empty());
    (out, false)
}

/// The two sibling axes on the nodes found.
pub fn take_siblings<'a>(root: &'a Element, hits: &Vec<Hit<'a>>, tag: &String, following: bool) -> (out:
    Result<Vec<Hit<'a>>, Error>)
    requires
        all_anchored(hits@, root@),
    ensures
        match out {
            Ok(found) => sibling_step(root@, places(hits@), tag@, following) == Ok::<
                Seq<Path>,
                Error,
            >(places(found@)) && all_anchored(found@, root@),
            Err(error) => sibling_step(root@, places(hits@), tag@, following) == Err::<
                Seq<Path>,
                Error,
            >(error),
        },
{
    if hits.len() == 0 {
        return Err(Error::XPath);
    }
    let last = &hits[hits.len() - 1];
    assert(last.anchored(root@));
    if last.path.len() == 0 {
        return Err(Error::XPath);
    }
    let parent = last.ancestor(root, 1);
    assert(last.place().take(last.place().len() - 1) =~= last.place().drop_last());
    assert(last.place() == current(places(hits@)));
    let family = every_child(&parent, Ghost(root@));
    let size = family.len();
    let ghost run = places(family@);
    assert(run == children_of(root@, current(places(hits@)).drop_last()));
    let found = match first_index(&family, tag, Ghost(root@)) {
        Some(i) => {
            assert(run[i as int].last() == i);
            if following {
                assert(run.subrange(i + 1, size as int) =~= run.skip(i + 1));
                copy_range(&family, i + 1, size, Ghost(root@))
            } else {
                assert(run.subrange(0, i as int) =~= run.take(i as int));
                copy_range(&family, 0, i, Ghost(root@))
            }
        },
        None => {
            if following {
                assert(run.subrange(size as int, size as int) =~= Seq::<Path>::empty());
                copy_range(&family, size, size, Ghost(root@))
            } else {
                assert(run.subrange(0, size as int) =~= run);
                copy_range(&family, 0, size, Ghost(root@))
            }
        },
    };
    Ok(found)
}

/// The outcome of a step whose results are `found`, or its failure.
fn resolve<'a>(machine: Machine<'a>, found: Result<Vec<Hit<'a>>, Error>) -> (out: Result<
    Machine<'a>,
    Error,
>)
    ensures
        match (found, out) {
            (Ok(hits), Ok(next)) => next.hits == hits && next@ == crate::machine::resolved(
                machine@,
                places(hits@),
            ),
            (Err(error), Err(same)) => error == same,
            _ => false,
        },
{
    match found {
        Ok(hits) => {
            let mut next = machine;
            next.pending = Pending::Idle;
            next.valid = true;
            next.hits = hits;
            Ok(next)
        },
        Err(error) => Err(error),
    }
}

/// The step for a literal.
pub fn take_literal<'a>(root: &'a Element, machine: Machine<'a>, text: &String) -> (out: Result<
    Machine<'a>,
    Error,
>)
    requires
        machine.sound(root@),
    ensures
        match out {
            Ok(next) => literal_step(root@, machine@, text@) == Ok::<State, Error>(next@)
                && next.sound(root@),
            Err(error) => literal_step(root@, machine@, text@) == Err::<State, Error>(error),
        },
{
    match machine.pending {
        Pending::Idle => Ok(machine),
        Pending::Child => {
            let found = take_children(root, &machine.hits, text);
            resolve(machine, Ok(found))
        },
        Pending::SelfAxis => {
            let found = take_self(root, &machine.hits, text);
            resolve(machine, found)
        },
        Pending::Parent => {
            let found = take_parent(root, text);
            resolve(machine, Ok(found))
        },
        Pending::Ancestor => {
            let found = take_ancestors(root, text);
            resolve(machine, Ok(found))
        },
        Pending::AncestorOrSelf => {
            let found = take_ancestors_or_self(root, text);
            resolve(machine, found)
        },
        Pending::Descendant => {
            let mut next = machine;
            let mut hits: Vec<Hit<'a>> = Vec::new();
            core::mem::swap(&mut next.hits, &mut hits);
            let (found, any) = take_descent(root, hits, text, true);
            next.pending = Pending::Idle;
            next.valid = next.valid || any;
            next.hits = found;
            Ok(next)
        },
        Pending::DescendantOrSelf => {
            let mut next = machine;
            let mut hits: Vec<Hit<'a>> = Vec::new();
            core::mem::swap(&mut next.hits, &mut hits);
            let (found, any) = take_descent(root, hits, text, false);
            next.pending = Pending::Idle;
            next.valid = next.valid || any;
            next.hits = found;
            Ok(next)
        },
        Pending::Attribute => {
            let mut next = machine;
            next.attribute = text.clone();
            Ok(next)
        },
        Pending::Value => {
            let (found, any) = take_value(&machine.hits, &machine.attribute, text, Ghost(root@));
            let mut next = machine;
            next.pending = Pending::Idle;
            next.valid = next.valid || any;
            next.hits = found;
            Ok(next)
        },
        Pending::FollowingSibling => {
            let found = take_siblings(root, &machine.hits, text, true);
            resolve(machine, found)
        },
        Pending::PrecedingSibling => {
            let found = take_siblings(root, &machine.hits, text, false);
            resolve(machine, found)
        },
    }
}

/// The step for a number.
pub fn take_number<'a>(machine: Machine<'a>, value: u64, Ghost(root): Ghost<Node>) -> (out: Result<
    Machine<'a>,
    Error,
>)
    requires
        machine.sound(root),
    ensures
        match out {
            Ok(next) => number_step(machine@, value) == Ok::<State, Error>(next@) && next.sound(
                root,
            ),
            Err(error) => number_step(machine@, value) == Err::<State, Error>(error),
        },
{
    if !machine.bracket_open || value == 0 || machine.hits.len() == 0 {
        return Err(Error::XPath);
    }
    let count = machine.hits.len();
    if value > count as u64 {
        return Err(Error::XPath);
    }
    let at = (value - 1) as usize;
    assert(machine.hits@[at as int].anchored(root));
    let chosen = single(machine.hits[at].copy());
    let mut next = machine;
    next.hits = chosen;
    assert(next@.results =~= seq![machine@.results[value - 1]]);
    Ok(next)
}

/// The step for an axis.
pub fn take_axis<'a>(machine: Machine<'a>, axis: AxesName) -> (out: Result<Machine<'a>, Error>)
    ensures
        match out {
            Ok(next) => axis_step(machine@, axis) == Ok::<State, Error>(next@) && next.hits
                == machine.hits,
            Err(error) => axis_step(machine@, axis) == Err::<State, Error>(error),
        },
{
    let mut next = machine;
    match axis {
        AxesName::Ancestor => {
            if !(next.pending == Pending::Descendant || next.pending == Pending::DescendantOrSelf) {
                return Err(Error::XPath);
            }
            next.pending = Pending::Ancestor;
            next.valid = false;
        },
        AxesName::AncestorOrSelf => {
            if !(next.pending == Pending::Descendant || next.pending == Pending::DescendantOrSelf) {
                return Err(Error::XPath);
            }
            next.pending = Pending::AncestorOrSelf;
            next.valid = false;
        },
        AxesName::Attribute => {
            next.pending = Pending::Attribute;
            next.attribute = String::new();
            next.valid = false;
        },
        AxesName::Child => {
            next.pending = Pending::Child;
            next.valid = false;
        },
        AxesName::Descendant => {
            next.pending = Pending::Descendant;
        },
        AxesName::DescendantOrSelf => {
            next.pending = Pending::DescendantOrSelf;
            next.valid = false;
        },
        AxesName::Following => {},
        AxesName::FollowingSibling => {
            next.pending = Pending::FollowingSibling;
            next.valid = false;
        },
        AxesName::Namespace => {
            if next.pending == Pending::Child {
                next.pending = Pending::Idle;
            }
            next.namespace = true;
            next.valid = true;
        },
        AxesName::Parent => {
            next.pending = Pending::Parent;
        },
        AxesName::Preceding => {},
        AxesName::PrecedingSibling => {
            next.pending = Pending::PrecedingSibling;
            next.valid = false;
        },
        AxesName::SelfAxis => {
            next.pending = Pending::SelfAxis;
            next.valid = true;
        },
    }
    Ok(next)
}

/// One step of an evaluation.
pub fn take<'a>(root: &'a Element, machine: Machine<'a>, token: &ValidToken) -> (out: Result<
    Machine<'a>,
    Error,
>)
    requires
        machine.sound(root@),
    ensures
        match out {
            Ok(next) => step(root@, machine@, token@) == Ok::<State, Error>(next@) && next.sound(
                root@,
            ),
            Err(error) => step(root@, machine@, token@) == Err::<State, Error>(error),
        },
{
    match token {
        ValidToken::Equal => {
            if machine.pending == Pending::Attribute && machine.attribute.as_str().unicode_len() > 0 {
                let mut next = machine;
                next.pending = Pending::Value;
                Ok(next)
            } else {
                Err(Error::XPath)
            }
        },
        ValidToken::AtSign => {
            if machine.bracket_open {
                Ok(machine)
            } else {
                Err(Error::XPath)
            }
        },
        ValidToken::LeftBracket => {
            let mut next = machine;
            next.bracket_open = true;
            Ok(next)
        },
        ValidToken::RightBracket => {
            if machine.bracket_open {
                let mut next = machine;
                next.bracket_open = false;
                Ok(next)
            } else {
                Err(Error::XPathOpenBracket)
            }
        },
        ValidToken::Literal(text) => take_literal(root, machine, text),
        ValidToken::Number(value) => take_number(machine, *value, Ghost(root@)),
        ValidToken::Axes(axis) => take_axis(machine, *axis),
        _ => Ok(machine),
    }
}

/// The steps of a run of tokens, one after the other, up to the first failure.
pub fn take_all<'a>(root: &'a Element, machine: Machine<'a>, tokens: &Vec<ValidToken>) -> (out: Result<
    Machine<'a>,
    Error,
>)
    requires
        machine.sound(root@),
    ensures
        match out {
            Ok(last) => run(root@, machine@, lexemes(tokens@)) == Ok::<State, Error>(last@)
                && last.sound(root@),
            Err(error) => run(root@, machine@, lexemes(tokens@)) == Err::<State, Error>(error),
        },
{
    let ghost all = lexemes(tokens@);
    let mut state = machine;
    let mut i: usize = 0;
    assert(all.skip(0) =~= all);
    while i < tokens.len()
        invariant
            i <= tokens@.len(),
            all == lexemes(tokens@),
            state.sound(root@),
            run(root@, machine@, all) == run(root@, state@, all.skip(i as int)),
        decreases tokens@.len() - i,
    {
        let ghost before = state@;
        let ghost rest = all.skip(i as int);
        assert(rest.first() == tokens@[i as int]@);
        assert(rest.drop_first() =~= all.skip(i + 1));
        match take(root, state, &tokens[i]) {
            Ok(next) => {
                state = next;
            },
            Err(error) => {
                return Err(error);
            },
        }
        i += 1;
    }
    Ok(state)
}

} // verus!
