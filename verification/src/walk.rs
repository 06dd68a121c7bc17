use crate::breadth::lemma_levels_kept;
use crate::element::{lemma_children, Element, Node};
use crate::position::{all_anchored, height, lemma_depth_bound, node_at, places, Hit, Path};
use crate::search::{
    all_children, ancestors, all_of_length, children_of, children_untagged, children_where,
    descent, finds, finds_among, finds_at, finds_before, first_tagged, first_tagged_in, frontier,
    gather, lemma_first_tagged_add, lemma_first_tagged_stays, lemma_gather_push, lemma_places_add,
    lemma_places_push, level, levels_through, untagged_children,
};
use vstd::prelude::*;

verus! {

/// The children of a hit, in document order.
pub fn every_child<'a>(hit: &Hit<'a>, Ghost(root): Ghost<Node>) -> (out: Vec<Hit<'a>>)
    requires
        hit.anchored(root),
    ensures
        places(out@) == children_of(root, hit.place()),
        all_anchored(out@, root),
        all_of_length(places(out@), hit.place().len() + 1),
{
    let mut out: Vec<Hit<'a>> = Vec::new();
    let mut i: usize = 0;
    proof {
        lemma_children(*hit.node);
    }
    while i < hit.node.children.len()
        invariant
            i <= hit.node.children@.len(),
            hit.anchored(root),
            out@.len() == i,
            forall|j: int| 0 <= j < i ==> (#[trigger] out@[j]).place() == hit.place().push(j),
            all_anchored(out@, root),
        decreases hit.node.children@.len() - i,
    {
        let child = hit.child(i);
        out.push(child);
        i += 1;
    }
    assert(places(out@) =~= children_of(root, hit.place()));
    out
}

/// The children of a hit whose tag is `tag` (if `same`) or is not `tag` (if
/// not `same`), in document order.
pub fn select_children<'a>(hit: &Hit<'a>, tag: &String, same: bool, Ghost(root): Ghost<Node>) -> (out:
    Vec<Hit<'a>>)
    requires
        hit.anchored(root),
    ensures
        places(out@) == children_where(
            root,
            hit.place(),
            tag@,
            same,
            node_at(root, hit.place()).children.len(),
        ),
        all_anchored(out@, root),
        all_of_length(places(out@), hit.place().len() + 1),
{
    let mut out: Vec<Hit<'a>> = Vec::new();
    let mut i: usize = 0;
    proof {
        lemma_children(*hit.node);
    }
    while i < hit.node.children.len()
        invariant
            i <= hit.node.children@.len(),
            hit.node@.children.len() == hit.node.children@.len(),
            hit.anchored(root),
            places(out@) == children_where(root, hit.place(), tag@, same, i as nat),
            all_anchored(out@, root),
            all_of_length(places(out@), hit.place().len() + 1),
        decreases hit.node.children@.len() - i,
    {
        let child = hit.child(i);
        let carries = child.node.tag == *tag;
        if carries == same {
            proof {
                lemma_places_push(out@, child);
            }
            out.push(child);
        }
        i += 1;
    }
    out
}

/// The children of the hits of a run, in the order of the run.
pub fn expand<'a>(run: &Vec<Hit<'a>>, Ghost(root): Ghost<Node>, Ghost(length): Ghost<nat>) -> (out:
    Vec<Hit<'a>>)
    requires
        all_anchored(run@, root),
        all_of_length(places(run@), length),
    ensures
        places(out@) == gather(places(run@), all_children(root)),
        all_anchored(out@, root),
        all_of_length(places(out@), length + 1),
{
    let mut out: Vec<Hit<'a>> = Vec::new();
    let mut k: usize = 0;
    assert(places(run@).take(0) =~= Seq::<Path>::empty());
    while k < run.len()
        invariant
            k <= run@.len(),
            all_anchored(run@, root),
            all_of_length(places(run@), length),
            places(out@) == gather(places(run@).take(k as int), all_children(root)),
            all_anchored(out@, root),
            all_of_length(places(out@), length + 1),
        decreases run@.len() - k,
    {
        let ghost before = out@;
        assert(places(run@)[k as int].len() == length);
        let mut children = every_child(&run[k], Ghost(root));
        proof {
            lemma_places_add(before, children@);
            lemma_gather_push(places(run@).take(k as int), run@[k as int].place(), all_children(root));
            assert(places(run@).take(k + 1) =~= places(run@).take(k as int).push(run@[k as int].place()));
        }
        out.append(&mut children);
        k += 1;
    }
    assert(places(run@).take(run@.len() as int) =~= places(run@));
    out
}

/// The index of the first hit of a run that carries `tag`.
pub fn first_index<'a>(run: &Vec<Hit<'a>>, tag: &String, Ghost(root): Ghost<Node>) -> (at: Option<usize>)
    requires
        all_anchored(run@, root),
    ensures
        match at {
            Some(i) => i < run@.len() && first_tagged_in(root, places(run@), tag@) == Some(
                run@[i as int].place(),
            ),
            None => first_tagged_in(root, places(run@), tag@) is None,
        },
{
    let mut k: usize = 0;
    assert(places(run@).take(0) =~= Seq::<Path>::empty());
    while k < run.len()
        invariant
            k <= run@.len(),
            all_anchored(run@, root),
            first_tagged_in(root, places(run@).take(k as int), tag@) is None,
        decreases run@.len() - k,
    {
        assert(places(run@).take(k + 1).drop_last() =~= places(run@).take(k as int));
        assert(run@[k as int].anchored(root));
        if run[k].node.tag == *tag {
            proof {
                lemma_first_tagged_stays(root, places(run@), tag@, k + 1);
            }
            return Some(k);
        }
        k += 1;
    }
    assert(places(run@).take(run@.len() as int) =~= places(run@));
    None
}

/// Where no tag lies down to a depth, none lies down to a lesser depth.
pub proof fn lemma_levels_clear(root: Node, tag: Seq<char>, less: nat, more: nat)
    requires
        less <= more,
        first_tagged_in(root, levels_through(root, more), tag) is None,
    ensures
        first_tagged_in(root, levels_through(root, less), tag) is None,
    decreases more - less,
{
    if less < more {
        lemma_first_tagged_add(root, levels_through(root, (more - 1) as nat), level(root, more), tag);
        lemma_levels_clear(root, tag, less, (more - 1) as nat);
    }
}

/// Below an empty level every level is empty, so nothing more is found there.
pub proof fn lemma_levels_end(root: Node, tag: Seq<char>, last: nat, to: nat)
    requires
        last <= to,
        level(root, last).len() == 0,
        first_tagged_in(root, levels_through(root, last), tag) is None,
    ensures
        level(root, to).len() == 0,
        first_tagged_in(root, levels_through(root, to), tag) is None,
    decreases to - last,
{
    if last < to {
        lemma_levels_end(root, tag, last, (to - 1) as nat);
        assert(level(root, to) =~= Seq::<Path>::empty());
        lemma_first_tagged_add(root, levels_through(root, (to - 1) as nat), level(root, to), tag);
    }
}

/// Searches the tree below the root, breadth first, for the first element that carries `tag`.
pub fn find_first_tagged<'a>(root: &'a Element, tag: &String) -> (found: Option<Hit<'a>>)
    ensures
        match found {
            Some(hit) => first_tagged(root@, tag@) == Some(hit.place()) && hit.anchored(root@)
                && hit.place().len() > 0,
            None => first_tagged(root@, tag@) is None,
        },
{
    let mut current: Vec<Hit<'a>> = Vec::new();
    current.push(Hit::at_root(root));
    let ghost mut depth: nat = 0;
    assert(places(current@) =~= level(root@, 0));
    while current.len() > 0
        invariant
            all_anchored(current@, root@),
            places(current@) == level(root@, depth),
            all_of_length(places(current@), depth),
            first_tagged_in(root@, levels_through(root@, depth), tag@) is None,
            depth <= height(root@) + 1,
        decreases height(root@) + 1 - depth,
    {
        proof {
            assert(current@[0].anchored(root@));
            assert(places(current@)[0].len() == depth);
            lemma_depth_bound(root@, current@[0].place());
        }
        let below = expand(&current, Ghost(root@), Ghost(depth));
        proof {
            lemma_first_tagged_add(
                root@,
                levels_through(root@, depth),
                level(root@, depth + 1),
                tag@,
            );
        }
        match first_index(&below, tag, Ghost(root@)) {
            Some(i) => {
                let hit = below[i].copy();
                proof {
                    assert(below@[i as int].anchored(root@));
                    assert(places(below@)[i as int].len() == depth + 1);
                    lemma_depth_bound(root@, hit.place());
                    lemma_levels_kept(root@, tag@, depth + 1, height(root@));
                }
                return Some(hit);
            },
            None => {},
        }
        current = below;
        proof {
            depth = depth + 1;
        }
    }
    proof {
        if depth <= height(root@) {
            lemma_levels_end(root@, tag@, depth, height(root@));
        } else {
            lemma_levels_clear(root@, tag@, height(root@), depth);
        }
    }
    None
}

/// The ancestors of a hit below the root, the nearest first and the root last.
pub fn ancestors_of<'a>(root: &'a Element, hit: &Hit<'a>) -> (out: Vec<Hit<'a>>)
    requires
        hit.anchored(root@),
    ensures
        places(out@) == ancestors(hit.place()),
        all_anchored(out@, root@),
{
    let mut out: Vec<Hit<'a>> = Vec::new();
    let mut k: usize = 0;
    let length = hit.path.len();
    while k < length
        invariant
            k <= length,
            length == hit.place().len(),
            hit.anchored(root@),
            out@.len() == k,
            forall|j: int|
                0 <= j < k ==> (#[trigger] out@[j]).place() == hit.place().take(length - 1 - j),
            all_anchored(out@, root@),
        decreases length - k,
    {
        let above = hit.ancestor(root, k + 1);
        out.push(above);
        k += 1;
    }
    assert(places(out@) =~= ancestors(hit.place()));
    out
}

/// Visits a hit: what it finds among its children, and the children below which the descent goes on.
pub fn visit<'a>(hit: &Hit<'a>, tag: &String, Ghost(root): Ghost<Node>) -> (out: (
    Vec<Hit<'a>>,
    Vec<Hit<'a>>,
))
    requires
        hit.anchored(root),
    ensures
        places(out.0@) == finds_at(root, hit.place(), tag@),
        places(out.1@) == untagged_children(root, hit.place(), tag@),
        all_anchored(out.0@, root),
        all_anchored(out.1@, root),
        all_of_length(places(out.1@), hit.place().len() + 1),
{
    let mut found: Vec<Hit<'a>> = Vec::new();
    let mut onward: Vec<Hit<'a>> = Vec::new();
    let mut i: usize = 0;
    proof {
        lemma_children(*hit.node);
    }
    while i < hit.node.children.len()
        invariant
            i <= hit.node.children@.len(),
            hit.node@.children.len() == hit.node.children@.len(),
            hit.anchored(root),
            places(found@) == finds_among(root, hit.place(), tag@, i as nat),
            places(onward@) == children_where(root, hit.place(), tag@, false, i as nat),
            all_anchored(found@, root),
            all_anchored(onward@, root),
            all_of_length(places(onward@), hit.place().len() + 1),
        decreases hit.node.children@.len() - i,
    {
        let child = hit.child(i);
        if child.node.tag == *tag {
            let below = every_child(&child, Ghost(root));
            let mut grand = expand(&below, Ghost(root), Ghost((hit.place().len() + 2) as nat));
            proof {
                lemma_places_push(found@, child);
                lemma_places_add(found@.push(child), grand@);
            }
            found.push(child);
            found.append(&mut grand);
        } else {
            proof {
                lemma_places_push(onward@, child);
            }
            onward.push(child);
        }
        i += 1;
    }
    (found, onward)
}

/// Visits the hits of a run in order: what they find, and where the descent goes on.
pub fn scan_level<'a>(
    run: &Vec<Hit<'a>>,
    tag: &String,
    Ghost(root): Ghost<Node>,
    Ghost(length): Ghost<nat>,
) -> (out: (Vec<Hit<'a>>, Vec<Hit<'a>>))
    requires
        all_anchored(run@, root),
        all_of_length(places(run@), length),
    ensures
        places(out.0@) == gather(places(run@), finds(root, tag@)),
        places(out.1@) == gather(places(run@), children_untagged(root, tag@)),
        all_anchored(out.0@, root),
        all_anchored(out.1@, root),
        all_of_length(places(out.1@), length + 1),
{
    let mut found: Vec<Hit<'a>> = Vec::new();
    let mut onward: Vec<Hit<'a>> = Vec::new();
    let mut k: usize = 0;
    assert(places(run@).take(0) =~= Seq::<Path>::empty());
    while k < run.len()
        invariant
            k <= run@.len(),
            all_anchored(run@, root),
            all_of_length(places(run@), length),
            places(found@) == gather(places(run@).take(k as int), finds(root, tag@)),
            places(onward@) == gather(places(run@).take(k as int), children_untagged(root, tag@)),
            all_anchored(found@, root),
            all_anchored(onward@, root),
            all_of_length(places(onward@), length + 1),
        decreases run@.len() - k,
    {
        assert(places(run@)[k as int].len() == length);
        let (mut here, mut next) = visit(&run[k], tag, Ghost(root));
        proof {
            lemma_places_add(found@, here@);
            lemma_places_add(onward@, next@);
            lemma_gather_push(places(run@).take(k as int), run@[k as int].place(), finds(root, tag@));
            lemma_gather_push(
                places(run@).take(k as int),
                run@[k as int].place(),
                children_untagged(root, tag@),
            );
            assert(places(run@).take(k + 1) =~= places(run@).take(k as int).push(run@[k as int].place()));
        }
        found.append(&mut here);
        onward.append(&mut next);
        k += 1;
    }
    assert(places(run@).take(run@.len() as int) =~= places(run@));
    (found, onward)
}

/// After a round that visits nothing, no round visits or finds anything.
pub proof fn lemma_descent_end(root: Node, start: Path, tag: Seq<char>, last: nat, to: nat)
    requires
        last <= to,
        frontier(root, start, tag, last).len() == 0,
    ensures
        frontier(root, start, tag, to).len() == 0,
        finds_before(root, start, tag, to) == finds_before(root, start, tag, last),
    decreases to - last,
{
    if last < to {
        lemma_descent_end(root, start, tag, last, (to - 1) as nat);
        assert(frontier(root, start, tag, to) =~= Seq::<Path>::empty());
        assert(finds_before(root, start, tag, to) =~= finds_before(root, start, tag, (to - 1) as nat));
    }
}

/// Descends breadth first from a hit and returns what the visits find.
pub fn descend<'a>(root: &'a Element, start: &Hit<'a>, tag: &String) -> (out: Vec<Hit<'a>>)
    requires
        start.anchored(root@),
    ensures
        places(out@) == descent(root@, start.place(), tag@),
        all_anchored(out@, root@),
{
    let mut out: Vec<Hit<'a>> = Vec::new();
    let mut current: Vec<Hit<'a>> = Vec::new();
    current.push(start.copy());
    let ghost mut rounds: nat = 0;
    assert(places(current@) =~= frontier(root@, start.place(), tag@, 0));
    assert(places(out@) =~= finds_before(root@, start.place(), tag@, 0));
    while current.len() > 0
        invariant
            start.anchored(root@),
            all_anchored(current@, root@),
            all_anchored(out@, root@),
            places(current@) == frontier(root@, start.place(), tag@, rounds),
            all_of_length(places(current@), start.place().len() + rounds),
            places(out@) == finds_before(root@, start.place(), tag@, rounds),
            rounds <= height(root@) + 1,
        decreases height(root@) + 1 - rounds,
    {
        proof {
            assert(current@[0].anchored(root@));
            assert(places(current@)[0].len() == start.place().len() + rounds);
            lemma_depth_bound(root@, current@[0].place());
        }
        let (mut found, onward) = scan_level(
            &current,
            tag,
            Ghost(root@),
            Ghost(start.place().len() + rounds),
        );
        proof {
            lemma_places_add(out@, found@);
        }
        out.append(&mut found);
        current = onward;
        proof {
            rounds = rounds + 1;
        }
    }
    proof {
        lemma_descent_end(root@, start.place(), tag@, rounds, height(root@) + 1);
    }
    out
}

} // verus!
