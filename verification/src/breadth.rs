use crate::element::Node;
use crate::position::{
    has_path, height, lemma_depth_bound, lemma_prefix, lemma_step_down, tag_at, Path,
};
use crate::search::{
    all_children, children_of, first_tagged, first_tagged_in, gather, lemma_first_tagged_add,
    lemma_first_tagged_in, level, levels_through,
};
use vstd::prelude::*;

verus! {

/// What `each` yields for a place of a run is part of what `gather` yields for the run.
pub proof fn lemma_gather_holds(run: Seq<Path>, each: spec_fn(Path) -> Seq<Path>, k: int, i: int)
    requires
        0 <= k < run.len(),
        0 <= i < each(run[k]).len(),
    ensures
        gather(run, each).contains(each(run[k])[i]),
    decreases run.len(),
{
    let front = gather(run.drop_last(), each);
    let back = each(run.last());
    if k == run.len() - 1 {
        assert((front + back)[front.len() + i] == back[i]);
    } else {
        assert(run.drop_last()[k] == run[k]);
        lemma_gather_holds(run.drop_last(), each, k, i);
        let n = choose|n: int| 0 <= n < front.len() && front[n] == each(run[k])[i];
        assert((front + back)[n] == front[n]);
    }
}

/// What `gather` yields for a run is what `each` yields for one of its places.
pub proof fn lemma_gather_from(run: Seq<Path>, each: spec_fn(Path) -> Seq<Path>, n: int)
    requires
        0 <= n < gather(run, each).len(),
    ensures
        exists|k: int, i: int|
            0 <= k < run.len() && 0 <= i < each(run[k]).len() && gather(run, each)[n] == (
            #[trigger] each(run[k]))[i] && #[trigger] trigger_index(i),
    decreases run.len(),
{
    if run.len() > 0 {
        let front = gather(run.drop_last(), each);
        let back = each(run.last());
        if n < front.len() {
            lemma_gather_from(run.drop_last(), each, n);
            let (k, i) = choose|k: int, i: int|
                0 <= k < run.drop_last().len() && 0 <= i < each(run.drop_last()[k]).len()
                    && front[n] == (#[trigger] each(run.drop_last()[k]))[i] && #[trigger] trigger_index(
                    i,
                );
            assert(run.drop_last()[k] == run[k]);
            assert(gather(run, each)[n] == each(run[k])[i] && trigger_index(i));
        } else {
            let k = run.len() - 1;
            let i = n - front.len();
            assert(gather(run, each)[n] == each(run[k])[i] && trigger_index(i));
        }
    }
}

/// Marks an index for the choice of a witness.
pub open spec fn trigger_index(i: int) -> bool {
    true
}

/// A level holds the places of its depth, and no place of the tree of that depth is missing.
pub proof fn lemma_level(root: Node, depth: nat)
    ensures
        forall|n: int|
            0 <= n < level(root, depth).len() ==> has_path(root, #[trigger] level(root, depth)[n])
                && level(root, depth)[n].len() == depth,
        forall|place: Path|
            has_path(root, place) && place.len() == depth ==> #[trigger] level(root, depth).contains(
                place,
            ),
    decreases depth,
{
    let here = level(root, depth);
    if depth == 0 {
        assert forall|place: Path| has_path(root, place) && place.len() == 0 implies #[trigger] here.contains(
            place,
        ) by {
            assert(place =~= Seq::<int>::empty());
            assert(here[0] == place);
        }
    } else {
        let above = level(root, (depth - 1) as nat);
        lemma_level(root, (depth - 1) as nat);
        assert forall|n: int| 0 <= n < here.len() implies has_path(root, #[trigger] here[n])
            && here[n].len() == depth by {
            lemma_gather_from(above, all_children(root), n);
            let (k, i) = choose|k: int, i: int|
                0 <= k < above.len() && 0 <= i < all_children(root)(above[k]).len() && here[n] == (
                #[trigger] all_children(root)(above[k]))[i] && #[trigger] trigger_index(i);
            assert(has_path(root, above[k]));
            lemma_step_down(root, above[k], i);
        }
        assert forall|place: Path| has_path(root, place) && place.len() == depth implies #[trigger] here.contains(
            place,
        ) by {
            let parent = place.drop_last();
            assert(above.contains(parent));
            let k = choose|k: int| 0 <= k < above.len() && above[k] == parent;
            let i = place.last();
            assert(all_children(root)(above[k])[i] =~= place);
            lemma_gather_holds(above, all_children(root), k, i);
        }
    }
}

/// The levels down to a depth hold the places below the root down to that
/// depth, and no such place of the tree is missing.
pub proof fn lemma_levels_through(root: Node, depth: nat)
    ensures
        forall|n: int|
            0 <= n < levels_through(root, depth).len() ==> has_path(
                root,
                #[trigger] levels_through(root, depth)[n],
            ) && 1 <= levels_through(root, depth)[n].len() <= depth,
        forall|place: Path|
            has_path(root, place) && 1 <= place.len() <= depth ==> #[trigger] levels_through(
                root,
                depth,
            ).contains(place),
    decreases depth,
{
    if depth > 0 {
        let front = levels_through(root, (depth - 1) as nat);
        let back = level(root, depth);
        lemma_levels_through(root, (depth - 1) as nat);
        lemma_level(root, depth);
        assert forall|place: Path| has_path(root, place) && 1 <= place.len() <= depth implies #[trigger] levels_through(
            root,
            depth,
        ).contains(place) by {
            if place.len() == depth {
                assert(back.contains(place));
                let n = choose|n: int| 0 <= n < back.len() && back[n] == place;
                assert((front + back)[front.len() + n] == place);
            } else {
                assert(front.contains(place));
                let n = choose|n: int| 0 <= n < front.len() && front[n] == place;
                assert((front + back)[n] == place);
            }
        }
    }
}

/// Whether `place` lies below the root of the tree and carries `tag`.
pub open spec fn bears(root: Node, place: Path, tag: Seq<char>) -> bool {
    has_path(root, place) && place.len() > 0 && tag_at(root, place) == tag
}

/// The first bearer of a tag in breadth-first order is a bearer, and no
/// bearer lies less deep. Where there is no first bearer, there is no bearer.
pub proof fn lemma_first_tagged_is_shallowest(root: Node, tag: Seq<char>)
    ensures
        match first_tagged(root, tag) {
            Some(first) => bears(root, first, tag) && forall|other: Path| #[trigger]
                bears(root, other, tag) ==> first.len() <= other.len(),
            None => forall|other: Path| !#[trigger] bears(root, other, tag),
        },
{
    let top = height(root);
    let all = levels_through(root, top);
    lemma_levels_through(root, top);
    lemma_first_tagged_in(root, all, tag);
    match first_tagged(root, tag) {
        Some(first) => {
            assert(bears(root, first, tag));
            assert forall|other: Path| #[trigger] bears(root, other, tag) implies first.len()
                <= other.len() by {
                if other.len() < first.len() {
                    let less = (first.len() - 1) as nat;
                    lemma_depth_bound(root, first);
                    lemma_levels_through(root, less);
                    lemma_first_tagged_in(root, levels_through(root, less), tag);
                    lemma_levels_kept(root, tag, less, top);
                    assert(levels_through(root, less).contains(other));
                }
            }
        },
        None => {
            assert forall|other: Path| !#[trigger] bears(root, other, tag) by {
                if bears(root, other, tag) {
                    lemma_depth_bound(root, other);
                    assert(all.contains(other));
                }
            }
        },
    }
}

/// A first bearer within the levels down to a depth is the first within the levels down to any greater depth.
pub proof fn lemma_levels_kept(root: Node, tag: Seq<char>, from: nat, to: nat)
    requires
        from <= to,
    ensures
        first_tagged_in(root, levels_through(root, from), tag) is Some ==> first_tagged_in(
            root,
            levels_through(root, to),
            tag,
        ) == first_tagged_in(root, levels_through(root, from), tag),
    decreases to - from,
{
    if from < to {
        lemma_levels_kept(root, tag, from, (to - 1) as nat);
        lemma_first_tagged_add(root, levels_through(root, (to - 1) as nat), level(root, to), tag);
    }
}

/// Whether, of two places, the first lies to the left: where their ways
/// down from the root part, the first takes the earlier child.
pub open spec fn left_of(one: Path, other: Path) -> bool {
    exists|i: int|
        0 <= i < one.len() && i < other.len() && #[trigger] one.take(i) == other.take(i) && one[i]
            < other[i]
}

/// Whether, of two places, the first comes first in breadth-first order:
/// it lies less deep, or as deep and to the left.
pub open spec fn comes_before(one: Path, other: Path) -> bool {
    one.len() < other.len() || (one.len() == other.len() && left_of(one, other))
}

/// Whether the places of a run lie from left to right.
pub open spec fn rising(run: Seq<Path>) -> bool {
    forall|a: int, b: int| 0 <= a < b < run.len() ==> left_of(#[trigger] run[a], #[trigger] run[b])
}

/// The children of a place lie from left to right, and all of them lie to
/// the left of the children of a place to its right.
pub proof fn lemma_children_rising(root: Node, one: Path, other: Path, i: int, j: int)
    requires
        0 <= i < children_of(root, one).len(),
        0 <= j < children_of(root, other).len(),
        (one == other && i < j) || left_of(one, other),
    ensures
        left_of(children_of(root, one)[i], children_of(root, other)[j]),
{
    let a = children_of(root, one)[i];
    let b = children_of(root, other)[j];
    if one == other && i < j {
        let w = one.len() as int;
        assert(a.take(w) =~= b.take(w));
    } else {
        let w = choose|w: int|
            0 <= w < one.len() && w < other.len() && #[trigger] one.take(w) == other.take(w)
                && one[w] < other[w];
        assert(a.take(w) =~= one.take(w));
        assert(b.take(w) =~= other.take(w));
    }
}

/// The children of the places of a run that lies from left to right lie from left to right.
pub proof fn lemma_gather_rising(root: Node, run: Seq<Path>)
    requires
        rising(run),
    ensures
        rising(gather(run, all_children(root))),
    decreases run.len(),
{
    if run.len() > 0 {
        let each = all_children(root);
        let front = gather(run.drop_last(), each);
        let back = each(run.last());
        assert(rising(run.drop_last())) by {
            assert forall|a: int, b: int| 0 <= a < b < run.drop_last().len() implies left_of(
                #[trigger] run.drop_last()[a],
                #[trigger] run.drop_last()[b],
            ) by {
                assert(left_of(run[a], run[b]));
            }
        }
        lemma_gather_rising(root, run.drop_last());
        let all = gather(run, each);
        assert forall|a: int, b: int| 0 <= a < b < all.len() implies left_of(
            #[trigger] all[a],
            #[trigger] all[b],
        ) by {
            if b < front.len() {
                assert(left_of(front[a], front[b]));
            } else if a < front.len() {
                lemma_gather_from(run.drop_last(), each, a);
                let (k, i) = choose|k: int, i: int|
                    0 <= k < run.drop_last().len() && 0 <= i < each(run.drop_last()[k]).len()
                        && front[a] == (#[trigger] each(run.drop_last()[k]))[i] && #[trigger] trigger_index(
                        i,
                    );
                assert(run.drop_last()[k] == run[k]);
                assert(left_of(run[k], run[run.len() - 1]));
                lemma_children_rising(root, run[k], run.last(), i, b - front.len());
            } else {
                lemma_children_rising(root, run.last(), run.last(), a - front.len(), b - front.len());
            }
        }
    }
}

/// The places of a level lie from left to right.
pub proof fn lemma_level_rising(root: Node, depth: nat)
    ensures
        rising(level(root, depth)),
    decreases depth,
{
    if depth > 0 {
        lemma_level_rising(root, (depth - 1) as nat);
        lemma_gather_rising(root, level(root, (depth - 1) as nat));
    }
}

/// The first bearer of a tag comes before every other bearer in
/// breadth-first order: no bearer lies less deep, and none that lies as deep
/// lies to its left.
pub proof fn lemma_first_tagged_comes_first(root: Node, tag: Seq<char>, other: Path)
    requires
        first_tagged(root, tag) is Some,
        bears(root, other, tag),
        other != first_tagged(root, tag)->0,
    ensures
        comes_before(first_tagged(root, tag)->0, other),
{
    let first = first_tagged(root, tag)->0;
    let top = height(root);
    lemma_first_tagged_is_shallowest(root, tag);
    if first.len() == other.len() {
        let depth = first.len();
        let less = (depth - 1) as nat;
        let row = level(root, depth);
        lemma_depth_bound(root, first);
        lemma_levels_through(root, less);
        lemma_levels_through(root, depth);
        lemma_level(root, depth);
        lemma_first_tagged_in(root, levels_through(root, less), tag);
        lemma_first_tagged_in(root, levels_through(root, depth), tag);
        lemma_first_tagged_in(root, row, tag);
        lemma_levels_kept(root, tag, less, top);
        lemma_levels_kept(root, tag, depth, top);
        lemma_first_tagged_add(root, levels_through(root, less), row, tag);
        assert(levels_through(root, depth).contains(first));
        assert(first_tagged_in(root, row, tag) == Some(first));
        let at = choose|i: int|
            0 <= i < row.len() && row[i] == first && tag_at(root, first) == tag && forall|j: int|
                0 <= j < i ==> tag_at(root, #[trigger] row[j]) != tag;
        assert(row.contains(other));
        let there = choose|j: int| 0 <= j < row.len() && row[j] == other;
        lemma_level_rising(root, depth);
        assert(at < there);
    }
}

/// The first bearer of a tag is the first child of its parent that carries the tag.
pub proof fn lemma_first_bearer_is_first_child(root: Node, tag: Seq<char>)
    requires
        first_tagged(root, tag) is Some,
    ensures
        first_tagged_in(
            root,
            children_of(root, first_tagged(root, tag)->0.drop_last()),
            tag,
        ) == first_tagged(root, tag),
{
    let first = first_tagged(root, tag)->0;
    let parent = first.drop_last();
    let family = children_of(root, parent);
    lemma_first_tagged_is_shallowest(root, tag);
    lemma_first_tagged_in(root, family, tag);
    assert(parent.push(first.last()) =~= first);
    assert(family[first.last()] == first);
    match first_tagged_in(root, family, tag) {
        Some(child) => {
            if child != first {
                let at = choose|i: int|
                    0 <= i < family.len() && family[i] == child && tag_at(root, child) == tag
                        && forall|j: int| 0 <= j < i ==> tag_at(root, #[trigger] family[j]) != tag;
                assert(at < first.last());
                lemma_prefix(root, first, first.len() - 1);
                assert(first.take(first.len() - 1) =~= parent);
                lemma_step_down(root, parent, at);
                assert(bears(root, child, tag));
                lemma_first_tagged_comes_first(root, tag, child);
                let w = choose|w: int|
                    0 <= w < first.len() && w < child.len() && #[trigger] first.take(w) == child.take(
                        w,
                    ) && first[w] < child[w];
                if w < parent.len() {
                    assert(first.take(w + 1) =~= child.take(w + 1)) by {
                        assert(first.take(w + 1) =~= parent.take(w + 1));
                        assert(child.take(w + 1) =~= parent.take(w + 1));
                    }
                    assert(first.take(w + 1)[w] == child.take(w + 1)[w]);
                }
            }
        },
        None => {},
    }
}

} // verus!
