use crate::breadth::{lemma_gather_from, lemma_gather_holds, trigger_index};
use crate::element::Node;
use crate::position::{has_path, height, lemma_depth_bound, lemma_prefix, lemma_step_down, node_at, tag_at, Path};
use crate::search::{
    all_children, children_of, children_untagged, children_where, descent, finds, finds_among,
    finds_at, finds_before, frontier, gather, grandchildren, untagged_children,
};
use vstd::prelude::*;

verus! {

/// Whether `place` is `start` or lies below it.
pub open spec fn extends(start: Path, place: Path) -> bool {
    start.len() <= place.len() && place.take(start.len() as int) == start
}

/// Whether a descent from `start` for `tag` visits `place`: it is `start`
/// or lies below it, and neither it nor a place on the way down to it from
/// below `start` carries `tag`.
pub open spec fn visited(root: Node, start: Path, place: Path, tag: Seq<char>) -> bool {
    &&& has_path(root, place)
    &&& extends(start, place)
    &&& forall|k: int| start.len() < k <= place.len() ==> tag_at(root, #[trigger] place.take(k)) != tag
}

/// Whether `place` carries `tag` and is a child of a place that a descent from `start` visits.
pub open spec fn matched(root: Node, start: Path, place: Path, tag: Seq<char>) -> bool {
    &&& place.len() > 0
    &&& has_path(root, place)
    &&& tag_at(root, place) == tag
    &&& visited(root, start, place.drop_last(), tag)
}

/// Whether `place` is a match of a descent from `start` or a grandchild of one.
pub open spec fn reached(root: Node, start: Path, place: Path, tag: Seq<char>) -> bool {
    matched(root, start, place, tag) || (place.len() >= 2 && has_path(root, place) && matched(
        root,
        start,
        place.take(place.len() as int - 2),
        tag,
    ))
}

/// A child chosen by its tag is a child, and its tag is as asked.
pub proof fn lemma_chosen_child(
    root: Node,
    place: Path,
    tag: Seq<char>,
    same: bool,
    count: nat,
    n: int,
)
    requires
        0 <= n < children_where(root, place, tag, same, count).len(),
    ensures
        exists|i: int|
            0 <= i < count && #[trigger] place.push(i) == children_where(
                root,
                place,
                tag,
                same,
                count,
            )[n] && (tag_at(root, place.push(i)) == tag) == same,
    decreases count,
{
    if count > 0 {
        let before = children_where(root, place, tag, same, (count - 1) as nat);
        if n < before.len() {
            lemma_chosen_child(root, place, tag, same, (count - 1) as nat, n);
            let i = choose|i: int|
                0 <= i < count - 1 && #[trigger] place.push(i) == before[n] && (tag_at(
                    root,
                    place.push(i),
                ) == tag) == same;
            assert(place.push(i) == children_where(root, place, tag, same, count)[n]);
        } else {
            assert(place.push(count - 1) == children_where(root, place, tag, same, count)[n]);
        }
    }
}

/// A child whose tag is as asked is among the children chosen by their tag.
pub proof fn lemma_child_chosen(
    root: Node,
    place: Path,
    tag: Seq<char>,
    same: bool,
    count: nat,
    i: int,
)
    requires
        0 <= i < count,
        (tag_at(root, place.push(i)) == tag) == same,
    ensures
        children_where(root, place, tag, same, count).contains(place.push(i)),
    decreases count,
{
    let here = children_where(root, place, tag, same, count);
    let before = children_where(root, place, tag, same, (count - 1) as nat);
    if i == count - 1 {
        assert(here[here.len() - 1] == place.push(i));
    } else {
        lemma_child_chosen(root, place, tag, same, (count - 1) as nat, i);
        let n = choose|n: int| 0 <= n < before.len() && before[n] == place.push(i);
        assert(here[n] == place.push(i));
    }
}

/// A child of a visited place that does not carry the tag is visited.
pub proof fn lemma_visit_goes_on(root: Node, start: Path, place: Path, tag: Seq<char>, i: int)
    requires
        visited(root, start, place, tag),
        0 <= i < node_at(root, place).children.len(),
        tag_at(root, place.push(i)) != tag,
    ensures
        visited(root, start, place.push(i), tag),
{
    let child = place.push(i);
    lemma_step_down(root, place, i);
    assert(child.take(start.len() as int) =~= place.take(start.len() as int));
    assert forall|k: int| start.len() < k <= child.len() implies tag_at(
        root,
        #[trigger] child.take(k),
    ) != tag by {
        if k == child.len() {
            assert(child.take(k) =~= child);
        } else {
            assert(child.take(k) =~= place.take(k));
        }
    }
}

/// The parent of a visited place below the start is visited.
pub proof fn lemma_visit_came_from(root: Node, start: Path, place: Path, tag: Seq<char>)
    requires
        visited(root, start, place, tag),
        start.len() < place.len(),
    ensures
        visited(root, start, place.drop_last(), tag),
        0 <= place.last() < node_at(root, place.drop_last()).children.len(),
        tag_at(root, place) != tag,
{
    let parent = place.drop_last();
    assert(parent.take(start.len() as int) =~= place.take(start.len() as int));
    assert forall|k: int| start.len() < k <= parent.len() implies tag_at(
        root,
        #[trigger] parent.take(k),
    ) != tag by {
        assert(parent.take(k) =~= place.take(k));
    }
    assert(place.take(place.len() as int) =~= place);
}

/// The places of a round of a descent are the visited places of its depth.
pub proof fn lemma_round_holds_visited(root: Node, start: Path, tag: Seq<char>, depth: nat, n: int)
    requires
        has_path(root, start),
        0 <= n < frontier(root, start, tag, depth).len(),
    ensures
        visited(root, start, frontier(root, start, tag, depth)[n], tag),
        frontier(root, start, tag, depth)[n].len() == start.len() + depth,
    decreases depth,
{
    if depth == 0 {
        assert(start.take(start.len() as int) =~= start);
    } else {
        let above = frontier(root, start, tag, (depth - 1) as nat);
        let each = children_untagged(root, tag);
        lemma_gather_from(above, each, n);
        let (k, i) = choose|k: int, i: int|
            0 <= k < above.len() && 0 <= i < each(above[k]).len() && gather(above, each)[n] == (
            #[trigger] each(above[k]))[i] && #[trigger] trigger_index(i);
        lemma_round_holds_visited(root, start, tag, (depth - 1) as nat, k);
        let count = node_at(root, above[k]).children.len();
        lemma_chosen_child(root, above[k], tag, false, count, i);
        let c = choose|c: int|
            0 <= c < count && #[trigger] above[k].push(c) == children_where(
                root,
                above[k],
                tag,
                false,
                count,
            )[i] && (tag_at(root, above[k].push(c)) == tag) == false;
        lemma_visit_goes_on(root, start, above[k], tag, c);
    }
}

/// A visited place is among the places of the round of its depth.
pub proof fn lemma_visited_in_round(root: Node, start: Path, tag: Seq<char>, place: Path)
    requires
        visited(root, start, place, tag),
    ensures
        frontier(root, start, tag, (place.len() - start.len()) as nat).contains(place),
    decreases place.len(),
{
    let depth = (place.len() - start.len()) as nat;
    if depth == 0 {
        assert(place.take(start.len() as int) =~= place);
        assert(frontier(root, start, tag, 0)[0] == place);
    } else {
        let parent = place.drop_last();
        lemma_visit_came_from(root, start, place, tag);
        lemma_visited_in_round(root, start, tag, parent);
        let above = frontier(root, start, tag, (depth - 1) as nat);
        let k = choose|k: int| 0 <= k < above.len() && above[k] == parent;
        let each = children_untagged(root, tag);
        let count = node_at(root, parent).children.len();
        assert(parent.push(place.last()) =~= place);
        lemma_child_chosen(root, parent, tag, false, count, place.last());
        let chosen = untagged_children(root, parent, tag);
        let i = choose|i: int| 0 <= i < chosen.len() && chosen[i] == place;
        assert(each(above[k]) == chosen);
        lemma_gather_holds(above, each, k, i);
    }
}

/// What a visit finds is a child of the visited place that carries the tag, or a grandchild of one.
pub proof fn lemma_found_by_visit(root: Node, place: Path, tag: Seq<char>, count: nat, n: int)
    requires
        has_path(root, place),
        count <= node_at(root, place).children.len(),
        0 <= n < finds_among(root, place, tag, count).len(),
    ensures
        ({
            let found = finds_among(root, place, tag, count)[n];
            &&& has_path(root, found)
            &&& place.len() < found.len()
            &&& {
                ||| found.drop_last() == place && tag_at(root, found) == tag
                ||| found.len() == place.len() as int + 3 && found.take(place.len() as int) == place
                    && tag_at(root, found.take(place.len() as int + 1)) == tag
            }
        }),
    decreases count,
{
    if count > 0 {
        let before = finds_among(root, place, tag, (count - 1) as nat);
        let child = place.push(count - 1);
        lemma_step_down(root, place, count - 1);
        if n < before.len() {
            lemma_found_by_visit(root, place, tag, (count - 1) as nat, n);
        } else if tag_at(root, child) == tag {
            let here = finds_among(root, place, tag, count);
            if n == before.len() {
                assert(here[n] == child);
                assert(child.drop_last() =~= place);
            } else {
                let m = n - before.len() - 1;
                let found = grandchildren(root, child)[m];
                assert(here[n] == found);
                lemma_gather_from(children_of(root, child), all_children(root), m);
                let (k, i) = choose|k: int, i: int|
                    0 <= k < children_of(root, child).len() && 0 <= i < all_children(root)(
                        children_of(root, child)[k],
                    ).len() && grandchildren(root, child)[m] == (#[trigger] all_children(root)(
                        children_of(root, child)[k],
                    ))[i] && #[trigger] trigger_index(i);
                lemma_step_down(root, child, k);
                lemma_step_down(root, child.push(k), i);
                assert(found == child.push(k).push(i));
                assert(found.take(place.len() as int) =~= place);
                assert(found.take(place.len() as int + 1) =~= child);
            }
        }
    }
}

/// A child of a visited place that carries the tag is found by the visit, and so are its grandchildren.
pub proof fn lemma_visit_finds(root: Node, place: Path, tag: Seq<char>, count: nat, found: Path)
    requires
        has_path(root, place),
        has_path(root, found),
        count <= node_at(root, place).children.len(),
        place.len() < found.len(),
        found.take(place.len() as int) == place,
        0 <= found[place.len() as int] < count,
        tag_at(root, found.take(place.len() as int + 1)) == tag,
        found.len() == place.len() as int + 1 || found.len() == place.len() as int + 3,
    ensures
        finds_among(root, place, tag, count).contains(found),
    decreases count,
{
    let here = finds_among(root, place, tag, count);
    let before = finds_among(root, place, tag, (count - 1) as nat);
    let child = place.push(count - 1);
    let enters = found[place.len() as int];
    assert(found.take(place.len() as int + 1) =~= place.push(enters));
    if enters < count - 1 {
        lemma_visit_finds(root, place, tag, (count - 1) as nat, found);
        let n = choose|n: int| 0 <= n < before.len() && before[n] == found;
        if tag_at(root, child) == tag {
            assert(here[n] == found);
        }
    } else {
        assert(tag_at(root, child) == tag);
        if found.len() == place.len() as int + 1 {
            assert(found =~= child);
            assert(here[before.len() as int] == found);
        } else {
            let a = found[place.len() as int + 1];
            let b = found[place.len() as int + 2];
            lemma_prefix(root, found, place.len() as int + 1);
            lemma_prefix(root, found, place.len() as int + 2);
            assert(found.take(place.len() as int + 2) =~= child.push(a));
            assert(found.take(place.len() as int + 3) =~= found);
            assert(found =~= child.push(a).push(b));
            let kids = children_of(root, child);
            assert(kids[a] == child.push(a));
            assert(all_children(root)(kids[a])[b] == found);
            lemma_gather_holds(kids, all_children(root), a, b);
            let m = choose|m: int|
                0 <= m < grandchildren(root, child).len() && grandchildren(root, child)[m] == found;
            assert(here[before.len() + 1 + m] == found);
        }
    }
}

/// What the rounds of a descent find is reached by the descent.
pub proof fn lemma_found_is_reached(root: Node, start: Path, tag: Seq<char>, rounds: nat, n: int)
    requires
        has_path(root, start),
        0 <= n < finds_before(root, start, tag, rounds).len(),
    ensures
        reached(root, start, finds_before(root, start, tag, rounds)[n], tag),
    decreases rounds,
{
    if rounds > 0 {
        let before = finds_before(root, start, tag, (rounds - 1) as nat);
        let round = frontier(root, start, tag, (rounds - 1) as nat);
        let each = finds(root, tag);
        if n < before.len() {
            lemma_found_is_reached(root, start, tag, (rounds - 1) as nat, n);
        } else {
            let m = n - before.len();
            lemma_gather_from(round, each, m);
            let (k, i) = choose|k: int, i: int|
                0 <= k < round.len() && 0 <= i < each(round[k]).len() && gather(round, each)[m] == (
                #[trigger] each(round[k]))[i] && #[trigger] trigger_index(i);
            let place = round[k];
            let found = finds_at(root, place, tag)[i];
            lemma_round_holds_visited(root, start, tag, (rounds - 1) as nat, k);
            lemma_found_by_visit(root, place, tag, node_at(root, place).children.len(), i);
            if found.drop_last() == place && tag_at(root, found) == tag {
                assert(matched(root, start, found, tag));
            } else {
                let child = found.take(place.len() as int + 1);
                lemma_prefix(root, found, place.len() as int + 1);
                assert(child.drop_last() =~= found.take(place.len() as int));
                assert(found.take(found.len() as int - 2) == child);
                assert(matched(root, start, child, tag));
            }
        }
    }
}

/// What is found in a round is found in all rounds up to a later one.
pub proof fn lemma_found_stays(root: Node, start: Path, tag: Seq<char>, round: nat, rounds: nat, found: Path)
    requires
        round < rounds,
        gather(frontier(root, start, tag, round), finds(root, tag)).contains(found),
    ensures
        finds_before(root, start, tag, rounds).contains(found),
    decreases rounds,
{
    let before = finds_before(root, start, tag, (rounds - 1) as nat);
    let last = gather(frontier(root, start, tag, (rounds - 1) as nat), finds(root, tag));
    if round == rounds - 1 {
        let n = choose|n: int| 0 <= n < last.len() && last[n] == found;
        assert((before + last)[before.len() + n] == found);
    } else {
        lemma_found_stays(root, start, tag, round, (rounds - 1) as nat, found);
        let n = choose|n: int| 0 <= n < before.len() && before[n] == found;
        assert((before + last)[n] == found);
    }
}

/// A match of a descent, or a grandchild of one, is found by the visit of the match's parent.
proof fn lemma_reached_is_found(root: Node, start: Path, tag: Seq<char>, found: Path, hit: Path)
    requires
        has_path(root, start),
        has_path(root, found),
        matched(root, start, hit, tag),
        found == hit || (found.len() == hit.len() + 2 && found.take(hit.len() as int) == hit),
    ensures
        descent(root, start, tag).contains(found),
{
    let place = hit.drop_last();
    let round = (place.len() - start.len()) as nat;
    lemma_visited_in_round(root, start, tag, place);
    let row = frontier(root, start, tag, round);
    let k = choose|k: int| 0 <= k < row.len() && row[k] == place;
    assert(found.take(place.len() as int) =~= place) by {
        assert(hit.take(place.len() as int) =~= place);
        if found != hit {
            assert(found.take(place.len() as int) =~= hit.take(place.len() as int));
        }
    }
    assert(found.take(place.len() as int + 1) =~= hit) by {
        assert(hit.take(place.len() as int + 1) =~= hit);
    }
    assert(found[place.len() as int] == hit.last());
    lemma_visit_finds(root, place, tag, node_at(root, place).children.len(), found);
    let each = finds(root, tag);
    let seen = finds_at(root, place, tag);
    let i = choose|i: int| 0 <= i < seen.len() && seen[i] == found;
    assert(each(row[k]) == seen);
    lemma_gather_holds(row, each, k, i);
    lemma_depth_bound(root, hit);
    lemma_found_stays(root, start, tag, round, height(root) + 1, found);
}

/// What a descent finds: exactly its matches and their grandchildren. A
/// match is a place that carries the tag below a way down from the start on
/// which no place below the start carries it.
pub proof fn lemma_descent_finds_what_is_reached(root: Node, start: Path, tag: Seq<char>, place: Path)
    requires
        has_path(root, start),
    ensures
        descent(root, start, tag).contains(place) <==> reached(root, start, place, tag),
{
    if descent(root, start, tag).contains(place) {
        let all = descent(root, start, tag);
        let n = choose|n: int| 0 <= n < all.len() && all[n] == place;
        lemma_found_is_reached(root, start, tag, height(root) + 1, n);
    }
    if reached(root, start, place, tag) {
        if matched(root, start, place, tag) {
            lemma_reached_is_found(root, start, tag, place, place);
        } else {
            let hit = place.take(place.len() as int - 2);
            assert(place.take(hit.len() as int) == hit);
            lemma_reached_is_found(root, start, tag, place, hit);
        }
    }
}

} // verus!
