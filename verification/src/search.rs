use crate::element::Node;
use crate::position::{has_path, height, node_at, places, tag_at, Hit, Path};
use vstd::prelude::*;

verus! {

/// What `each` yields for the places of a run, one after the other.
pub open spec fn gather(run: Seq<Path>, each: spec_fn(Path) -> Seq<Path>) -> Seq<Path>
    decreases run.len(),
{
    if run.len() == 0 {
        Seq::empty()
    } else {
        gather(run.drop_last(), each) + each(run.last())
    }
}

/// The places of the children of `place`, in document order.
pub open spec fn children_of(root: Node, place: Path) -> Seq<Path> {
    Seq::new(node_at(root, place).children.len(), |i: int| place.push(i))
}

/// Among the first `count` children of `place`, in document order, those
/// whose tag is `tag` (if `same`) or is not `tag` (if not `same`).
pub open spec fn children_where(root: Node, place: Path, tag: Seq<char>, same: bool, count: nat) -> Seq<
    Path,
>
    decreases count,
{
    if count == 0 {
        Seq::empty()
    } else {
        let before = children_where(root, place, tag, same, (count - 1) as nat);
        let child = place.push(count - 1);
        if (tag_at(root, child) == tag) == same {
            before.push(child)
        } else {
            before
        }
    }
}

/// The children of `place` that carry `tag`, in document order.
pub open spec fn tagged_children(root: Node, place: Path, tag: Seq<char>) -> Seq<Path> {
    children_where(root, place, tag, true, node_at(root, place).children.len())
}

/// The children of `place` that do not carry `tag`, in document order.
pub open spec fn untagged_children(root: Node, place: Path, tag: Seq<char>) -> Seq<Path> {
    children_where(root, place, tag, false, node_at(root, place).children.len())
}

/// The children of the children of `place`, in document order.
pub open spec fn grandchildren(root: Node, place: Path) -> Seq<Path> {
    gather(children_of(root, place), all_children(root))
}

/// What a visit of `place` finds among its first `count` children: each child
/// that carries `tag`, followed by that child's grandchildren.
pub open spec fn finds_among(root: Node, place: Path, tag: Seq<char>, count: nat) -> Seq<Path>
    decreases count,
{
    if count == 0 {
        Seq::empty()
    } else {
        let before = finds_among(root, place, tag, (count - 1) as nat);
        let child = place.push(count - 1);
        if tag_at(root, child) == tag {
            before.push(child) + grandchildren(root, child)
        } else {
            before
        }
    }
}

/// What a visit of `place` finds among its children.
pub open spec fn finds_at(root: Node, place: Path, tag: Seq<char>) -> Seq<Path> {
    finds_among(root, place, tag, node_at(root, place).children.len())
}

/// `children_of`, for use with `gather`.
pub open spec fn all_children(root: Node) -> spec_fn(Path) -> Seq<Path> {
    |place: Path| children_of(root, place)
}

/// `tagged_children`, for use with `gather`.
pub open spec fn children_tagged(root: Node, tag: Seq<char>) -> spec_fn(Path) -> Seq<Path> {
    |place: Path| tagged_children(root, place, tag)
}

/// `untagged_children`, for use with `gather`.
pub open spec fn children_untagged(root: Node, tag: Seq<char>) -> spec_fn(Path) -> Seq<Path> {
    |place: Path| untagged_children(root, place, tag)
}

/// `finds_at`, for use with `gather`.
pub open spec fn finds(root: Node, tag: Seq<char>) -> spec_fn(Path) -> Seq<Path> {
    |place: Path| finds_at(root, place, tag)
}

/// The first place of a run that carries `tag`.
pub open spec fn first_tagged_in(root: Node, run: Seq<Path>, tag: Seq<char>) -> Option<Path>
    decreases run.len(),
{
    if run.len() == 0 {
        None
    } else {
        match first_tagged_in(root, run.drop_last(), tag) {
            Some(place) => Some(place),
            None => if tag_at(root, run.last()) == tag {
                Some(run.last())
            } else {
                None
            },
        }
    }
}

/// The places `depth` steps below the root, from left to right.
pub open spec fn level(root: Node, depth: nat) -> Seq<Path>
    decreases depth,
{
    if depth == 0 {
        seq![Seq::<int>::empty()]
    } else {
        gather(level(root, (depth - 1) as nat), all_children(root))
    }
}

/// The places from one step to `depth` steps below the root in breadth-first
/// order: the shallower first, and those of one depth from left to right.
pub open spec fn levels_through(root: Node, depth: nat) -> Seq<Path>
    decreases depth,
{
    if depth == 0 {
        Seq::empty()
    } else {
        levels_through(root, (depth - 1) as nat) + level(root, depth)
    }
}

/// The first place below the root, in breadth-first order, that carries `tag`.
pub open spec fn first_tagged(root: Node, tag: Seq<char>) -> Option<Path> {
    first_tagged_in(root, levels_through(root, height(root)), tag)
}

/// The places that a descent from `start` visits in its round `depth`: those
/// `depth` steps below `start` on whose way down from `start` no node carries `tag`.
pub open spec fn frontier(root: Node, start: Path, tag: Seq<char>, depth: nat) -> Seq<Path>
    decreases depth,
{
    if depth == 0 {
        seq![start]
    } else {
        gather(frontier(root, start, tag, (depth - 1) as nat), children_untagged(root, tag))
    }
}

/// What the first `rounds` rounds of a descent from `start` find, in the order of the visits.
pub open spec fn finds_before(root: Node, start: Path, tag: Seq<char>, rounds: nat) -> Seq<Path>
    decreases rounds,
{
    if rounds == 0 {
        Seq::empty()
    } else {
        finds_before(root, start, tag, (rounds - 1) as nat) + gather(
            frontier(root, start, tag, (rounds - 1) as nat),
            finds(root, tag),
        )
    }
}

/// What a breadth-first descent from `start` finds: a visited node yields each
/// child that carries `tag`, followed by that child's grandchildren, and the
/// descent goes on below the other children only.
pub open spec fn descent(root: Node, start: Path, tag: Seq<char>) -> Seq<Path> {
    finds_before(root, start, tag, height(root) + 1)
}

/// The ancestors of `place`, the nearest first and the root last.
pub open spec fn ancestors(place: Path) -> Seq<Path> {
    Seq::new(place.len(), |k: int| place.take(place.len() - 1 - k))
}

/// Whether every place of a run lies in the tree under `root`.
pub open spec fn all_in_tree(root: Node, run: Seq<Path>) -> bool {
    forall|i: int| 0 <= i < run.len() ==> has_path(root, #[trigger] run[i])
}

/// Whether every place of a run has `length` steps.
pub open spec fn all_of_length(run: Seq<Path>, length: nat) -> bool {
    forall|i: int| 0 <= i < run.len() ==> (#[trigger] run[i]).len() == length
}

pub proof fn lemma_gather_push(run: Seq<Path>, place: Path, each: spec_fn(Path) -> Seq<Path>)
    ensures
        gather(run.push(place), each) == gather(run, each) + each(place),
{
    assert(run.push(place).drop_last() =~= run);
}

/// The places of two runs of hits one after the other.
pub proof fn lemma_places_add<'a>(front: Seq<Hit<'a>>, back: Seq<Hit<'a>>)
    ensures
        places(front + back) == places(front) + places(back),
{
    assert(places(front + back) =~= places(front) + places(back));
}

/// The places of a run of hits with one more hit.
pub proof fn lemma_places_push<'a>(front: Seq<Hit<'a>>, hit: Hit<'a>)
    ensures
        places(front.push(hit)) == places(front).push(hit.place()),
{
    assert(places(front.push(hit)) =~= places(front).push(hit.place()));
}

/// A run's first tagged place is that of any prefix which has one.
pub proof fn lemma_first_tagged_stays(root: Node, run: Seq<Path>, tag: Seq<char>, n: int)
    requires
        0 <= n <= run.len(),
        first_tagged_in(root, run.take(n), tag) is Some,
    ensures
        first_tagged_in(root, run, tag) == first_tagged_in(root, run.take(n), tag),
    decreases run.len() - n,
{
    if n < run.len() {
        assert(run.take(n + 1).drop_last() =~= run.take(n));
        lemma_first_tagged_stays(root, run, tag, n + 1);
    } else {
        assert(run.take(n) =~= run);
    }
}

/// The first tagged place of two runs one after the other.
pub proof fn lemma_first_tagged_add(root: Node, front: Seq<Path>, back: Seq<Path>, tag: Seq<char>)
    ensures
        first_tagged_in(root, front + back, tag) == match first_tagged_in(root, front, tag) {
            Some(place) => Some(place),
            None => first_tagged_in(root, back, tag),
        },
    decreases back.len(),
{
    if back.len() == 0 {
        assert(front + back =~= front);
    } else {
        assert((front + back).drop_last() =~= front + back.drop_last());
        lemma_first_tagged_add(root, front, back.drop_last(), tag);
    }
}

/// What `first_tagged_in` returns: nothing where no place of the run carries
/// the tag, and else the place before which none does.
pub proof fn lemma_first_tagged_in(root: Node, run: Seq<Path>, tag: Seq<char>)
    ensures
        match first_tagged_in(root, run, tag) {
            Some(place) => exists|i: int|
                0 <= i < run.len() && run[i] == place && tag_at(root, place) == tag && forall|j: int|
                    0 <= j < i ==> tag_at(root, #[trigger] run[j]) != tag,
            None => forall|j: int| 0 <= j < run.len() ==> tag_at(root, #[trigger] run[j]) != tag,
        },
    decreases run.len(),
{
    if run.len() > 0 {
        let front = run.drop_last();
        lemma_first_tagged_in(root, front, tag);
        match first_tagged_in(root, front, tag) {
            Some(place) => {
                let i = choose|i: int|
                    0 <= i < front.len() && front[i] == place && tag_at(root, place) == tag && forall|j: int|
                        0 <= j < i ==> tag_at(root, #[trigger] front[j]) != tag;
                assert(run[i] == place);
                assert forall|j: int| 0 <= j < i implies tag_at(root, #[trigger] run[j]) != tag by {
                    assert(run[j] == front[j]);
                }
            },
            None => {
                assert forall|j: int| 0 <= j < run.len() - 1 implies tag_at(root, #[trigger] run[j])
                    != tag by {
                    assert(run[j] == front[j]);
                }
                if tag_at(root, run.last()) == tag {
                    assert(run[run.len() - 1] == run.last());
                }
            },
        }
    }
}

} // verus!
