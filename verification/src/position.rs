use crate::element::{lemma_children, Element, Node};
use vstd::prelude::*;

verus! {

/// A place in a tree: the child indices on the way down from the root.
/// The empty path is the root itself. Two places are the same node exactly
/// when their paths are equal.
pub type Path = Seq<int>;

/// The node at `path` below `root`. Meaningful where `has_path` holds.
pub open spec fn node_at(root: Node, path: Path) -> Node
    decreases path.len(),
{
    if path.len() == 0 {
        root
    } else {
        node_at(root, path.drop_last()).children[path.last()]
    }
}

/// Whether `path` leads to a node of the tree under `root`.
pub open spec fn has_path(root: Node, path: Path) -> bool
    decreases path.len(),
{
    path.len() == 0 || (has_path(root, path.drop_last()) && 0 <= path.last() < node_at(
        root,
        path.drop_last(),
    ).children.len())
}

/// The tag of the node at `path`.
pub open spec fn tag_at(root: Node, path: Path) -> Seq<char> {
    node_at(root, path).tag
}

/// The number of levels below `node`: 0 for a node without children.
pub open spec fn height(node: Node) -> nat
    decreases node,
{
    tallest(node.children, node.children.len())
}

/// One more than the greatest height among the first `count` of `children`, or 0 if `count` is 0.
pub open spec fn tallest(children: Seq<Node>, count: nat) -> nat
    decreases children, count,
{
    if count == 0 || count > children.len() {
        0
    } else {
        let here = 1 + height(children[count - 1]);
        let before = tallest(children, (count - 1) as nat);
        if here > before {
            here
        } else {
            before
        }
    }
}

/// Going one step further down from a place of the tree stays in the tree.
pub proof fn lemma_step_down(root: Node, path: Path, i: int)
    requires
        has_path(root, path),
        0 <= i < node_at(root, path).children.len(),
    ensures
        has_path(root, path.push(i)),
        node_at(root, path.push(i)) == node_at(root, path).children[i],
{
    assert(path.push(i).drop_last() =~= path);
}

/// Every prefix of a path of the tree is a path of the tree.
pub proof fn lemma_prefix(root: Node, path: Path, n: int)
    requires
        has_path(root, path),
        0 <= n <= path.len(),
    ensures
        has_path(root, path.take(n)),
        n < path.len() ==> 0 <= path[n] < node_at(root, path.take(n)).children.len() && node_at(
            root,
            path.take(n + 1),
        ) == node_at(root, path.take(n)).children[path[n]],
    decreases path.len(),
{
    if n == path.len() {
        assert(path.take(n) =~= path);
    } else {
        lemma_prefix(root, path.drop_last(), if n < path.len() - 1 { n } else { path.len() - 1 });
        assert(path.drop_last().take(n) =~= path.take(n));
        if n < path.len() - 1 {
            assert(path.drop_last().take(n + 1) =~= path.take(n + 1));
        } else {
            assert(path.take(n) =~= path.drop_last());
            assert(path.take(n + 1) =~= path);
        }
    }
}

/// A path of the tree, read from its first step: it enters a child and goes on below it.
pub proof fn lemma_first_step(root: Node, path: Path)
    requires
        has_path(root, path),
        path.len() > 0,
    ensures
        0 <= path[0] < root.children.len(),
        has_path(root.children[path[0]], path.drop_first()),
        node_at(root, path) == node_at(root.children[path[0]], path.drop_first()),
    decreases path.len(),
{
    if path.len() == 1 {
        assert(path.drop_last() =~= Seq::<int>::empty());
        assert(path.drop_first() =~= Seq::<int>::empty());
    } else {
        lemma_first_step(root, path.drop_last());
        assert(path.drop_first().drop_last() =~= path.drop_last().drop_first());
    }
}

/// `tallest` bounds the height of each child it covers.
pub proof fn lemma_tallest(children: Seq<Node>, count: nat, i: int)
    requires
        0 <= i < count <= children.len(),
    ensures
        height(children[i]) < tallest(children, count),
    decreases count,
{
    if i < count - 1 {
        lemma_tallest(children, (count - 1) as nat, i);
    }
}

/// No path of the tree is longer than the tree is high.
pub proof fn lemma_depth_bound(root: Node, path: Path)
    requires
        has_path(root, path),
    ensures
        path.len() <= height(root),
    decreases path.len(),
{
    if path.len() > 0 {
        lemma_first_step(root, path);
        lemma_depth_bound(root.children[path[0]], path.drop_first());
        lemma_tallest(root.children, root.children.len(), path[0]);
    }
}

/// A node found in a tree, together with its place.
pub struct Hit<'a> {
    /// The element at the place.
    pub node: &'a Element,
    /// The child indices from the root down to the element.
    pub path: Vec<usize>,
}

impl<'a> Hit<'a> {
    /// The place of the hit.
    pub open spec fn place(self) -> Path {
        self.path@.map_values(|i: usize| i as int)
    }

    /// Whether the hit lies in the tree under `root`, with the element that stands at its place.
    pub open spec fn anchored(self, root: Node) -> bool {
        has_path(root, self.place()) && self.node@ == node_at(root, self.place())
    }

    /// The hit for the root itself.
    pub fn at_root(root: &'a Element) -> (hit: Hit<'a>)
        ensures
            hit.place() == Seq::<int>::empty(),
            hit.node == root,
            hit.anchored(root@),
    {
        let hit = Hit { node: root, path: Vec::new() };
        assert(hit.place() =~= Seq::<int>::empty());
        hit
    }

    /// The hit for the child at index `i`.
    pub fn child(&self, i: usize) -> (hit: Hit<'a>)
        requires
            i < self.node.children@.len(),
        ensures
            hit.place() == self.place().push(i as int),
            hit.node == self.node.children@[i as int],
            forall|root: Node| #[trigger] self.anchored(root) ==> hit.anchored(root),
    {
        let mut path: Vec<usize> = Vec::new();
        let mut k: usize = 0;
        while k < self.path.len()
            invariant
                k <= self.path@.len(),
                path@ == self.path@.take(k as int),
            decreases self.path@.len() - k,
        {
            path.push(self.path[k]);
            assert(path@ =~= self.path@.take(k + 1));
            k += 1;
        }
        assert(path@ =~= self.path@);
        path.push(i);
        let hit = Hit { node: &self.node.children[i], path };
        proof {
            assert(hit.place() =~= self.place().push(i as int));
            lemma_children(*self.node);
            assert forall|root: Node| #[trigger] self.anchored(root) implies hit.anchored(root) by {
                lemma_step_down(root, self.place(), i as int);
            }
        }
        hit
    }

    /// A second handle on the same node.
    pub fn copy(&self) -> (hit: Hit<'a>)
        ensures
            hit.place() == self.place(),
            hit.node == self.node,
    {
        let mut path: Vec<usize> = Vec::new();
        let mut k: usize = 0;
        while k < self.path.len()
            invariant
                k <= self.path@.len(),
                path@ == self.path@.take(k as int),
            decreases self.path@.len() - k,
        {
            path.push(self.path[k]);
            assert(path@ =~= self.path@.take(k + 1));
            k += 1;
        }
        assert(path@ =~= self.path@);
        Hit { node: self.node, path }
    }

    /// The hit `levels` steps up from this one.
    pub fn ancestor(&self, root: &'a Element, levels: usize) -> (hit: Hit<'a>)
        requires
            self.anchored(root@),
            levels <= self.place().len(),
        ensures
            hit.place() == self.place().take(self.place().len() - levels),
            hit.anchored(root@),
    {
        let keep = self.path.len() - levels;
        let mut hit = Hit::at_root(root);
        let mut k: usize = 0;
        assert(self.place().take(0) =~= Seq::<int>::empty());
        while k < keep
            invariant
                k <= keep <= self.path@.len(),
                self.anchored(root@),
                hit.place() == self.place().take(k as int),
                hit.anchored(root@),
            decreases keep - k,
        {
            proof {
                lemma_prefix(root@, self.place(), k as int);
                lemma_children(*hit.node);
            }
            hit = hit.child(self.path[k]);
            assert(hit.place() =~= self.place().take(k + 1));
            k += 1;
        }
        hit
    }
}

/// The places of a run of hits, in order.
pub open spec fn places<'a>(hits: Seq<Hit<'a>>) -> Seq<Path> {
    hits.map_values(|hit: Hit<'a>| hit.place())
}

/// Whether every hit of a run lies in the tree under `root`.
pub open spec fn all_anchored<'a>(hits: Seq<Hit<'a>>, root: Node) -> bool {
    forall|i: int| 0 <= i < hits.len() ==> (#[trigger] hits[i]).anchored(root)
}

} // verus!
