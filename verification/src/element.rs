use crate::attributes::Attributes;
use vstd::prelude::*;
use vstd::string::StringExecFns;

verus! {

/// An element of a document tree.
#[derive(Debug, PartialEq, Eq)]
pub struct Element {
    /// The prefix of the tag, if it has one: `xsl` in `xsl:for-each`.
    pub namespace: Option<String>,
    /// The tag name: `for-each` in `xsl:for-each`.
    pub tag: String,
    /// The attributes, by name.
    pub attributes: Attributes,
    /// The child elements, in document order.
    pub children: Vec<Element>,
    /// The text content.
    pub text: Option<String>,
    /// The character data content.
    pub cdata: Option<String>,
}

/// A node of a document tree as a mathematical value: the view of [`Element`].
pub ghost struct Node {
    pub namespace: Option<Seq<char>>,
    pub tag: Seq<char>,
    pub attributes: Map<Seq<char>, Seq<char>>,
    pub children: Seq<Node>,
    pub text: Option<Seq<char>>,
    pub cdata: Option<Seq<char>>,
}

/// The characters of an optional string.
pub open spec fn text_of(content: Option<String>) -> Option<Seq<char>> {
    match content {
        Some(text) => Some(text@),
        None => None,
    }
}

/// The node that an element stands for.
pub open spec fn node_of(element: Element) -> Node
    decreases element,
{
    Node {
        namespace: text_of(element.namespace),
        tag: element.tag@,
        attributes: element.attributes@,
        children: nodes_of(element.children@),
        text: text_of(element.text),
        cdata: text_of(element.cdata),
    }
}

/// The nodes that a run of elements stands for, in order.
pub open spec fn nodes_of(elements: Seq<Element>) -> Seq<Node>
    decreases elements,
{
    if elements.len() == 0 {
        Seq::empty()
    } else {
        nodes_of(elements.drop_last()).push(node_of(elements.last()))
    }
}

impl View for Element {
    type V = Node;

    open spec fn view(&self) -> Node {
        node_of(*self)
    }
}

/// `nodes_of` keeps length and order.
pub proof fn lemma_nodes_of(elements: Seq<Element>)
    ensures
        nodes_of(elements).len() == elements.len(),
        forall|i: int| 0 <= i < elements.len() ==> #[trigger] nodes_of(elements)[i] == elements[i]@,
    decreases elements.len(),
{
    if elements.len() > 0 {
        lemma_nodes_of(elements.drop_last());
    }
}

/// The children of an element's node are the nodes of its children.
pub proof fn lemma_children(element: Element)
    ensures
        element@.children.len() == element.children@.len(),
        forall|i: int|
            0 <= i < element.children@.len() ==> #[trigger] element@.children[i] == element.children@[i]@,
{
    lemma_nodes_of(element.children@);
}

/// Copies an optional string.
pub fn copy_text(content: &Option<String>) -> (copy: Option<String>)
    ensures
        text_of(copy) == text_of(*content),
{
    match content {
        Some(text) => Some(text.clone()),
        None => None,
    }
}

impl Clone for Element {
    fn clone(&self) -> (copy: Element)
        ensures
            copy@ == self@,
        decreases self,
    {
        let mut children: Vec<Element> = Vec::new();
        let mut i: usize = 0;
        while i < self.children.len()
            invariant
                i <= self.children@.len(),
                children@.len() == i,
                forall|j: int| 0 <= j < i ==> (#[trigger] children@[j])@ == self.children@[j]@,
            decreases self.children@.len() - i,
        {
            let child = self.children[i].clone();
            children.push(child);
            i += 1;
        }
        let copy = Element {
            namespace: copy_text(&self.namespace),
            tag: self.tag.clone(),
            attributes: self.attributes.clone(),
            children,
            text: copy_text(&self.text),
            cdata: copy_text(&self.cdata),
        };
        proof {
            lemma_children(copy);
            lemma_children(*self);
            assert(copy@.children =~= self@.children);
        }
        copy
    }
}

impl Default for Element {
    /// An element named `tag` with nothing in it.
    fn default() -> (element: Element)
        ensures
            element@ == (Node {
                namespace: None,
                tag: "tag"@,
                attributes: Map::empty(),
                children: Seq::empty(),
                text: None,
                cdata: None,
            }),
    {
        Element {
            namespace: None,
            tag: String::from_str("tag"),
            attributes: Attributes::new(),
            children: Vec::new(),
            text: None,
            cdata: None,
        }
    }
}

impl Element {
    /// An element named `name` with nothing in it.
    pub fn new(name: &str) -> (element: Element)
        ensures
            element@ == (Node {
                namespace: None,
                tag: name@,
                attributes: Map::empty(),
                children: Seq::empty(),
                text: None,
                cdata: None,
            }),
    {
        Element {
            namespace: None,
            tag: String::from_str(name),
            attributes: Attributes::new(),
            children: Vec::new(),
            text: None,
            cdata: None,
        }
    }
}

/// Whether a predicate may be asked about `element`.
pub open spec fn asks<P: Fn(&&Element) -> bool>(predicate: P, element: Element) -> bool {
    call_requires(predicate, (&(&element),))
}

/// Whether a predicate may answer `answer` when asked about `element`.
pub open spec fn answers_to<P: Fn(&&Element) -> bool>(predicate: P, element: Element, answer: bool) -> bool {
    call_ensures(predicate, (&(&element),), answer)
}

/// Whether `found` are the elements of `children` at the indices `kept`,
/// the indices rise, and the predicate accepts the elements at these indices
/// and no other element of `children`.
pub open spec fn selects<P: Fn(&&Element) -> bool>(
    predicate: P,
    children: Seq<Element>,
    kept: Seq<int>,
    found: Seq<&Element>,
) -> bool {
    &&& kept.len() == found.len()
    &&& forall|k: int|
        0 <= k < kept.len() ==> 0 <= #[trigger] kept[k] < children.len() && *found[k]
            == children[kept[k]] && answers_to(predicate, children[kept[k]], true)
    &&& forall|a: int, b: int| 0 <= a < b < kept.len() ==> kept[a] < kept[b]
    &&& forall|j: int|
        0 <= j < children.len() && !kept.contains(j) ==> answers_to(
            predicate,
            #[trigger] children[j],
            false,
        )
}

impl Element {
    /// The first child that the predicate accepts, in document order.
    pub fn find_child<P>(&self, predicate: P) -> (found: Option<&Element>) where
        P: Fn(&&Element) -> bool,

        requires
            forall|i: int| 0 <= i < self.children@.len() ==> asks(predicate, #[trigger] self.children@[i]),
        ensures
            match found {
                Some(child) => exists|i: int|
                    0 <= i < self.children@.len() && *child == #[trigger] self.children@[i]
                        && answers_to(predicate, self.children@[i], true) && forall|j: int|
                        0 <= j < i ==> answers_to(predicate, #[trigger] self.children@[j], false),
                None => forall|j: int|
                    0 <= j < self.children@.len() ==> answers_to(
                        predicate,
                        #[trigger] self.children@[j],
                        false,
                    ),
            },
    {
        let mut i: usize = 0;
        while i < self.children.len()
            invariant
                i <= self.children@.len(),
                forall|k: int|
                    0 <= k < self.children@.len() ==> asks(predicate, #[trigger] self.children@[k]),
                forall|j: int| 0 <= j < i ==> answers_to(predicate, #[trigger] self.children@[j], false),
            decreases self.children@.len() - i,
        {
            let child = &self.children[i];
            if predicate(&child) {
                return Some(child);
            }
            i += 1;
        }
        None
    }

    /// The first child that the predicate accepts, in document order, for change in place.
    pub fn find_child_mut<P>(&mut self, predicate: P) -> (found: Option<&mut Element>) where
        P: Fn(&&Element) -> bool,

        requires
            forall|i: int|
                0 <= i < old(self).children@.len() ==> asks(predicate, #[trigger] old(self).children@[i]),
        ensures
            match found {
                Some(child) => exists|i: int|
                    0 <= i < old(self).children@.len() && *child == #[trigger] old(self).children@[i]
                        && answers_to(predicate, old(self).children@[i], true) && (forall|j: int|
                        0 <= j < i ==> answers_to(predicate, #[trigger] old(self).children@[j], false))
                        && final(self).children@ == old(self).children@.update(i, *final(child)),
                None => final(self).children@ == old(self).children@ && forall|j: int|
                    0 <= j < old(self).children@.len() ==> answers_to(
                        predicate,
                        #[trigger] old(self).children@[j],
                        false,
                    ),
            },
            final(self).namespace == old(self).namespace,
            final(self).tag == old(self).tag,
            final(self).attributes == old(self).attributes,
            final(self).text == old(self).text,
            final(self).cdata == old(self).cdata,
    {
        let mut at: Option<usize> = None;
        let mut i: usize = 0;
        while i < self.children.len()
            invariant_except_break
                at is None,
                forall|j: int| 0 <= j < i ==> answers_to(predicate, #[trigger] self.children@[j], false),
            invariant
                i <= self.children@.len(),
                *self == *old(self),
                forall|k: int|
                    0 <= k < self.children@.len() ==> asks(predicate, #[trigger] self.children@[k]),
            ensures
                match at {
                    Some(k) => k < self.children@.len() && answers_to(
                        predicate,
                        self.children@[k as int],
                        true,
                    ) && forall|j: int|
                        0 <= j < k ==> answers_to(predicate, #[trigger] self.children@[j], false),
                    None => forall|j: int|
                        0 <= j < self.children@.len() ==> answers_to(
                            predicate,
                            #[trigger] self.children@[j],
                            false,
                        ),
                },
            decreases self.children@.len() - i,
        {
            let child = &self.children[i];
            if predicate(&child) {
                at = Some(i);
                break;
            }
            i += 1;
        }
        match at {
            Some(k) => Some(&mut self.children[k]),
            None => None,
        }
    }

    /// The children that the predicate accepts, in document order.
    pub fn filter_children<P>(&self, predicate: P) -> (found: Vec<&Element>) where
        P: Fn(&&Element) -> bool,

        requires
            forall|i: int| 0 <= i < self.children@.len() ==> asks(predicate, #[trigger] self.children@[i]),
        ensures
            exists|kept: Seq<int>| #[trigger] selects(predicate, self.children@, kept, found@),
    {
        let mut found: Vec<&Element> = Vec::new();
        let ghost mut kept: Seq<int> = Seq::empty();
        let mut i: usize = 0;
        while i < self.children.len()
            invariant
                i <= self.children@.len(),
                forall|k: int|
                    0 <= k < self.children@.len() ==> asks(predicate, #[trigger] self.children@[k]),
                kept.len() == found@.len(),
                forall|k: int|
                    0 <= k < kept.len() ==> 0 <= #[trigger] kept[k] < i && *found@[k]
                        == self.children@[kept[k]] && answers_to(
                        predicate,
                        self.children@[kept[k]],
                        true,
                    ),
                forall|a: int, b: int| 0 <= a < b < kept.len() ==> kept[a] < kept[b],
                forall|j: int|
                    0 <= j < i && !kept.contains(j) ==> answers_to(
                        predicate,
                        #[trigger] self.children@[j],
                        false,
                    ),
            decreases self.children@.len() - i,
        {
            let child = &self.children[i];
            let ghost before = kept;
            if predicate(&child) {
                found.push(child);
                proof {
                    kept = kept.push(i as int);
                    assert forall|j: int| 0 <= j < i + 1 && !kept.contains(j) implies answers_to(
                        predicate,
                        #[trigger] self.children@[j],
                        false,
                    ) by {
                        if j == i {
                            assert(kept[kept.len() - 1] == j);
                        } else if before.contains(j) {
                            let k = choose|k: int| 0 <= k < before.len() && before[k] == j;
                            assert(kept[k] == j);
                        }
                    }
                }
            }
            i += 1;
        }
        assert(selects(predicate, self.children@, kept, found@));
        found
    }
}

/// Whether `lent` are the elements of `before` at the rising indices `kept`,
/// the predicate accepts the elements at these indices and no other, and
/// `after` is `before` with `left` in the place of `lent`.
pub open spec fn lends<P: Fn(&&Element) -> bool>(
    predicate: P,
    before: Seq<Element>,
    after: Seq<Element>,
    kept: Seq<int>,
    lent: Seq<Element>,
    left: Seq<Element>,
) -> bool {
    &&& after.len() == before.len()
    &&& kept.len() == lent.len()
    &&& kept.len() == left.len()
    &&& forall|k: int|
        0 <= k < kept.len() ==> 0 <= #[trigger] kept[k] < before.len() && lent[k]
            == before[kept[k]] && answers_to(predicate, before[kept[k]], true) && after[kept[k]]
            == left[k]
    &&& forall|a: int, b: int| 0 <= a < b < kept.len() ==> kept[a] < kept[b]
    &&& forall|j: int|
        0 <= j < before.len() && !kept.contains(j) ==> answers_to(
            predicate,
            #[trigger] before[j],
            false,
        ) && after[j] == before[j]
}

/// What the borrows from index `from` on hold now.
pub open spec fn held(found: Seq<&mut Element>, from: int) -> Seq<Element> {
    Seq::new((found.len() - from) as nat, |k: int| *found[from + k])
}

/// Lends out the elements of a slice that the predicate accepts, in order, behind those lent before.
fn lend_accepted<'a, P>(slice: &'a mut [Element], predicate: &P, found: &mut Vec<&'a mut Element>) where
    P: Fn(&&Element) -> bool,

    requires
        forall|i: int| 0 <= i < old(slice)@.len() ==> asks(*predicate, #[trigger] old(slice)@[i]),
    ensures
        final(found)@.len() >= old(found)@.len(),
        final(found)@.take(old(found)@.len() as int) == old(found)@,
        exists|kept: Seq<int>, left: Seq<Element>|
            {
                &&& #[trigger] lends(
                    *predicate,
                    old(slice)@,
                    final(slice)@,
                    kept,
                    held(final(found)@, old(found)@.len() as int),
                    left,
                )
                &&& forall|k: int|
                    0 <= k < left.len() ==> #[trigger] left[k] == *final(final(found)@[old(found)@.len() + k])
            },
    decreases old(slice)@.len(),
{
    let ghost before = slice@;
    let ghost after = final(slice)@;
    let ghost had = found@;
    if slice.len() == 0 {
        proof {
            assert(found@.take(had.len() as int) =~= had);
            assert(found@.skip(had.len() as int) =~= Seq::<&mut Element>::empty());
            assert(lends(
                *predicate,
                before,
                after,
                Seq::<int>::empty(),
                held(found@, had.len() as int),
                Seq::<Element>::empty(),
            ));
        }
        return;
    }
    let (head, tail) = slice.split_at_mut(1);
    let ghost rest = tail@;
    let ghost lone = head@;
    let ghost rest_after = final(tail)@;
    let ghost lone_after = final(head)@;
    assert(after =~= lone_after + rest_after);
    let first = head.first_mut();
    let ghost leaves = lone_after[0];
    let mut keep = false;
    match first {
        Some(element) => {
            assert(lone_after =~= seq![*final(element)]);
            keep = {
                let seen: &Element = &*element;
                predicate(&seen)
            };
            if keep {
                found.push(element);
                assert(found@ == had.push(found@[had.len() as int]));
                assert(*found@[had.len() as int] == before[0]);
                assert(*final(found@[had.len() as int]) == leaves);
            }
        },
        None => {},
    }
    let ghost middle = found@;
    assert(lone_after =~= seq![leaves]);
    assert(keep ==> middle.len() == had.len() + 1 && middle.take(had.len() as int) =~= had
        && *middle[had.len() as int] == before[0] && *final(middle[had.len() as int]) == leaves);
    assert(!keep ==> middle == had && leaves == before[0]);
    assert(answers_to(*predicate, before[0], keep));
    lend_accepted(tail, predicate, found);
    proof {
        let tail_lent = held(found@, middle.len() as int);
        let (tail_kept, tail_left) = choose|kept: Seq<int>, left: Seq<Element>|
            {
                &&& #[trigger] lends(*predicate, rest, rest_after, kept, tail_lent, left)
                &&& forall|k: int|
                    0 <= k < left.len() ==> #[trigger] left[k] == *final(found@[middle.len() + k])
            };
        let shifted = Seq::new(tail_kept.len(), |k: int| tail_kept[k] + 1);
        let kept = if keep {
            seq![0int] + shifted
        } else {
            shifted
        };
        let lent = held(found@, had.len() as int);
        let left = if keep {
            seq![leaves] + tail_left
        } else {
            tail_left
        };
        assert(found@.take(had.len() as int) =~= had) by {
            assert forall|k: int| 0 <= k < had.len() implies found@[k] == had[k] by {
                assert(found@.take(middle.len() as int)[k] == found@[k]);
            }
        }
        assert(lone =~= before.subrange(0, 1));
        assert(rest =~= before.subrange(1, before.len() as int));
        assert forall|j: int| 1 <= j < before.len() implies after[j] == rest_after[j - 1]
            && before[j] == rest[j - 1] by {}
        if keep {
            assert(found@.take(middle.len() as int)[had.len() as int] == found@[had.len() as int]);
            assert(lent =~= seq![before[0]] + tail_lent);
        } else {
            assert(lent =~= tail_lent);
        }
        assert forall|k: int| 0 <= k < left.len() implies #[trigger] left[k] == *final(found@[had.len() + k]) by {
            if keep && k > 0 {
                assert(left[k] == tail_left[k - 1]);
            } else if !keep {
                assert(left[k] == tail_left[k]);
            }
        }
        assert forall|k: int| 0 <= k < kept.len() implies 0 <= #[trigger] kept[k] < before.len()
            && lent[k] == before[kept[k]] && answers_to(*predicate, before[kept[k]], true)
            && after[kept[k]] == left[k] by {
            if keep && k == 0 {
            } else {
                let t = if keep {
                    k - 1
                } else {
                    k
                };
                assert(kept[k] == tail_kept[t] + 1);
                assert(lent[k] == tail_lent[t]);
                assert(left[k] == tail_left[t]);
                assert(0 <= tail_kept[t] < rest.len());
            }
        }
        assert forall|a: int, b: int| 0 <= a < b < kept.len() implies kept[a] < kept[b] by {
            if keep {
                if a == 0 {
                    assert(kept[b] == tail_kept[b - 1] + 1);
                    assert(0 <= tail_kept[b - 1]);
                } else {
                    assert(kept[a] == tail_kept[a - 1] + 1);
                    assert(kept[b] == tail_kept[b - 1] + 1);
                }
            } else {
                assert(kept[a] == tail_kept[a] + 1);
                assert(kept[b] == tail_kept[b] + 1);
            }
        }
        assert forall|j: int| 0 <= j < before.len() && !kept.contains(j) implies answers_to(
            *predicate,
            #[trigger] before[j],
            false,
        ) && after[j] == before[j] by {
            if j == 0 {
                if keep {
                    assert(kept[0] == 0);
                }
            } else {
                if tail_kept.contains(j - 1) {
                    let t = choose|t: int| 0 <= t < tail_kept.len() && tail_kept[t] == j - 1;
                    let k = if keep {
                        t + 1
                    } else {
                        t
                    };
                    assert(kept[k] == j);
                }
                assert(rest[j - 1] == before[j]);
            }
        }
        assert(lends(*predicate, before, after, kept, lent, left));
    }
}

impl Element {
    /// The children that the predicate accepts, in document order, for change in place.
    pub fn filter_children_mut<P>(&mut self, predicate: P) -> (found: Vec<&mut Element>) where
        P: Fn(&&Element) -> bool,

        requires
            forall|i: int|
                0 <= i < old(self).children@.len() ==> asks(predicate, #[trigger] old(self).children@[i]),
        ensures
            exists|kept: Seq<int>, left: Seq<Element>|
                {
                    &&& #[trigger] lends(
                        predicate,
                        old(self).children@,
                        final(self).children@,
                        kept,
                        held(found@, 0),
                        left,
                    )
                    &&& forall|k: int| 0 <= k < left.len() ==> #[trigger] left[k] == *final(found@[k])
                },
            final(self).namespace == old(self).namespace,
            final(self).tag == old(self).tag,
            final(self).attributes == old(self).attributes,
            final(self).text == old(self).text,
            final(self).cdata == old(self).cdata,
    {
        let ghost before = self.children@;
        let ghost after = final(self).children@;
        let mut found: Vec<&mut Element> = Vec::new();
        lend_accepted(self.children.as_mut_slice(), &predicate, &mut found);
        proof {
            let (kept, left) = choose|kept: Seq<int>, left: Seq<Element>|
                {
                    &&& #[trigger] lends(predicate, before, after, kept, held(found@, 0), left)
                    &&& forall|k: int| 0 <= k < left.len() ==> #[trigger] left[k] == *final(found@[0 + k])
                };
            assert(lends(predicate, before, after, kept, held(found@, 0), left));
            assert forall|k: int| 0 <= k < left.len() implies #[trigger] left[k] == *final(found@[k]) by {
                assert(left[k] == *final(found@[0 + k]));
            }
        }
        found
    }
}

/// Builds an [`Element`] step by step.
#[derive(Debug, PartialEq, Eq)]
pub struct ElementBuilder {
    element: Element,
}

impl View for ElementBuilder {
    type V = Node;

    /// The node of the element built so far.
    closed spec fn view(&self) -> Node {
        self.element@
    }
}

impl ElementBuilder {
    /// A builder for an element named `name` with nothing in it.
    pub fn new(name: &str) -> (builder: ElementBuilder)
        ensures
            builder@ == (Node {
                namespace: None,
                tag: name@,
                attributes: Map::empty(),
                children: Seq::empty(),
                text: None,
                cdata: None,
            }),
    {
        ElementBuilder { element: Element::new(name) }
    }

    /// Sets the prefix of the element.
    pub fn prefix(&mut self, prefix: &str) -> (builder: &mut ElementBuilder)
        ensures
            builder@ == (Node { namespace: Some(prefix@), ..old(self)@ }),
            *final(self) == *final(builder),
    {
        self.element.namespace = Some(String::from_str(prefix));
        self
    }

    /// Sets the attribute `key` of the element to `value`.
    pub fn attr(&mut self, key: &str, value: &str) -> (builder: &mut ElementBuilder)
        ensures
            builder@ == (Node { attributes: old(self)@.attributes.insert(key@, value@), ..old(self)@ }),
            *final(self) == *final(builder),
    {
        self.element.attributes.insert(String::from_str(key), String::from_str(value));
        self
    }

    /// Sets the text of the element.
    pub fn text(&mut self, text: &str) -> (builder: &mut ElementBuilder)
        ensures
            builder@ == (Node { text: Some(text@), ..old(self)@ }),
            *final(self) == *final(builder),
    {
        self.element.text = Some(String::from_str(text));
        self
    }

    /// Sets the character data of the element.
    pub fn cdata(&mut self, cdata: &str) -> (builder: &mut ElementBuilder)
        ensures
            builder@ == (Node { cdata: Some(cdata@), ..old(self)@ }),
            *final(self) == *final(builder),
    {
        self.element.cdata = Some(String::from_str(cdata));
        self
    }

    /// Appends the elements that `children` have built so far, in order.
    pub fn children(&mut self, children: Vec<&mut ElementBuilder>) -> (builder: &mut ElementBuilder)
        ensures
            builder@ == (Node {
                children: old(self)@.children + Seq::new(
                    children@.len(),
                    |i: int| (*children@[i])@,
                ),
                ..old(self)@
            }),
            *final(self) == *final(builder),
    {
        let ghost before = self.element;
        let mut i: usize = 0;
        while i < children.len()
            invariant
                i <= children@.len(),
                self.element.namespace == before.namespace,
                self.element.tag == before.tag,
                self.element.attributes == before.attributes,
                self.element.text == before.text,
                self.element.cdata == before.cdata,
                self.element.children@.len() == before.children@.len() + i,
                forall|j: int|
                    0 <= j < before.children@.len() ==> self.element.children@[j] == before.children@[j],
                forall|k: int|
                    before.children@.len() <= k < before.children@.len() + i ==> (
                    #[trigger] self.element.children@[k])@ == (*children@[k - before.children@.len()])@,
            decreases children@.len() - i,
        {
            let child = children[i].element();
            self.element.children.push(child);
            i += 1;
        }
        proof {
            lemma_children(self.element);
            lemma_children(before);
            assert(self.element@.children =~= before@.children + Seq::new(
                children@.len(),
                |i: int| (*children@[i])@,
            ));
        }
        self
    }

    /// The element built so far.
    pub fn element(&self) -> (element: Element)
        ensures
            element@ == self@,
    {
        self.element.clone()
    }
}

} // verus!
