use crate::attributes::Attributes;
use crate::element::{lemma_children, lemma_nodes_of, text_of, Element, Node};
use crate::errors::XmlErrors;
use crate::tree::{ElementTree, XmlVersion};
use vstd::prelude::*;
use vstd::string::StringExecFns;

verus! {

/// A qualified name as a document gives it.
#[derive(Debug, PartialEq, Eq)]
pub struct Name {
    /// The local name: `string` in `xsi:string`.
    pub local_name: String,
    /// The namespace that the prefix stands for.
    pub namespace: Option<String>,
    /// The prefix: `xsi` in `xsi:string`.
    pub prefix: Option<String>,
}

/// An attribute as a document gives it.
#[derive(Debug, PartialEq, Eq)]
pub struct Attribute {
    pub name: Name,
    pub value: String,
}

/// What a reader reports of a document, piece by piece.
#[derive(Debug, PartialEq, Eq)]
pub enum ReaderEvent {
    /// An element opens.
    StartElement { name: Name, attributes: Vec<Attribute> },
    /// An element closes.
    EndElement { name: Name },
    /// Character data.
    CData(String),
    /// Text.
    Characters(String),
    /// The document ends.
    EndDocument,
    /// Anything else: a declaration, an instruction, a comment, white space.
    Other,
}

/// The name under which an attribute is kept: `prefix:local`, or the local name alone.
pub open spec fn attribute_key(name: Name) -> Seq<char> {
    match name.prefix {
        Some(prefix) => prefix@ + ":"@ + name.local_name@,
        None => name.local_name@,
    }
}

/// The map of a run of attributes: a later one replaces an earlier one of the same name.
pub open spec fn attribute_map(attributes: Seq<Attribute>) -> Map<Seq<char>, Seq<char>>
    decreases attributes.len(),
{
    if attributes.len() == 0 {
        Map::empty()
    } else {
        attribute_map(attributes.drop_last()).insert(
            attribute_key(attributes.last().name),
            attributes.last().value@,
        )
    }
}

/// A node without content for an element that opens.
pub open spec fn opened(prefix: Option<String>, name: Name, attributes: Seq<Attribute>) -> Node {
    Node {
        namespace: text_of(prefix),
        tag: name.local_name@,
        attributes: attribute_map(attributes),
        children: Seq::empty(),
        text: None,
        cdata: None,
    }
}

/// A content with more text at its end.
pub open spec fn extended(content: Option<Seq<char>>, more: Seq<char>) -> Option<Seq<char>> {
    match content {
        Some(text) => Some(text + more),
        None => Some(more),
    }
}

/// Whether a closing name closes the element of `node`.
pub open spec fn closes(node: Node, name: Name) -> bool {
    text_of(name.prefix) == node.namespace && name.local_name@ == node.tag
}

/// The content of an open element read from the events from index `from`
/// on, and the index behind the event that closes it. A child opens with the
/// prefix of its name; text and character data are put together in order;
/// other events are passed over. A failure where the events end or another
/// element closes.
pub open spec fn read_element(events: Seq<ReaderEvent>, from: int, node: Node) -> Result<
    (Node, int),
    Seq<char>,
>
    decreases events.len() - from,
{
    if from < 0 || from >= events.len() {
        Err(node.tag)
    } else {
        match events[from] {
            ReaderEvent::StartElement { name, attributes } => match read_element(
                events,
                from + 1,
                opened(name.prefix, name, attributes@),
            ) {
                Ok((child, next)) => if from < next <= events.len() {
                    read_element(events, next, Node { children: node.children.push(child), ..node })
                } else {
                    Err(node.tag)
                },
                Err(tag) => Err(tag),
            },
            ReaderEvent::EndElement { name } => if closes(node, name) {
                Ok((node, from + 1))
            } else {
                Err(node.tag)
            },
            ReaderEvent::Characters(more) => read_element(
                events,
                from + 1,
                Node { text: extended(node.text, more@), ..node },
            ),
            ReaderEvent::CData(more) => read_element(
                events,
                from + 1,
                Node { cdata: extended(node.cdata, more@), ..node },
            ),
            _ => read_element(events, from + 1, node),
        }
    }
}

/// The root of the document read from the events from index `from` on, up
/// to the end of the document or of the events: the last element that opens
/// at the top, which opens with the namespace of its name. `root` is the one
/// read before.
pub open spec fn read_document(events: Seq<ReaderEvent>, from: int, root: Option<Node>) -> Result<
    Option<Node>,
    Seq<char>,
>
    decreases events.len() - from,
{
    if from < 0 || from >= events.len() {
        Ok(root)
    } else {
        match events[from] {
            ReaderEvent::StartElement { name, attributes } => match read_element(
                events,
                from + 1,
                opened(name.namespace, name, attributes@),
            ) {
                Ok((element, next)) => if from < next <= events.len() {
                    read_document(events, next, Some(element))
                } else {
                    Err(name.local_name@)
                },
                Err(tag) => Err(tag),
            },
            ReaderEvent::EndDocument => Ok(root),
            _ => read_document(events, from + 1, root),
        }
    }
}

/// An element is read to an index behind the one it is read from, and within the events.
pub proof fn lemma_read_element(events: Seq<ReaderEvent>, from: int, node: Node)
    ensures
        match read_element(events, from, node) {
            Ok((_, next)) => from < next <= events.len(),
            Err(_) => true,
        },
    decreases events.len() - from,
{
    if 0 <= from < events.len() {
        match events[from] {
            ReaderEvent::StartElement { name, attributes } => {
                let child = opened(name.prefix, name, attributes@);
                lemma_read_element(events, from + 1, child);
                match read_element(events, from + 1, child) {
                    Ok((child, next)) => {
                        lemma_read_element(
                            events,
                            next,
                            Node { children: node.children.push(child), ..node },
                        );
                    },
                    Err(_) => {},
                }
            },
            ReaderEvent::EndElement { name } => {},
            ReaderEvent::Characters(more) => {
                lemma_read_element(events, from + 1, Node { text: extended(node.text, more@), ..node });
            },
            ReaderEvent::CData(more) => {
                lemma_read_element(
                    events,
                    from + 1,
                    Node { cdata: extended(node.cdata, more@), ..node },
                );
            },
            _ => {
                lemma_read_element(events, from + 1, node);
            },
        }
    }
}

/// The name under which an attribute is kept.
pub fn key_of(name: &Name) -> (key: String)
    ensures
        key@ == attribute_key(*name),
{
    match &name.prefix {
        Some(prefix) => prefix.clone().concat(":").concat(name.local_name.as_str()),
        None => name.local_name.clone(),
    }
}

/// The attributes of an element that opens.
pub fn collect_attributes(attributes: &Vec<Attribute>) -> (map: Attributes)
    ensures
        map@ == attribute_map(attributes@),
{
    let mut map = Attributes::new();
    let mut i: usize = 0;
    assert(attributes@.take(0) =~= Seq::<Attribute>::empty());
    while i < attributes.len()
        invariant
            i <= attributes@.len(),
            map@ == attribute_map(attributes@.take(i as int)),
        decreases attributes@.len() - i,
    {
        assert(attributes@.take(i + 1).drop_last() =~= attributes@.take(i as int));
        map.insert(key_of(&attributes[i].name), attributes[i].value.clone());
        i += 1;
    }
    assert(attributes@.take(attributes@.len() as int) =~= attributes@);
    map
}

/// An element without content for one that opens.
fn open_element(prefix: &Option<String>, name: &Name, attributes: &Vec<Attribute>) -> (element: Element)
    ensures
        element@ == opened(*prefix, *name, attributes@),
{
    let element = Element {
        namespace: crate::element::copy_text(prefix),
        tag: name.local_name.clone(),
        attributes: collect_attributes(attributes),
        children: Vec::new(),
        text: None,
        cdata: None,
    };
    proof {
        lemma_children(element);
        assert(element@.children =~= Seq::<Node>::empty());
    }
    element
}

/// A content with more text at its end.
fn extend(content: Option<String>, more: &String) -> (out: Option<String>)
    ensures
        text_of(out) == extended(text_of(content), more@),
{
    match content {
        Some(text) => Some(text.concat(more.as_str())),
        None => Some(more.clone()),
    }
}

/// Whether two optional texts are the same.
fn same_text(one: &Option<String>, other: &Option<String>) -> (same: bool)
    ensures
        same == (text_of(*one) == text_of(*other)),
{
    match (one, other) {
        (Some(a), Some(b)) => *a == *b,
        (None, None) => true,
        _ => false,
    }
}

impl Element {
    /// Reads the content of this open element from the events from index
    /// `from` on. Returns the element with its content and the index behind
    /// the event that closes it.
    pub fn parse(self, events: &Vec<ReaderEvent>, from: usize) -> (out: Result<(Element, usize), XmlErrors>)
        ensures
            match out {
                Ok((element, next)) => read_element(events@, from as int, self@) == Ok::<
                    (Node, int),
                    Seq<char>,
                >((element@, next as int)),
                Err(error) => read_element(events@, from as int, self@) is Err
                    && error is UnclosedElement && error->UnclosedElement_t@ == read_element(
                    events@,
                    from as int,
                    self@,
                )->Err_0,
            },
        decreases events@.len() - from,
    {
        let mut element = self;
        let mut at: usize = from;
        while at < events.len()
            invariant
                from <= at,
                read_element(events@, from as int, self@) == read_element(
                    events@,
                    at as int,
                    element@,
                ),
            decreases events@.len() - at,
        {
            let ghost node = element@;
            match &events[at] {
                ReaderEvent::StartElement { name, attributes } => {
                    let child = open_element(&name.prefix, name, attributes);
                    proof {
                        lemma_read_element(events@, at + 1, child@);
                    }
                    match child.parse(events, at + 1) {
                        Ok((child, next)) => {
                            proof {
                                lemma_children(element);
                            }
                            let ghost before = element;
                            element.children.push(child);
                            proof {
                                lemma_children(element);
                                lemma_nodes_of(before.children@);
                                assert(element@.children =~= node.children.push(child@));
                                assert(element@ == (Node {
                                    children: node.children.push(child@),
                                    ..node
                                }));
                            }
                            at = next;
                        },
                        Err(error) => {
                            return Err(error);
                        },
                    }
                },
                ReaderEvent::EndElement { name } => {
                    if same_text(&name.prefix, &element.namespace) && name.local_name
                        == element.tag {
                        return Ok((element, at + 1));
                    } else {
                        return Err(XmlErrors::UnclosedElement { t: element.tag.clone() });
                    }
                },
                ReaderEvent::Characters(more) => {
                    let mut content: Option<String> = None;
                    core::mem::swap(&mut element.text, &mut content);
                    element.text = extend(content, more);
                    at = at + 1;
                },
                ReaderEvent::CData(more) => {
                    let mut content: Option<String> = None;
                    core::mem::swap(&mut element.cdata, &mut content);
                    element.cdata = extend(content, more);
                    at = at + 1;
                },
                _ => {
                    at = at + 1;
                },
            }
        }
        Err(XmlErrors::UnclosedElement { t: element.tag.clone() })
    }
}

impl ElementTree {
    /// Reads a document from the events that a reader reports of it.
    pub fn parse(events: &Vec<ReaderEvent>) -> (out: Result<ElementTree, XmlErrors>)
        ensures
            match out {
                Ok(tree) => read_document(events@, 0, None) == Ok::<Option<Node>, Seq<char>>(
                    tree.root_node(),
                ) && tree.version == XmlVersion::Version10 && tree.encoding@ == "UTF-8"@,
                Err(error) => read_document(events@, 0, None) is Err && error is UnclosedElement
                    && error->UnclosedElement_t@ == read_document(events@, 0, None)->Err_0,
            },
    {
        let mut tree = ElementTree::new();
        let mut at: usize = 0;
        while at < events.len()
            invariant
                tree.version == XmlVersion::Version10,
                tree.encoding@ == "UTF-8"@,
                read_document(events@, 0, None) == read_document(
                    events@,
                    at as int,
                    tree.root_node(),
                ),
            decreases events@.len() - at,
        {
            match &events[at] {
                ReaderEvent::StartElement { name, attributes } => {
                    let root = open_element(&name.namespace, name, attributes);
                    proof {
                        lemma_read_element(events@, at + 1, root@);
                    }
                    match root.parse(events, at + 1) {
                        Ok((root, next)) => {
                            tree.root = Some(root);
                            at = next;
                        },
                        Err(error) => {
                            return Err(error);
                        },
                    }
                },
                ReaderEvent::EndDocument => {
                    return Ok(tree);
                },
                _ => {
                    at = at + 1;
                },
            }
        }
        Ok(tree)
    }
}

/// What a writer is handed to write a document, piece by piece.
#[derive(Debug, PartialEq, Eq)]
pub enum WriterEvent {
    /// The declaration of the document.
    StartDocument { version: XmlVersion, encoding: String },
    /// An element opens.
    StartElement { name: String, attributes: Attributes },
    /// Text.
    Characters(String),
    /// Character data.
    CData(String),
    /// The element that opened last closes.
    EndElement,
}

/// A piece to write as a mathematical value: the view of [`WriterEvent`].
pub ghost enum Written {
    StartDocument { version: XmlVersion, encoding: Seq<char> },
    StartElement { name: Seq<char>, attributes: Map<Seq<char>, Seq<char>> },
    Characters(Seq<char>),
    CData(Seq<char>),
    EndElement,
}

impl View for WriterEvent {
    type V = Written;

    open spec fn view(&self) -> Written {
        match self {
            WriterEvent::StartDocument { version, encoding } => Written::StartDocument {
                version: *version,
                encoding: encoding@,
            },
            WriterEvent::StartElement { name, attributes } => Written::StartElement {
                name: name@,
                attributes: attributes@,
            },
            WriterEvent::Characters(text) => Written::Characters(text@),
            WriterEvent::CData(text) => Written::CData(text@),
            WriterEvent::EndElement => Written::EndElement,
        }
    }
}

/// The views of a run of pieces to write, in order.
pub open spec fn written(events: Seq<WriterEvent>) -> Seq<Written> {
    events.map_values(|event: WriterEvent| event@)
}

/// The pieces for the content that an element has of its own: its text, then its character data.
pub open spec fn own_content(node: Node) -> Seq<Written> {
    (match node.text {
        Some(text) => seq![Written::Characters(text)],
        None => Seq::empty(),
    }) + (match node.cdata {
        Some(text) => seq![Written::CData(text)],
        None => Seq::empty(),
    })
}

/// The pieces for an element: it opens under its tag with its attributes,
/// its own content and its children follow in order, and it closes.
pub open spec fn element_pieces(node: Node) -> Seq<Written>
    decreases node, 1nat, 0nat,
{
    seq![Written::StartElement { name: node.tag, attributes: node.attributes }] + own_content(node)
        + children_pieces(node, node.children.len()) + seq![Written::EndElement]
}

/// The pieces for the first `count` children of an element, in order.
pub open spec fn children_pieces(node: Node, count: nat) -> Seq<Written>
    decreases node, 0nat, count,
{
    if count == 0 || count > node.children.len() {
        Seq::empty()
    } else {
        children_pieces(node, (count - 1) as nat) + element_pieces(node.children[count - 1])
    }
}

/// The pieces for a document: its declaration if `declared`, then its root if it has one.
pub open spec fn document_pieces(tree: ElementTree, declared: bool) -> Seq<Written> {
    (if declared {
        seq![Written::StartDocument { version: tree.version, encoding: tree.encoding@ }]
    } else {
        Seq::empty()
    }) + (match tree.root {
        Some(root) => element_pieces(root@),
        None => Seq::empty(),
    })
}

impl Element {
    /// Appends the pieces for this element to `out`.
    pub fn write(&self, out: &mut Vec<WriterEvent>)
        ensures
            written(final(out)@) == written(old(out)@) + element_pieces(self@),
        decreases self,
    {
        let ghost before = written(out@);
        let ghost node = self@;
        proof {
            lemma_children(*self);
        }
        let ghost start = out@;
        out.push(
            WriterEvent::StartElement { name: self.tag.clone(), attributes: self.attributes.clone() },
        );
        assert(written(out@) =~= before + seq![
            Written::StartElement { name: node.tag, attributes: node.attributes },
        ]);
        let ghost opened = written(out@);
        match &self.text {
            Some(text) => {
                let ghost held = out@;
                out.push(WriterEvent::Characters(text.clone()));
                assert(written(out@) =~= written(held).push(Written::Characters(text@)));
            },
            None => {},
        }
        match &self.cdata {
            Some(text) => {
                let ghost held = out@;
                out.push(WriterEvent::CData(text.clone()));
                assert(written(out@) =~= written(held).push(Written::CData(text@)));
            },
            None => {},
        }
        assert(written(out@) =~= opened + own_content(node));
        let ghost filled = written(out@);
        let mut i: usize = 0;
        assert(written(out@) =~= filled + children_pieces(node, 0));
        while i < self.children.len()
            invariant
                i <= self.children@.len(),
                node == self@,
                node.children.len() == self.children@.len(),
                forall|k: int|
                    0 <= k < self.children@.len() ==> #[trigger] node.children[k] == self.children@[k]@,
                written(out@) == filled + children_pieces(node, i as nat),
            decreases self.children@.len() - i,
        {
            let ghost held = written(out@);
            self.children[i].write(out);
            assert(written(out@) =~= filled + children_pieces(node, (i + 1) as nat)) by {
                assert(node.children[i as int] == self.children@[i as int]@);
            }
            i += 1;
        }
        let ghost held = out@;
        out.push(WriterEvent::EndElement);
        assert(written(out@) =~= written(held).push(Written::EndElement));
        assert(written(out@) =~= before + element_pieces(node));
    }
}

impl ElementTree {
    /// The pieces for this document, with its declaration if `declared`.
    pub fn write_with(&self, declared: bool) -> (out: Vec<WriterEvent>)
        ensures
            written(out@) == document_pieces(*self, declared),
    {
        let mut out: Vec<WriterEvent> = Vec::new();
        assert(written(out@) =~= Seq::<Written>::empty());
        if declared {
            out.push(
                WriterEvent::StartDocument { version: self.version, encoding: self.encoding.clone() },
            );
            assert(written(out@) =~= seq![
                Written::StartDocument { version: self.version, encoding: self.encoding@ },
            ]);
        }
        match &self.root {
            Some(root) => {
                root.write(&mut out);
            },
            None => {},
        }
        assert(written(out@) =~= document_pieces(*self, declared));
        out
    }

    /// The pieces for this document with its declaration.
    pub fn write(&self) -> (out: Vec<WriterEvent>)
        ensures
            written(out@) == document_pieces(*self, true),
    {
        self.write_with(true)
    }
}

} // verus!
