use xml_parser_nav::attributes::Attributes;
use xml_parser_nav::element::{Element, ElementBuilder};
use xml_parser_nav::errors::XmlErrors;
use xml_parser_nav::events::{Attribute, Name, ReaderEvent, WriterEvent};
use xml_parser_nav::lookup::{split_text, value_or_error};
use xml_parser_nav::tree::{ElementTree, XmlVersion};

fn shelf() -> Element {
    let mut price = ElementBuilder::new("price");
    price.text("12");
    let mut title = ElementBuilder::new("title");
    title.text("Dune").cdata("raw");
    let mut book = ElementBuilder::new("book");
    book.attr("id", "one").children(vec![&mut title, &mut price]);
    let mut other_title = ElementBuilder::new("title");
    other_title.text("Emma");
    let mut other = ElementBuilder::new("book");
    other.attr("id", "two").children(vec![&mut other_title]);
    let mut note = ElementBuilder::new("note");
    let mut shelf = ElementBuilder::new("shelf");
    shelf.prefix("s").children(vec![&mut book, &mut note, &mut other]);
    shelf.element()
}

#[test]
fn new_element_has_only_its_tag() {
    let element = Element::new("item");
    assert_eq!(element.tag, "item");
    assert_eq!(element.namespace, None);
    assert_eq!(element.attributes.len(), 0);
    assert!(element.children.is_empty());
    assert_eq!(element.text, None);
    assert_eq!(element.cdata, None);
}

#[test]
fn default_element_is_named_tag() {
    let element = Element::default();
    assert_eq!(element, Element::new("tag"));
}

#[test]
fn builder_sets_each_part() {
    let mut builder = ElementBuilder::new("item");
    assert_eq!(builder.element(), Element::new("item"));
    builder.prefix("p").attr("k", "v").text("words").cdata("data");
    let element = builder.element();
    assert_eq!(element.tag, "item");
    assert_eq!(element.namespace.as_deref(), Some("p"));
    assert_eq!(element.attributes.get("k").map(|s| s.as_str()), Some("v"));
    assert_eq!(element.attributes.len(), 1);
    assert_eq!(element.text.as_deref(), Some("words"));
    assert_eq!(element.cdata.as_deref(), Some("data"));
}

#[test]
fn builder_replaces_what_was_set_before() {
    let mut builder = ElementBuilder::new("item");
    builder.text("one").text("two").attr("k", "v").attr("k", "w").prefix("p").prefix("q");
    let element = builder.element();
    assert_eq!(element.text.as_deref(), Some("two"));
    assert_eq!(element.attributes.get("k").map(|s| s.as_str()), Some("w"));
    assert_eq!(element.attributes.len(), 1);
    assert_eq!(element.namespace.as_deref(), Some("q"));
}

#[test]
fn builder_appends_children_in_order() {
    let mut a = ElementBuilder::new("a");
    let mut b = ElementBuilder::new("b");
    let mut c = ElementBuilder::new("c");
    let mut top = ElementBuilder::new("top");
    top.children(vec![&mut a, &mut b]).children(vec![&mut c]);
    let tags: Vec<String> = top.element().children.iter().map(|e| e.tag.clone()).collect();
    assert_eq!(tags, vec!["a", "b", "c"]);
    top.children(vec![]);
    assert_eq!(top.element().children.len(), 3);
}

#[test]
fn builder_copies_the_child_as_it_is_then() {
    let mut child = ElementBuilder::new("child");
    let mut top = ElementBuilder::new("top");
    top.children(vec![&mut child]);
    child.text("later");
    assert_eq!(top.element().children[0].text, None);
}

#[test]
fn element_clone_is_deep_and_equal() {
    let shelf = shelf();
    let copy = shelf.clone();
    assert_eq!(copy, shelf);
    assert_eq!(copy.children[0].children[0].cdata.as_deref(), Some("raw"));
    let mut changed = shelf.clone();
    changed.children[0].children[0].text = Some("Other".to_string());
    assert_ne!(changed, shelf);
}

#[test]
fn find_child_yields_the_first_that_is_accepted() {
    let shelf = shelf();
    let found = shelf.find_child(|e| e.tag == "book").unwrap();
    assert_eq!(found.attributes.get("id").map(|s| s.as_str()), Some("one"));
    let found = shelf.find_child(|e| e.tag == "book" && e.children.len() == 1).unwrap();
    assert_eq!(found.attributes.get("id").map(|s| s.as_str()), Some("two"));
    assert!(shelf.find_child(|e| e.tag == "title").is_none());
    assert!(Element::new("empty").find_child(|_| true).is_none());
}

#[test]
fn find_child_mut_lets_the_child_be_changed() {
    let mut shelf = shelf();
    shelf.find_child_mut(|e| e.tag == "note").unwrap().text = Some("read".to_string());
    assert_eq!(shelf.children[1].text.as_deref(), Some("read"));
    assert_eq!(shelf.children[0].text, None);
    assert_eq!(shelf.children.len(), 3);
    assert!(shelf.find_child_mut(|e| e.tag == "title").is_none());
}

#[test]
fn filter_children_mut_lets_each_accepted_child_be_changed() {
    let mut shelf = shelf();
    let books = shelf.filter_children_mut(|e| e.tag == "book");
    assert_eq!(books.len(), 2);
    let mut count = 0;
    for book in books {
        count += 1;
        book.text = Some(format!("book {count}"));
    }
    assert_eq!(shelf.children[0].text.as_deref(), Some("book 1"));
    assert_eq!(shelf.children[1].text, None);
    assert_eq!(shelf.children[2].text.as_deref(), Some("book 2"));
    assert_eq!(shelf.children.len(), 3);
    assert!(shelf.filter_children_mut(|_| false).is_empty());
    assert_eq!(shelf.filter_children_mut(|_| true).len(), 3);
    assert!(Element::new("empty").filter_children_mut(|_| true).is_empty());
}

#[test]
fn filter_children_yields_all_that_are_accepted_in_order() {
    let shelf = shelf();
    let ids: Vec<&str> = shelf
        .filter_children(|e| e.tag == "book")
        .into_iter()
        .map(|e| e.attributes.get("id").unwrap().as_str())
        .collect();
    assert_eq!(ids, vec!["one", "two"]);
    assert_eq!(shelf.filter_children(|_| true).len(), 3);
    assert!(shelf.filter_children(|_| false).is_empty());
}

#[test]
fn find_follows_the_first_child_of_each_name() {
    let shelf = shelf();
    assert_eq!(shelf.find("book/title").unwrap().text.as_deref(), Some("Dune"));
    assert_eq!(shelf.find("book").unwrap().attributes.get("id").unwrap(), "one");
    assert_eq!(shelf.find("note").unwrap().tag, "note");
}

#[test]
fn find_fails_with_the_whole_path() {
    let shelf = shelf();
    assert_eq!(
        shelf.find("book/author"),
        Err(XmlErrors::ElementNotFound { t: "book/author".to_string() })
    );
    assert_eq!(shelf.find("shelf"), Err(XmlErrors::ElementNotFound { t: "shelf".to_string() }));
    assert_eq!(shelf.find(""), Err(XmlErrors::ElementNotFound { t: String::new() }));
    assert_eq!(shelf.find("book/"), Err(XmlErrors::ElementNotFound { t: "book/".to_string() }));
    assert_eq!(shelf.find("/book"), Err(XmlErrors::ElementNotFound { t: "/book".to_string() }));
}

#[test]
fn find_path_without_names_is_the_element_itself() {
    let shelf = shelf();
    let found = Element::find_path(&Vec::new(), "", &shelf).unwrap();
    assert!(std::ptr::eq(found, &shelf));
    let names = vec!["book".to_string(), "price".to_string()];
    assert_eq!(Element::find_path(&names, "x", &shelf).unwrap().text.as_deref(), Some("12"));
    let names = vec!["book".to_string(), "none".to_string()];
    assert_eq!(
        Element::find_path(&names, "shown", &shelf),
        Err(XmlErrors::ElementNotFound { t: "shown".to_string() })
    );
}

#[test]
fn split_text_yields_the_parts_between_separators() {
    assert_eq!(split_text("a/b/c", '/'), vec!["a", "b", "c"]);
    assert_eq!(split_text("abc", '/'), vec!["abc"]);
    assert_eq!(split_text("", '/'), vec![""]);
    assert_eq!(split_text("/", '/'), vec!["", ""]);
    assert_eq!(split_text("a//b/", '/'), vec!["a", "", "b", ""]);
    assert_eq!(split_text("é/ü", '/'), vec!["é", "ü"]);
}

#[test]
fn find_value_reads_the_text() {
    let shelf = shelf();
    assert_eq!(shelf.find_value("book/price", |s| s.parse::<u32>()), Ok(Some(12)));
    assert_eq!(shelf.find_value("note", |s| s.parse::<u32>()), Ok(None));
    assert_eq!(
        shelf.find_value("book/title", |s| s.parse::<u32>()),
        Err(XmlErrors::ValueFromStr { t: "Dune".to_string() })
    );
    assert_eq!(
        shelf.find_value("book/none", |s| s.parse::<u32>()),
        Err(XmlErrors::ElementNotFound { t: "book/none".to_string() })
    );
}

#[test]
fn value_or_error_for_each_outcome() {
    let text = "seven".to_string();
    assert_eq!(value_or_error::<u8, ()>(&text, Ok(7)), Ok(Some(7)));
    assert_eq!(
        value_or_error::<u8, ()>(&text, Err(())),
        Err(XmlErrors::ValueFromStr { t: "seven".to_string() })
    );
}

#[test]
fn lookup_errors_are_shown_by_their_message() {
    assert_eq!(
        XmlErrors::ElementNotFound { t: "a/b".to_string() }.message(),
        "Element 'a/b' not found"
    );
    assert_eq!(
        XmlErrors::ValueFromStr { t: "x".to_string() }.message(),
        "Value 'x' cannot be parsed"
    );
    assert_eq!(
        XmlErrors::UnclosedElement { t: "b".to_string() }.message(),
        "Element 'b' is not closed"
    );
}

#[test]
fn attributes_map_names_to_values() {
    let mut attributes = Attributes::new();
    assert_eq!(attributes.len(), 0);
    assert_eq!(attributes.get("a"), None);
    assert_eq!(attributes.insert("a".to_string(), "1".to_string()), None);
    assert_eq!(attributes.insert("b".to_string(), "2".to_string()), None);
    assert_eq!(attributes.insert("a".to_string(), "3".to_string()), Some("1".to_string()));
    assert_eq!(attributes.len(), 2);
    assert_eq!(attributes.get("a").map(|s| s.as_str()), Some("3"));
    assert_eq!(attributes.get("b").map(|s| s.as_str()), Some("2"));
    assert_eq!(attributes.get("c"), None);
    assert_eq!(attributes.get(""), None);
    let mut seen: Vec<(String, String)> = (0..attributes.len())
        .map(|i| attributes.entry(i))
        .map(|(k, v)| (k.clone(), v.clone()))
        .collect();
    seen.sort();
    assert_eq!(
        seen,
        vec![("a".to_string(), "3".to_string()), ("b".to_string(), "2".to_string())]
    );
}

#[test]
fn attributes_are_equal_whatever_their_order() {
    let mut one = Attributes::new();
    one.insert("a".to_string(), "1".to_string());
    one.insert("b".to_string(), "2".to_string());
    let mut two = Attributes::new();
    two.insert("b".to_string(), "2".to_string());
    two.insert("a".to_string(), "1".to_string());
    assert_eq!(one, two);
    assert_eq!(one.clone(), one);
    two.insert("a".to_string(), "9".to_string());
    assert_ne!(one, two);
    let mut three = Attributes::new();
    three.insert("a".to_string(), "1".to_string());
    assert_ne!(one, three);
    assert_ne!(three, one);
    assert_eq!(Attributes::new(), Attributes::new());
}

#[test]
fn tree_with_and_without_root() {
    let blank = ElementTree::new();
    assert!(blank.check_blank_tree());
    assert_eq!(blank.get_root(), None);
    assert_eq!(blank.version, XmlVersion::Version10);
    assert_eq!(blank.encoding, "UTF-8");
    assert!(ElementTree::default().check_blank_tree());
    let mut builder = ElementBuilder::new("top");
    builder.text("t");
    let tree = ElementTree::new_with_root(builder);
    assert!(!tree.check_blank_tree());
    assert_eq!(tree.get_root().unwrap().text.as_deref(), Some("t"));
    assert_eq!(tree.get_root(), tree.root);
    assert_eq!(tree.encoding, "UTF-8");
}

fn local(text: &str) -> Name {
    Name { local_name: text.to_string(), namespace: None, prefix: None }
}

fn prefixed(prefix: &str, text: &str) -> Name {
    Name {
        local_name: text.to_string(),
        namespace: Some(format!("uri:{prefix}")),
        prefix: Some(prefix.to_string()),
    }
}

fn start(name: Name, attributes: Vec<(Name, &str)>) -> ReaderEvent {
    ReaderEvent::StartElement {
        name,
        attributes: attributes
            .into_iter()
            .map(|(name, value)| Attribute { name, value: value.to_string() })
            .collect(),
    }
}

fn end(name: Name) -> ReaderEvent {
    ReaderEvent::EndElement { name }
}

fn words(text: &str) -> ReaderEvent {
    ReaderEvent::Characters(text.to_string())
}

#[test]
fn document_is_read_from_its_events() {
    let events = vec![
        ReaderEvent::Other,
        start(local("top"), vec![(local("k"), "v"), (prefixed("x", "k"), "w"), (local("k"), "z")]),
        words("one "),
        start(prefixed("p", "kid"), vec![]),
        ReaderEvent::CData("raw".to_string()),
        ReaderEvent::Other,
        ReaderEvent::CData("er".to_string()),
        start(local("deep"), vec![]),
        end(local("deep")),
        end(prefixed("p", "kid")),
        words("two"),
        ReaderEvent::EndDocument,
        start(local("kid"), vec![]),
        end(local("kid")),
        end(local("top")),
        ReaderEvent::EndDocument,
        start(local("late"), vec![]),
    ];
    let tree = ElementTree::parse(&events).unwrap();
    assert_eq!(tree.version, XmlVersion::Version10);
    assert_eq!(tree.encoding, "UTF-8");
    let top = tree.root.unwrap();
    assert_eq!(top.tag, "top");
    assert_eq!(top.namespace, None);
    assert_eq!(top.text.as_deref(), Some("one two"));
    assert_eq!(top.cdata, None);
    assert_eq!(top.attributes.len(), 2);
    assert_eq!(top.attributes.get("k").map(|s| s.as_str()), Some("z"));
    assert_eq!(top.attributes.get("x:k").map(|s| s.as_str()), Some("w"));
    assert_eq!(top.children.len(), 2);
    let kid = &top.children[0];
    assert_eq!(kid.tag, "kid");
    assert_eq!(kid.namespace.as_deref(), Some("p"));
    assert_eq!(kid.cdata.as_deref(), Some("rawer"));
    assert_eq!(kid.text, None);
    assert_eq!(kid.children.len(), 1);
    assert_eq!(kid.children[0], Element::new("deep"));
    assert_eq!(top.children[1], Element::new("kid"));
}

#[test]
fn root_is_read_with_the_namespace_of_its_name() {
    let name = Name { local_name: "top".to_string(), namespace: Some("p".to_string()), prefix: Some("p".to_string()) };
    let close = Name { local_name: "top".to_string(), namespace: Some("p".to_string()), prefix: Some("p".to_string()) };
    let events = vec![start(name, vec![]), end(close)];
    let tree = ElementTree::parse(&events).unwrap();
    assert_eq!(tree.root.unwrap().namespace.as_deref(), Some("p"));
    let events = vec![start(prefixed("p", "top"), vec![]), end(prefixed("p", "top"))];
    assert_eq!(
        ElementTree::parse(&events).err(),
        Some(XmlErrors::UnclosedElement { t: "top".to_string() })
    );
}

#[test]
fn document_without_elements_has_no_root() {
    assert!(ElementTree::parse(&Vec::new()).unwrap().check_blank_tree());
    let events = vec![ReaderEvent::Other, ReaderEvent::EndDocument];
    assert!(ElementTree::parse(&events).unwrap().check_blank_tree());
    let events = vec![words("text"), end(local("x"))];
    assert!(ElementTree::parse(&events).unwrap().check_blank_tree());
}

#[test]
fn last_element_at_the_top_is_the_root() {
    let events = vec![start(local("a"), vec![]), end(local("a")), start(local("b"), vec![]), end(local("b"))];
    assert_eq!(ElementTree::parse(&events).unwrap().root, Some(Element::new("b")));
}

#[test]
fn element_that_is_not_closed_fails() {
    let events = vec![start(local("a"), vec![]), start(local("b"), vec![])];
    assert_eq!(
        ElementTree::parse(&events).err(),
        Some(XmlErrors::UnclosedElement { t: "b".to_string() })
    );
    let events = vec![start(local("a"), vec![]), start(local("b"), vec![]), end(local("b"))];
    assert_eq!(
        ElementTree::parse(&events).err(),
        Some(XmlErrors::UnclosedElement { t: "a".to_string() })
    );
    let events = vec![start(local("a"), vec![]), start(local("b"), vec![]), end(local("a"))];
    assert_eq!(
        ElementTree::parse(&events).err(),
        Some(XmlErrors::UnclosedElement { t: "b".to_string() })
    );
    let events = vec![start(local("a"), vec![]), end(prefixed("p", "a"))];
    assert_eq!(
        ElementTree::parse(&events).err(),
        Some(XmlErrors::UnclosedElement { t: "a".to_string() })
    );
}

#[test]
fn element_is_read_from_an_index_on() {
    let events = vec![words("skip"), words("in"), start(local("k"), vec![]), end(local("k")), end(local("e")), words("after")];
    let (element, next) = Element::new("e").parse(&events, 1).unwrap();
    assert_eq!(next, 5);
    assert_eq!(element.text.as_deref(), Some("in"));
    assert_eq!(element.children, vec![Element::new("k")]);
    assert_eq!(
        Element::new("e").parse(&events, 5).err(),
        Some(XmlErrors::UnclosedElement { t: "e".to_string() })
    );
    assert_eq!(
        Element::new("e").parse(&events, 9).err(),
        Some(XmlErrors::UnclosedElement { t: "e".to_string() })
    );
}

fn simple(event: &WriterEvent) -> String {
    match event {
        WriterEvent::StartDocument { version, encoding } => format!("doc {:?} {}", version, encoding),
        WriterEvent::StartElement { name, attributes } => {
            let mut pairs: Vec<String> = (0..attributes.len())
                .map(|i| attributes.entry(i))
                .map(|(k, v)| format!(" {k}={v}"))
                .collect();
            pairs.sort();
            format!("<{}{}>", name, pairs.concat())
        }
        WriterEvent::Characters(text) => format!("text {text}"),
        WriterEvent::CData(text) => format!("cdata {text}"),
        WriterEvent::EndElement => "</>".to_string(),
    }
}

#[test]
fn document_is_written_as_events() {
    let tree = ElementTree { root: Some(shelf()), version: XmlVersion::Version11, encoding: "latin".to_string() };
    let shown: Vec<String> = tree.write().iter().map(simple).collect();
    assert_eq!(
        shown,
        vec![
            "doc Version11 latin",
            "<shelf>",
            "<book id=one>",
            "<title>",
            "text Dune",
            "cdata raw",
            "</>",
            "<price>",
            "text 12",
            "</>",
            "</>",
            "<note>",
            "</>",
            "<book id=two>",
            "<title>",
            "text Emma",
            "</>",
            "</>",
            "</>",
        ]
    );
    let without: Vec<String> = tree.write_with(false).iter().map(simple).collect();
    assert_eq!(without, shown[1..].to_vec());
    assert_eq!(tree.write_with(true), tree.write());
}

#[test]
fn blank_document_is_written_as_its_declaration() {
    let shown: Vec<String> = ElementTree::new().write().iter().map(simple).collect();
    assert_eq!(shown, vec!["doc Version10 UTF-8"]);
    assert!(ElementTree::new().write_with(false).is_empty());
}

#[test]
fn element_events_are_appended() {
    let mut out = vec![WriterEvent::EndElement];
    Element::new("a").write(&mut out);
    let shown: Vec<String> = out.iter().map(simple).collect();
    assert_eq!(shown, vec!["</>", "<a>", "</>"]);
}
