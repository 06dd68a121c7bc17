use xml::reader::{EventReader, XmlEvent};
use xml_parser_nav::errors::Error;
use xml_parser_nav::events::{Attribute, Name, ReaderEvent};
use xml_parser_nav::translator::{Bridge, ReturnEnum};
use xml_parser_nav::tree::ElementTree;

fn name(name: xml::name::OwnedName) -> Name {
    Name { local_name: name.local_name, namespace: name.namespace, prefix: name.prefix }
}

fn events(text: &str) -> Vec<ReaderEvent> {
    let mut reader = EventReader::new(text.as_bytes());
    let mut out = Vec::new();
    loop {
        let event = match reader.next().unwrap() {
            XmlEvent::StartElement { name: n, attributes, .. } => ReaderEvent::StartElement {
                name: name(n),
                attributes: attributes
                    .into_iter()
                    .map(|a| Attribute { name: name(a.name), value: a.value })
                    .collect(),
            },
            XmlEvent::EndElement { name: n } => ReaderEvent::EndElement { name: name(n) },
            XmlEvent::CData(text) => ReaderEvent::CData(text),
            XmlEvent::Characters(text) => ReaderEvent::Characters(text),
            XmlEvent::EndDocument => ReaderEvent::EndDocument,
            _ => ReaderEvent::Other,
        };
        let last = event == ReaderEvent::EndDocument;
        out.push(event);
        if last {
            return out;
        }
    }
}

const CATALOG: &str = r#"
    <?xml version="1.1" encoding="UTF-8"?>
    <catalog> catalog test
       <book id="first" name="Rahul" xmlns:first="Some_Prefix">
          <first:author>Gambardella, Matthew</first:author>this is book1 text
          <first:title>XML Developer's Guide</first:title>
          <first:genre>Computer</first:genre>
          <first:price>44.95</first:price>
          <first:publish_date>2000-10-01</first:publish_date>
          <description>An in-depth look at creating applications
          with XML.</description>
       </book> This is again, a text in catalog
       <book id="second" xmlns:h="Some_Prefix">
       This is book2 text
          <author>Ralls, Kim</author>
          <title>Midnight Rain</title>
          <genre>Fantasy</genre>
          <h:price>5.95</h:price>
          <publish_date>2000-12-16</publish_date>
          <description>A former architect battles corporate zombies,
          an evil sorceress, and her own childhood to become queen
          of the world.</description>
        </book>
    </catalog>
    "#;

fn catalog() -> ElementTree {
    ElementTree::parse(&events(CATALOG)).unwrap()
}

fn ask(path: &str) -> Result<Vec<(String, Option<String>, Option<String>)>, Error> {
    let mut bridge = Bridge::new(catalog(), path.to_string());
    bridge.token_step_filler();
    let found = bridge.produce()?;
    Ok(found
        .iter()
        .map(|item| match item {
            ReturnEnum::ElementNode(element) => (
                element.tag.clone(),
                element.attributes.get("id").cloned(),
                element.text.clone(),
            ),
            ReturnEnum::ElementName(name) => (name.clone(), None, None),
        })
        .collect())
}

#[test]
fn test_child_query() {
    let doc = catalog();
    let query: String = "//title[2]".to_string();
    let mut bridge1 = Bridge::new(doc, query);
    bridge1.token_step_filler();
    let result: Result<Vec<ReturnEnum>, Error> = bridge1.produce();
    let k = result.unwrap();
    match &k[0] {
        ReturnEnum::ElementNode(t) => {
            assert_eq!("Midnight Rain".to_string(), t.text.as_ref().unwrap().to_string());
        }
        ReturnEnum::ElementName(_) => {}
    }
}

#[test]
fn parsed_catalog_second_title() {
    assert_eq!(
        ask("//title[2]"),
        Ok(vec![("title".to_string(), None, Some("Midnight Rain".to_string()))])
    );
}

#[test]
fn parsed_catalog_second_book() {
    let found = ask("//book[2]").unwrap();
    assert_eq!(found.len(), 1);
    assert_eq!(found[0].0, "book");
    assert_eq!(found[0].1.as_deref(), Some("second"));
}

#[test]
fn parsed_catalog_book_by_attribute() {
    let found = ask("//book[@id=first]").unwrap();
    assert_eq!(found.len(), 1);
    assert_eq!(found[0].0, "book");
    assert_eq!(found[0].1.as_deref(), Some("first"));
}

#[test]
fn parsed_catalog_unknown_tag() {
    assert_eq!(ask("//nonexistent"), Err(Error::XPath));
}

#[test]
fn parsed_catalog_open_bracket() {
    assert_eq!(ask("//book[2"), Err(Error::XPath));
}

#[test]
fn parsed_catalog_namespace_of_first_price() {
    assert_eq!(ask("//namespaceprice[1]"), Ok(vec![("first".to_string(), None, None)]));
}

#[test]
fn parsed_catalog_keeps_document_order_and_text() {
    let doc = catalog();
    let root = doc.root.as_ref().unwrap();
    assert_eq!(root.tag, "catalog");
    assert_eq!(root.namespace, None);
    assert_eq!(root.children.len(), 2);
    let first = &root.children[0];
    assert_eq!(first.attributes.get("id").map(|s| s.as_str()), Some("first"));
    assert_eq!(first.attributes.get("name").map(|s| s.as_str()), Some("Rahul"));
    assert_eq!(first.attributes.len(), 2);
    let tags: Vec<&str> = first.children.iter().map(|c| c.tag.as_str()).collect();
    assert_eq!(tags, vec!["author", "title", "genre", "price", "publish_date", "description"]);
    assert_eq!(first.children[1].namespace.as_deref(), Some("first"));
    assert_eq!(first.children[1].text.as_deref(), Some("XML Developer's Guide"));
    assert_eq!(first.children[5].namespace, None);
    assert!(first.text.as_deref().unwrap().contains("this is book1 text"));
    assert!(root.text.as_deref().unwrap().starts_with(" catalog test"));
    assert!(root.text.as_deref().unwrap().contains("This is again, a text in catalog"));
}
