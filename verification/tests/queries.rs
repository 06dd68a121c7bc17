use xml_parser_nav::element::{Element, ElementBuilder};
use xml_parser_nav::errors::Error;
use xml_parser_nav::translator::{Bridge, ReturnEnum};
use xml_parser_nav::tree::ElementTree;

fn leaf(name: &str, text: &str) -> ElementBuilder {
    let mut builder = ElementBuilder::new(name);
    builder.text(text);
    builder
}

fn book(id: &str, title: &str, author: &str) -> ElementBuilder {
    let mut author = leaf("author", author);
    let mut title = leaf("title", title);
    let mut genre = leaf("genre", "Computer");
    let mut book = ElementBuilder::new("book");
    book.attr("id", id).children(vec![&mut author, &mut title, &mut genre]);
    book
}

fn catalog() -> ElementTree {
    let mut first = book("first", "XML Developer's Guide", "Gambardella, Matthew");
    let mut second = book("second", "Midnight Rain", "Ralls, Kim");
    let mut catalog = ElementBuilder::new("catalog");
    catalog.children(vec![&mut first, &mut second]);
    ElementTree::new_with_root(catalog)
}

fn ask(path: &str) -> Result<Vec<String>, Error> {
    let mut bridge = Bridge::new(catalog(), path.to_string());
    bridge.token_step_filler();
    let found = bridge.produce()?;
    let mut out = Vec::new();
    for item in found {
        match item {
            ReturnEnum::ElementNode(element) => {
                let element: &Element = element;
                let id = element.attributes.get("id").cloned().unwrap_or_default();
                let text = element.text.clone().unwrap_or_default();
                out.push(format!("{}|{}|{}", element.tag, id, text));
            }
            ReturnEnum::ElementName(name) => out.push(format!("name:{}", name)),
        }
    }
    Ok(out)
}

#[test]
fn second_title_by_number() {
    assert_eq!(ask("//title[2]"), Ok(vec!["title||Midnight Rain".to_string()]));
}

#[test]
fn second_book_by_number() {
    assert_eq!(ask("//book[2]"), Ok(vec!["book|second|".to_string()]));
}

#[test]
fn book_by_attribute() {
    assert_eq!(ask("//book[@id=first]"), Ok(vec!["book|first|".to_string()]));
}

#[test]
fn unknown_tag_fails() {
    assert_eq!(ask("//nonexistent"), Err(Error::XPath));
}

#[test]
fn open_bracket_at_end_fails() {
    assert_eq!(ask("//book[2"), Err(Error::XPath));
}
