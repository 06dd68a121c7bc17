use xml_parser_nav::element::ElementBuilder;
use xml_parser_nav::errors::Error;
use xml_parser_nav::tokens::{AxesName, ValidToken};
use xml_parser_nav::translator::{Bridge, ReturnEnum};
use xml_parser_nav::tree::ElementTree;

// a(id=r)
//   b(id=bx)
//     c "c1"
//       d
//         e "e1"
//     f
//   c(id=cx)
//     g
//       h
//     i
//   p:b(id=by)
//     c "c3"
fn sample() -> ElementTree {
    let mut e = ElementBuilder::new("e");
    e.text("e1");
    let mut d = ElementBuilder::new("d");
    d.children(vec![&mut e]);
    let mut c1 = ElementBuilder::new("c");
    c1.text("c1").children(vec![&mut d]);
    let mut f = ElementBuilder::new("f");
    let mut b1 = ElementBuilder::new("b");
    b1.attr("id", "bx").children(vec![&mut c1, &mut f]);
    let mut h = ElementBuilder::new("h");
    let mut g = ElementBuilder::new("g");
    g.children(vec![&mut h]);
    let mut i = ElementBuilder::new("i");
    let mut c2 = ElementBuilder::new("c");
    c2.attr("id", "cx").children(vec![&mut g, &mut i]);
    let mut c3 = ElementBuilder::new("c");
    c3.text("c3");
    let mut b2 = ElementBuilder::new("b");
    b2.prefix("p").attr("id", "by").children(vec![&mut c3]);
    let mut a = ElementBuilder::new("a");
    a.attr("id", "r").children(vec![&mut b1, &mut c2, &mut b2]);
    ElementTree::new_with_root(a)
}

fn show(found: Vec<ReturnEnum>) -> Vec<String> {
    let mut out = Vec::new();
    for item in found {
        match item {
            ReturnEnum::ElementNode(element) => {
                let mark = match (element.attributes.get("id"), &element.text) {
                    (Some(id), _) => id.clone(),
                    (None, Some(text)) => text.clone(),
                    (None, None) => String::new(),
                };
                out.push(format!("{}:{}", element.tag, mark));
            }
            ReturnEnum::ElementName(name) => out.push(format!("name={}", name)),
        }
    }
    out
}

fn ask(path: &str) -> Result<Vec<String>, Error> {
    let mut bridge = Bridge::new(sample(), path.to_string());
    bridge.token_step_filler();
    assert!(bridge.error.is_none());
    bridge.produce().map(show)
}

fn names(list: &[&str]) -> Result<Vec<String>, Error> {
    Ok(list.iter().map(|s| s.to_string()).collect())
}

#[test]
fn child_axis_seeds_with_the_root() {
    assert_eq!(ask("/a"), names(&["a:r"]));
}

#[test]
fn child_axis_with_another_root_tag_finds_nothing() {
    assert_eq!(ask("/x"), names(&[]));
}

#[test]
fn child_axis_keeps_the_order_of_the_outer_nodes() {
    assert_eq!(ask("/a/b"), names(&["b:bx", "b:by"]));
    assert_eq!(ask("/a/b/c"), names(&["c:c1", "c:c3"]));
}

#[test]
fn child_keyword_is_the_child_axis() {
    assert_eq!(ask("childa/b"), names(&["b:bx", "b:by"]));
}

#[test]
fn descent_yields_matches_with_their_grandchildren_level_by_level() {
    assert_eq!(ask("//c"), names(&["c:cx", "h:", "c:c1", "e:e1", "c:c3"]));
}

#[test]
fn descent_does_not_go_on_below_a_match() {
    assert_eq!(ask("//b"), names(&["b:bx", "d:", "b:by"]));
}

#[test]
fn descent_or_self_stops_at_a_start_that_matches() {
    assert_eq!(ask("//a"), names(&["a:r"]));
}

#[test]
fn steps_go_on_after_a_start_that_matches() {
    assert_eq!(ask("//a/b"), names(&["b:bx", "b:by"]));
}

#[test]
fn descendant_axis_descends_from_a_start_that_matches() {
    assert_eq!(ask("/descendant::a"), names(&["a:r"]));
    assert_eq!(ask("/a/b[1]/descendant::b"), names(&["b:bx"]));
    assert_eq!(ask("/a/descendant::c"), names(&["c:cx", "h:", "c:c1", "e:e1", "c:c3"]));
}

#[test]
fn descent_starts_at_the_last_node_found_and_keeps_the_others() {
    assert_eq!(ask("/a/b//c"), names(&["b:bx", "c:c3"]));
}

#[test]
fn descent_without_a_match_fails() {
    assert_eq!(ask("//zzz"), Err(Error::XPath));
}

#[test]
fn parent_axis_yields_the_parent_of_the_first_bearer() {
    assert_eq!(ask("/parent::c"), names(&["a:r"]));
    assert_eq!(ask("/..e"), names(&["d:"]));
    assert_eq!(ask("/a/b/parent::h"), names(&["g:"]));
}

#[test]
fn slash_after_two_periods_is_a_child_step() {
    assert_eq!(ask("/../c"), names(&[]));
    assert_eq!(ask("/a/../b"), names(&["b:bx", "b:by"]));
}

#[test]
fn parent_axis_without_a_bearer_yields_nothing() {
    assert_eq!(ask("/parent::zzz"), names(&[]));
}

#[test]
fn ancestor_axis_yields_the_chain_up_to_the_root() {
    assert_eq!(ask("//ancestor::e"), names(&["d:", "c:c1", "b:bx", "a:r"]));
    assert_eq!(ask("//ancestor::c"), names(&["a:r"]));
}

#[test]
fn ancestor_axis_without_a_bearer_yields_nothing() {
    assert_eq!(ask("//ancestor::zzz"), names(&[]));
}

#[test]
fn ancestor_axis_needs_a_pending_descent() {
    assert_eq!(ask("/ancestor::e"), Err(Error::XPath));
    assert_eq!(ask("//a/ancestor::e"), Err(Error::XPath));
    assert_eq!(ask("/ancestor-or-self::e"), Err(Error::XPath));
}

#[test]
fn ancestor_or_self_axis_puts_the_bearer_first() {
    assert_eq!(ask("//ancestor-or-self::e"), names(&["e:e1", "d:", "c:c1", "b:bx", "a:r"]));
}

#[test]
fn ancestor_or_self_axis_without_a_bearer_fails() {
    assert_eq!(ask("//ancestor-or-self::zzz"), Err(Error::XPath));
}

#[test]
fn self_axis_yields_the_first_matching_child_of_the_current_node() {
    assert_eq!(ask("/a/self::b"), names(&["b:bx"]));
    assert_eq!(ask("/a/self::c"), names(&["c:cx"]));
}

#[test]
fn self_axis_without_a_matching_child_fails() {
    assert_eq!(ask("/a/self::zzz"), Err(Error::XPath));
}

#[test]
fn self_axis_with_nothing_found_seeds_with_the_root() {
    assert_eq!(ask("/self::zzz"), names(&["a:r"]));
}

#[test]
fn period_keeps_what_was_found() {
    assert_eq!(ask("/a/."), names(&["a:r"]));
    assert_eq!(ask("/a/b/."), names(&["b:bx", "b:by"]));
}

#[test]
fn namespace_axis_yields_the_prefix_of_the_current_node() {
    assert_eq!(ask("/a/b/namespace"), names(&["name=p"]));
    assert_eq!(ask("/a/b[2]/namespace"), names(&["name=p"]));
}

#[test]
fn namespace_axis_leaves_a_pending_descent_alone() {
    assert_eq!(ask("//namespaceb[3]"), names(&["name=p"]));
}

#[test]
fn namespace_axis_on_a_node_without_prefix_fails() {
    assert_eq!(ask("/a/namespace"), Err(Error::NoNamespace));
    assert_eq!(ask("/a/b[1]/namespace"), Err(Error::NoNamespace));
}

#[test]
fn namespace_axis_with_nothing_found_fails() {
    assert_eq!(ask("/x/namespace"), Err(Error::XPath));
}

#[test]
fn namespace_result_does_not_need_a_closed_bracket() {
    assert_eq!(ask("/a/b[2/namespace"), names(&["name=p"]));
}

#[test]
fn following_sibling_axis_yields_what_comes_after_the_first_bearer() {
    assert_eq!(ask("/a/b[1]/following-sibling::c"), names(&["b:by"]));
    assert_eq!(ask("/a/b[1]/following-sibling::b"), names(&["c:cx", "b:by"]));
    assert_eq!(ask("/a/b[1]/following-sibling::zzz"), names(&[]));
}

#[test]
fn preceding_sibling_axis_yields_what_comes_before_the_first_bearer() {
    assert_eq!(ask("/a/b[2]/preceding-sibling::c"), names(&["b:bx"]));
    assert_eq!(ask("/a/b[2]/preceding-sibling::b"), names(&[]));
    assert_eq!(ask("/a/b[2]/preceding-sibling::zzz"), names(&["b:bx", "c:cx", "b:by"]));
}

#[test]
fn sibling_axes_use_the_parent_of_the_last_node_found() {
    assert_eq!(ask("/a/b/c/preceding-sibling::zzz"), names(&["c:c3"]));
    assert_eq!(ask("/a/b/c[1]/following-sibling::c"), names(&["f:"]));
}

#[test]
fn sibling_axes_fail_at_the_root_and_with_nothing_found() {
    assert_eq!(ask("/a/following-sibling::b"), Err(Error::XPath));
    assert_eq!(ask("/a/preceding-sibling::b"), Err(Error::XPath));
    assert_eq!(ask("/x/following-sibling::b"), Err(Error::XPath));
}

#[test]
fn steps_go_on_after_a_sibling_axis() {
    assert_eq!(ask("/a/b[1]/following-sibling::b[2]"), names(&["b:by"]));
}

#[test]
fn following_and_preceding_axes_change_nothing() {
    assert_eq!(ask("/a/following::b"), names(&["b:bx", "b:by"]));
    assert_eq!(ask("/a/preceding::b"), names(&["b:bx", "b:by"]));
}

#[test]
fn attribute_test_keeps_the_first_node_that_passes() {
    assert_eq!(ask("//b[@id=by]"), names(&["b:by"]));
    assert_eq!(ask("/a/b[@id=bx]"), names(&["b:bx"]));
    assert_eq!(ask("/a/b[attributeid=by]"), names(&["b:by"]));
}

#[test]
fn attribute_test_takes_the_first_of_two_that_pass() {
    let mut one = ElementBuilder::new("k");
    one.attr("v", "x").text("one");
    let mut two = ElementBuilder::new("k");
    two.attr("v", "x").text("two");
    let mut top = ElementBuilder::new("t");
    top.children(vec![&mut one, &mut two]);
    let mut bridge = Bridge::new(ElementTree::new_with_root(top), "/t/k[@v=x]".to_string());
    bridge.token_step_filler();
    let found = bridge.produce().unwrap();
    assert_eq!(found.len(), 1);
    match &found[0] {
        ReturnEnum::ElementNode(element) => assert_eq!(element.text.as_deref(), Some("one")),
        ReturnEnum::ElementName(_) => panic!("a node was expected"),
    }
}

#[test]
fn attribute_test_that_no_node_passes_fails() {
    assert_eq!(ask("//b[@id=zzz]"), Err(Error::XPath));
    assert_eq!(ask("//b[@zzz=bx]"), Err(Error::XPath));
}

#[test]
fn digits_end_the_value_of_an_attribute_test() {
    assert_eq!(ask("/a/b[@id=bx2]"), Err(Error::XPath));
    assert_eq!(ask("/a/b[@id=bx1]"), names(&["b:bx"]));
}

#[test]
fn attribute_name_alone_is_no_complete_query() {
    assert_eq!(ask("/a/b[@id]"), Err(Error::XPath));
}

#[test]
fn equal_sign_needs_an_attribute_name() {
    assert_eq!(ask("/a=b"), Err(Error::XPath));
    assert_eq!(ask("/a[@=b]"), Err(Error::XPath));
    assert_eq!(ask("/a/b[@id=bx][@=bx]"), Err(Error::XPath));
}

#[test]
fn number_selects_by_position_counted_from_one() {
    assert_eq!(ask("/a/b[1]"), names(&["b:bx"]));
    assert_eq!(ask("/a/b[2]"), names(&["b:by"]));
    assert_eq!(ask("//c[4]"), names(&["e:e1"]));
    assert_eq!(ask("//c[5]"), names(&["c:c3"]));
}

#[test]
fn number_out_of_range_fails() {
    assert_eq!(ask("/a/b[3]"), Err(Error::XPath));
    assert_eq!(ask("/a/b[0]"), Err(Error::XPath));
    assert_eq!(ask("/x[1]"), Err(Error::XPath));
    assert_eq!(ask("//c[6]"), Err(Error::XPath));
    assert_eq!(ask("/a/b[99999999999999999999999999]"), Err(Error::XPath));
}

#[test]
fn number_outside_a_bracket_fails() {
    assert_eq!(ask("/a/b2"), Err(Error::XPath));
    assert_eq!(ask("/a1"), Err(Error::XPath));
}

#[test]
fn closing_bracket_without_an_open_one_fails() {
    assert_eq!(ask("/a]"), Err(Error::XPathOpenBracket));
    assert_eq!(ask("/a/b[1]]"), Err(Error::XPathOpenBracket));
    assert_eq!(ask("//c]["), Err(Error::XPathOpenBracket));
}

#[test]
fn closing_bracket_after_a_failed_step_is_not_reached() {
    assert_eq!(ask("]a"), Err(Error::XPath));
    assert_eq!(ask("/a/b[7]]"), Err(Error::XPath));
}

#[test]
fn bracket_left_open_fails() {
    assert_eq!(ask("/a/b[1"), Err(Error::XPath));
    assert_eq!(ask("/a["), Err(Error::XPath));
}

#[test]
fn query_must_open_with_child_or_descendant_or_self() {
    assert_eq!(ask("a/b"), Err(Error::XPath));
    assert_eq!(ask("../a"), Err(Error::XPath));
    assert_eq!(ask("./a"), Err(Error::XPath));
    assert_eq!(ask("[1]/a"), Err(Error::XPath));
    assert_eq!(ask("@id/a"), Err(Error::XPath));
    assert_eq!(ask("parent::a/b"), Err(Error::XPath));
    assert_eq!(ask("descendant::a"), Err(Error::XPath));
    assert_eq!(ask("12/a"), Err(Error::XPath));
}

#[test]
fn query_of_one_step_fails() {
    assert_eq!(ask("/"), Err(Error::XPath));
    assert_eq!(ask("//"), Err(Error::XPath));
    assert_eq!(ask("a"), Err(Error::XPath));
    assert_eq!(ask("child"), Err(Error::XPath));
}

#[test]
fn query_without_steps_fails() {
    assert_eq!(ask(""), Err(Error::XPath));
}

#[test]
fn query_on_a_document_without_root_fails() {
    let mut bridge = Bridge::new(ElementTree::new(), "/a".to_string());
    bridge.token_step_filler();
    assert_eq!(bridge.produce().map(show), Err(Error::XPath));
}

#[test]
fn parentheses_and_location_steps_are_passed_over() {
    assert_eq!(ask("/a/b(::)"), names(&["b:bx", "b:by"]));
}

#[test]
fn at_sign_as_a_step_needs_an_open_bracket() {
    let mut bridge = Bridge::new(sample(), String::new());
    bridge.token_steps = vec![
        ValidToken::Axes(AxesName::Child),
        ValidToken::Literal("a".to_string()),
        ValidToken::AtSign,
    ];
    assert_eq!(bridge.produce().map(show), Err(Error::XPath));
    bridge.token_steps = vec![
        ValidToken::Axes(AxesName::Child),
        ValidToken::Literal("a".to_string()),
        ValidToken::LeftBracket,
        ValidToken::AtSign,
        ValidToken::RightBracket,
    ];
    assert_eq!(bridge.produce().map(show), names(&["a:r"]));
}

#[test]
fn shorthand_symbols_as_steps_are_passed_over() {
    let mut bridge = Bridge::new(sample(), String::new());
    bridge.token_steps = vec![
        ValidToken::Axes(AxesName::Child),
        ValidToken::Literal("a".to_string()),
        ValidToken::ForwardSlash,
        ValidToken::Period,
        ValidToken::Parent,
        ValidToken::DoubleForwardSlash,
    ];
    assert_eq!(bridge.produce().map(show), names(&["a:r"]));
    bridge.token_steps = vec![ValidToken::ForwardSlash, ValidToken::Literal("a".to_string())];
    assert_eq!(bridge.produce().map(show), Err(Error::XPath));
}

#[test]
fn literal_with_nothing_pending_is_passed_over() {
    let mut bridge = Bridge::new(sample(), String::new());
    bridge.token_steps = vec![
        ValidToken::Axes(AxesName::Child),
        ValidToken::Literal("a".to_string()),
        ValidToken::Literal("b".to_string()),
    ];
    assert_eq!(bridge.produce().map(show), names(&["a:r"]));
}

#[test]
fn same_query_twice_gives_the_same_results() {
    let mut bridge = Bridge::new(sample(), "//c[3]".to_string());
    bridge.token_step_filler();
    let one = bridge.produce().map(show);
    let two = bridge.produce().map(show);
    assert_eq!(one, names(&["c:c1"]));
    assert_eq!(one, two);
}

#[test]
fn results_are_the_nodes_of_the_tree_themselves() {
    let mut bridge = Bridge::new(sample(), "/a/b[2]".to_string());
    bridge.token_step_filler();
    let found = bridge.produce().unwrap();
    let root = bridge.tree.root.as_ref().unwrap();
    match &found[0] {
        ReturnEnum::ElementNode(element) => assert!(std::ptr::eq(*element, &root.children[2])),
        ReturnEnum::ElementName(_) => panic!("a node was expected"),
    }
}
