use xml_parser_nav::errors::Error;
use xml_parser_nav::parser::Token;
use xml_parser_nav::tokens::{render_number, AxesName, ValidToken};
use xml_parser_nav::translator::Bridge;
use xml_parser_nav::tree::ElementTree;

fn lex(path: &str) -> (Vec<ValidToken>, bool) {
    let mut lexer = Token::new(path.to_string());
    let mut out = Vec::new();
    while !lexer.is_end() {
        match lexer.next_func() {
            Ok(token) => out.push(token),
            Err(error) => {
                assert_eq!(error, Error::Token);
                assert!(lexer.is_end());
                return (out, false);
            }
        }
    }
    (out, true)
}

fn literal(text: &str) -> ValidToken {
    ValidToken::Literal(text.to_string())
}

#[test]
fn every_structural_symbol_is_read() {
    assert_eq!(
        lex("..//./[]()@::="),
        (
            vec![
                ValidToken::Parent,
                ValidToken::DoubleForwardSlash,
                ValidToken::Period,
                ValidToken::ForwardSlash,
                ValidToken::LeftBracket,
                ValidToken::RightBracket,
                ValidToken::LeftParen,
                ValidToken::RightParen,
                ValidToken::AtSign,
                ValidToken::LocationStep,
                ValidToken::Equal,
            ],
            true
        )
    );
}

#[test]
fn longer_symbol_wins_over_its_beginning() {
    assert_eq!(lex("//"), (vec![ValidToken::DoubleForwardSlash], true));
    assert_eq!(lex("///"), (vec![ValidToken::DoubleForwardSlash, ValidToken::ForwardSlash], true));
    assert_eq!(lex("..."), (vec![ValidToken::Parent, ValidToken::Period], true));
}

#[test]
fn single_colon_is_no_token() {
    assert_eq!(lex("a:b"), (vec![literal("a")], false));
}

#[test]
fn every_axis_keyword_is_read() {
    let all = [
        ("ancestor-or-self", AxesName::AncestorOrSelf),
        ("ancestor", AxesName::Ancestor),
        ("attribute", AxesName::Attribute),
        ("child", AxesName::Child),
        ("descendant-or-self", AxesName::DescendantOrSelf),
        ("descendant", AxesName::Descendant),
        ("following-sibling", AxesName::FollowingSibling),
        ("following", AxesName::Following),
        ("namespace", AxesName::Namespace),
        ("parent", AxesName::Parent),
        ("preceding-sibling", AxesName::PrecedingSibling),
        ("preceding", AxesName::Preceding),
        ("self", AxesName::SelfAxis),
    ];
    for (text, axis) in all {
        assert_eq!(lex(text), (vec![ValidToken::Axes(axis)], true));
    }
}

#[test]
fn keyword_at_the_start_of_a_word_is_split_off() {
    assert_eq!(lex("children"), (vec![ValidToken::Axes(AxesName::Child), literal("ren")], true));
    assert_eq!(
        lex("childcatalog"),
        (vec![ValidToken::Axes(AxesName::Child), literal("catalog")], true)
    );
    assert_eq!(lex("selfish"), (vec![ValidToken::Axes(AxesName::SelfAxis), literal("ish")], true));
}

#[test]
fn keyword_inside_a_word_is_part_of_the_literal() {
    assert_eq!(lex("myself"), (vec![literal("myself")], true));
    assert_eq!(lex("Child"), (vec![literal("Child")], true));
}

#[test]
fn keyword_cut_short_is_a_literal() {
    assert_eq!(lex("ancestor-or"), (vec![ValidToken::Axes(AxesName::Ancestor)], false));
    assert_eq!(lex("chil"), (vec![literal("chil")], true));
}

#[test]
fn literal_is_the_longest_run_of_letters() {
    assert_eq!(lex("abcXYZ"), (vec![literal("abcXYZ")], true));
    assert_eq!(lex("ab1"), (vec![literal("ab"), ValidToken::Number(1)], true));
    assert_eq!(lex("ab_c"), (vec![literal("ab")], false));
    assert_eq!(lex("ab-c"), (vec![literal("ab")], false));
}

#[test]
fn number_is_the_value_of_the_longest_run_of_digits() {
    assert_eq!(lex("0"), (vec![ValidToken::Number(0)], true));
    assert_eq!(lex("007"), (vec![ValidToken::Number(7)], true));
    assert_eq!(lex("1234567890"), (vec![ValidToken::Number(1234567890)], true));
    assert_eq!(lex("12a"), (vec![ValidToken::Number(12), literal("a")], true));
    assert_eq!(lex("18446744073709551615"), (vec![ValidToken::Number(u64::MAX)], true));
}

#[test]
fn number_too_large_is_the_largest_number() {
    assert_eq!(lex("18446744073709551616"), (vec![ValidToken::Number(u64::MAX)], true));
    assert_eq!(lex("99999999999999999999999999999"), (vec![ValidToken::Number(u64::MAX)], true));
    assert_eq!(lex("184467440737095516150"), (vec![ValidToken::Number(u64::MAX)], true));
}

#[test]
fn colon_after_digits_is_not_part_of_the_number() {
    assert_eq!(lex("1:"), (vec![ValidToken::Number(1)], false));
    assert_eq!(lex("1::"), (vec![ValidToken::Number(1), ValidToken::LocationStep], true));
}

#[test]
fn decimal_point_and_sign_are_not_part_of_a_number() {
    assert_eq!(
        lex("1.5"),
        (vec![ValidToken::Number(1), ValidToken::Period, ValidToken::Number(5)], true)
    );
    assert_eq!(lex("-1"), (vec![], false));
}

#[test]
fn no_rule_for_a_character_fails_and_ends_the_lexer() {
    for path in ["#", " ", "a b", "/a#", "é", "a|b", "*"] {
        let (_, complete) = lex(path);
        assert!(!complete, "{path}");
    }
    let mut lexer = Token::new("/a#b/c".to_string());
    assert_eq!(lexer.next_func(), Ok(ValidToken::ForwardSlash));
    assert_eq!(lexer.next_func(), Ok(literal("a")));
    assert!(!lexer.is_end());
    assert_eq!(lexer.next_func(), Err(Error::Token));
    assert!(lexer.is_end());
    assert_eq!(lexer.next_func(), Err(Error::Token));
    assert_eq!(lexer.next(), None);
}

#[test]
fn letters_outside_ascii_are_no_literal() {
    assert_eq!(lex("aé"), (vec![literal("a")], false));
    assert_eq!(lex("é/a"), (vec![], false));
}

#[test]
fn empty_path_is_at_its_end() {
    let mut lexer = Token::new(String::new());
    assert!(lexer.is_end());
    assert_eq!(lexer.next(), None);
    assert_eq!(lexer.next_func(), Err(Error::Token));
    assert!(lexer.is_end());
}

#[test]
fn next_yields_the_tokens_and_then_nothing() {
    let mut lexer = Token::new("//book[2]".to_string());
    assert!(!lexer.is_end());
    assert_eq!(lexer.next(), Some(ValidToken::DoubleForwardSlash));
    assert_eq!(lexer.next(), Some(literal("book")));
    assert_eq!(lexer.next(), Some(ValidToken::LeftBracket));
    assert_eq!(lexer.next(), Some(ValidToken::Number(2)));
    assert!(!lexer.is_end());
    assert_eq!(lexer.next(), Some(ValidToken::RightBracket));
    assert!(lexer.is_end());
    assert_eq!(lexer.next(), None);
    assert_eq!(lexer.next(), None);
}

#[test]
fn next_yields_nothing_after_a_failure() {
    let mut lexer = Token::new("a#b".to_string());
    assert_eq!(lexer.next(), Some(literal("a")));
    assert_eq!(lexer.next(), None);
    assert!(lexer.is_end());
    assert_eq!(lexer.next(), None);
}

#[test]
fn same_rest_gives_the_same_token() {
    let mut one = Token::new("/a/book[12]".to_string());
    let mut two = Token::new("book[12]".to_string());
    one.next_func().unwrap();
    one.next_func().unwrap();
    one.next_func().unwrap();
    loop {
        let a = one.next_func();
        let b = two.next_func();
        assert_eq!(a, b);
        assert_eq!(one.is_end(), two.is_end());
        if a.is_err() {
            break;
        }
    }
    let mut again = Token::new("/a/book[12]".to_string());
    assert_eq!(again.next_func(), Token::new("/a/book[12]".to_string()).next_func());
}

#[test]
fn filler_rewrites_shorthand_symbols() {
    let mut bridge = Bridge::new(ElementTree::new(), "..//./@[a]=(1)::child".to_string());
    bridge.token_step_filler();
    assert_eq!(bridge.error, None);
    assert!(bridge.token.is_end());
    assert_eq!(
        bridge.token_steps,
        vec![
            ValidToken::Axes(AxesName::Parent),
            ValidToken::Axes(AxesName::DescendantOrSelf),
            ValidToken::Axes(AxesName::SelfAxis),
            ValidToken::Axes(AxesName::Child),
            ValidToken::Axes(AxesName::Attribute),
            ValidToken::LeftBracket,
            literal("a"),
            ValidToken::RightBracket,
            ValidToken::Equal,
            ValidToken::LeftParen,
            ValidToken::Number(1),
            ValidToken::RightParen,
            ValidToken::LocationStep,
            ValidToken::Axes(AxesName::Child),
        ]
    );
}

#[test]
fn filler_keeps_the_error_and_the_steps_before_it() {
    let mut bridge = Bridge::new(ElementTree::new(), "/a#/b".to_string());
    assert_eq!(bridge.error, None);
    assert!(bridge.token_steps.is_empty());
    bridge.token_step_filler();
    assert_eq!(bridge.error, Some(Error::Token));
    assert!(bridge.token.is_end());
    assert_eq!(bridge.token_steps, vec![ValidToken::Axes(AxesName::Child), literal("a")]);
    bridge.token_step_filler();
    assert_eq!(bridge.error, Some(Error::Token));
    assert_eq!(bridge.token_steps.len(), 2);
}

#[test]
fn filler_appends_to_the_steps_that_are_there() {
    let mut bridge = Bridge::new(ElementTree::new(), "/b".to_string());
    bridge.token_steps.push(ValidToken::Period);
    bridge.token_step_filler();
    assert_eq!(
        bridge.token_steps,
        vec![ValidToken::Period, ValidToken::Axes(AxesName::Child), literal("b")]
    );
}

#[test]
fn expansion_of_one_token() {
    let mut bridge = Bridge::new(ElementTree::new(), String::new());
    bridge.expand_abbreviation(ValidToken::Period);
    bridge.expand_abbreviation(ValidToken::AtSign);
    bridge.expand_abbreviation(ValidToken::Parent);
    bridge.expand_abbreviation(ValidToken::DoubleForwardSlash);
    bridge.expand_abbreviation(ValidToken::ForwardSlash);
    bridge.expand_abbreviation(ValidToken::Number(3));
    bridge.expand_abbreviation(ValidToken::Axes(AxesName::Following));
    bridge.expand_abbreviation(ValidToken::LocationStep);
    assert_eq!(
        bridge.token_steps,
        vec![
            ValidToken::Axes(AxesName::SelfAxis),
            ValidToken::Axes(AxesName::Attribute),
            ValidToken::Axes(AxesName::Parent),
            ValidToken::Axes(AxesName::DescendantOrSelf),
            ValidToken::Axes(AxesName::Child),
            ValidToken::Number(3),
            ValidToken::Axes(AxesName::Following),
            ValidToken::LocationStep,
        ]
    );
}

#[test]
fn tokens_are_shown_by_their_text() {
    assert_eq!(ValidToken::Parent.text(), "..");
    assert_eq!(ValidToken::DoubleForwardSlash.text(), "//");
    assert_eq!(ValidToken::Period.text(), ".");
    assert_eq!(ValidToken::ForwardSlash.text(), "/");
    assert_eq!(ValidToken::LeftBracket.text(), "[");
    assert_eq!(ValidToken::RightBracket.text(), "]");
    assert_eq!(ValidToken::LeftParen.text(), "(");
    assert_eq!(ValidToken::RightParen.text(), ")");
    assert_eq!(ValidToken::Equal.text(), "=");
    assert_eq!(ValidToken::AtSign.text(), "@");
    assert_eq!(ValidToken::LocationStep.text(), "::");
    assert_eq!(literal("book").text(), "book");
    assert_eq!(ValidToken::Number(2).text(), "2");
    assert_eq!(ValidToken::Axes(AxesName::AncestorOrSelf).text(), "AncestorOrSelf");
    assert_eq!(AxesName::SelfAxis.name(), "SelfAxis");
    assert_eq!(AxesName::PrecedingSibling.name(), "PrecedingSibling");
}

#[test]
fn numbers_are_written_in_decimal() {
    assert_eq!(render_number(0), "0");
    assert_eq!(render_number(9), "9");
    assert_eq!(render_number(10), "10");
    assert_eq!(render_number(4095), "4095");
    assert_eq!(render_number(u64::MAX), "18446744073709551615");
}

#[test]
fn token_clone_is_equal() {
    let tokens = lex("//book[@id=first][2]..").0;
    let copies: Vec<ValidToken> = tokens.iter().map(|t| t.clone()).collect();
    assert_eq!(tokens, copies);
}

#[test]
fn errors_are_shown_by_their_message() {
    assert_eq!(Error::Token.message(), "Invalid Token");
    assert_eq!(Error::XPath.message(), "Incorrect path");
    assert_eq!(Error::NoNamespace.message(), "No Namespace");
    assert_eq!(Error::XPathOpenBracket.message(), "No matching open bracket");
}
