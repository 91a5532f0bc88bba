use std::collections::HashMap;

use svg_simple_parser::parse::{
    attribute, attribute_hash, attribute_value, double_element, element, element_list,
    element_start, single_element, sp,
};
use svg_simple_parser::{parse, Attributes, ParseFailure, Rule};

fn parsed_map<'a>(attributes: &Attributes<'a>) -> HashMap<String, &'a str> {
    let mut map = HashMap::new();
    let mut i = 0;
    while let Some(entry) = attributes.nth(i) {
        map.insert(entry.name.clone(), entry.value);
        i += 1;
    }
    map
}

#[test]
fn parse_test_parse() {
    let (_, root) = parse(
        r#"
        <svg xmlns="http://www.w3.org/2000/svg" version="1.1">
            <circle cx="100" cy="50" r="40" stroke="black" stroke-width="2" fill="red"/>
        </svg>
        "#,
    )
    .unwrap();
    assert_eq!(root.ele_type, "svg");
    assert_eq!(
        parsed_map(&root.attributes),
        HashMap::from([
            ("xmlns".to_owned(), "http://www.w3.org/2000/svg"),
            ("version".to_owned(), "1.1"),
        ])
    );
    let child = &root.children[0];
    assert_eq!(child.ele_type, "circle");
    assert_eq!(
        parsed_map(&child.attributes),
        HashMap::from([
            ("cx".to_owned(), "100"),
            ("cy".to_owned(), "50"),
            ("r".to_owned(), "40"),
            ("stroke".to_owned(), "black"),
            ("stroke-width".to_owned(), "2"),
            ("fill".to_owned(), "red"),
        ])
    );
}

#[test]
fn test_elements() {
    let (_, v) =
        element_list(r#"<svg xmlns="http://www.w3.org/2000/svg" version="1.1"/>"#).unwrap();
    let one = &v[0];
    assert_eq!(one.ele_type, "svg");
    assert_eq!(
        parsed_map(&one.attributes),
        HashMap::from([
            ("xmlns".to_owned(), "http://www.w3.org/2000/svg"),
            ("version".to_owned(), "1.1"),
        ])
    );
}

#[test]
fn test_double_element() {
    let (_, root) =
        double_element(r#"<svg xmlns="http://www.w3.org/2000/svg" version="1.1"></svg>"#)
            .unwrap();
    assert_eq!(root.ele_type, "svg");
    assert_eq!(
        parsed_map(&root.attributes),
        HashMap::from([
            ("xmlns".to_owned(), "http://www.w3.org/2000/svg"),
            ("version".to_owned(), "1.1"),
        ])
    );
}

#[test]
fn test_single_element() {
    let (_, root) =
        single_element(r#"<svg xmlns="http://www.w3.org/2000/svg" version="1.1" />"#).unwrap();
    assert_eq!(root.ele_type, "svg");
    assert_eq!(
        parsed_map(&root.attributes),
        HashMap::from([
            ("xmlns".to_owned(), "http://www.w3.org/2000/svg"),
            ("version".to_owned(), "1.1"),
        ])
    );
}

#[test]
fn test_attribute_hash() {
    assert_eq!(
        attribute_hash("a=\"123\" b=\"456\" ").map(|(rest, list)| (rest, parsed_map(&list))),
        Ok((
            "",
            HashMap::from([("a".to_owned(), "123"), ("b".to_owned(), "456")])
        ))
    );
    assert_eq!(
        attribute_hash("b=\'123\' c=\'456\' ").map(|(rest, list)| (rest, parsed_map(&list))),
        Ok((
            "",
            HashMap::from([("b".to_owned(), "123"), ("c".to_owned(), "456")])
        ))
    );
}

#[test]
fn test_attribute() {
    assert_eq!(attribute("a=\"123\""), Ok(("", ("a", "123"))));
    assert_eq!(attribute("b=\'123\'"), Ok(("", ("b", "123"))));
}

#[test]
fn test_attribute_value() {
    assert_eq!(attribute_value("\'123\'"), Ok(("", "123")));
    assert_eq!(attribute_value("\'\'"), Ok(("", "")));
    assert_eq!(attribute_value("\"123\""), Ok(("", "123")));
    assert_eq!(attribute_value("\"\""), Ok(("", "")));
}

#[test]
fn sp_skips_the_four_kinds_of_whitespace() {
    assert_eq!(sp(" \t\r\n<a/>"), "<a/>");
    assert_eq!(sp("<a/> "), "<a/> ");
    assert_eq!(sp("   "), "");
    assert_eq!(sp(""), "");
    // A no-break space is no whitespace of the grammar.
    assert_eq!(sp("\u{a0}x"), "\u{a0}x");
}

#[test]
fn attribute_value_keeps_the_other_quote_and_whitespace() {
    assert_eq!(attribute_value("\"it's\" x"), Ok((" x", "it's")));
    assert_eq!(attribute_value("'say \"hi\"'>"), Ok((">", "say \"hi\"")));
    assert_eq!(attribute_value("\" a  b \""), Ok(("", " a  b ")));
    assert_eq!(attribute_value("\"é→ü\"/>"), Ok(("/>", "é→ü")));
}

#[test]
fn attribute_value_fails_without_quotes() {
    assert_eq!(
        attribute_value("100/>"),
        Err(ParseFailure { rule: Rule::AttributeHash, remaining: "100/>", committed: false })
    );
    assert_eq!(
        attribute_value(""),
        Err(ParseFailure { rule: Rule::AttributeHash, remaining: "", committed: false })
    );
    // The closing quote has to be of the kind of the opening one.
    assert_eq!(
        attribute_value("\"abc'"),
        Err(ParseFailure { rule: Rule::AttributeHash, remaining: "abc'", committed: false })
    );
}

#[test]
fn attribute_name_runs_up_to_space_or_equals() {
    assert_eq!(attribute("stroke-width=\"2\" fill"), Ok((" fill", ("stroke-width", "2"))));
    assert_eq!(attribute("xlink:href='#a'"), Ok(("", ("xlink:href", "#a"))));
    assert_eq!(
        attribute("=\"2\""),
        Err(ParseFailure { rule: Rule::AttributeHash, remaining: "=\"2\"", committed: false })
    );
    assert_eq!(
        attribute("width =\"2\""),
        Err(ParseFailure { rule: Rule::AttributeHash, remaining: " =\"2\"", committed: false })
    );
    assert_eq!(
        attribute("width"),
        Err(ParseFailure { rule: Rule::AttributeHash, remaining: "", committed: false })
    );
    assert_eq!(
        attribute("width=100"),
        Err(ParseFailure { rule: Rule::AttributeHash, remaining: "100", committed: false })
    );
}

#[test]
fn attribute_hash_of_nothing_is_empty() {
    let (rest, list) = attribute_hash("").unwrap();
    assert_eq!(rest, "");
    assert_eq!(list.len(), 0);
    let (rest, list) = attribute_hash("  \n/>").unwrap();
    assert_eq!(rest, "/>");
    assert_eq!(list.len(), 0);
    let (rest, list) = attribute_hash(">text").unwrap();
    assert_eq!(rest, ">text");
    assert_eq!(list.len(), 0);
}

#[test]
fn attribute_hash_takes_any_whitespace_between_attributes() {
    let (rest, list) = attribute_hash(" a=\"1\"\r\n\tb='2'c=\"3\" >").unwrap();
    assert_eq!(rest, ">");
    assert_eq!(
        parsed_map(&list),
        HashMap::from([("a".to_owned(), "1"), ("b".to_owned(), "2"), ("c".to_owned(), "3")])
    );
}

#[test]
fn attribute_hash_keeps_the_last_value_of_a_name() {
    let (_, list) = attribute_hash("a=\"1\" b=\"2\" a=\"3\"").unwrap();
    assert_eq!(list.len(), 2);
    assert_eq!(list.get("a"), Some("3"));
    assert_eq!(list.get("b"), Some("2"));
    assert_eq!(list.get("c"), None);
}

#[test]
fn attribute_hash_fails_where_the_list_does_not_reach_the_end_of_the_tag() {
    assert_eq!(
        attribute_hash(" width=100/>").err(),
        Some(ParseFailure { rule: Rule::AttributeHash, remaining: "width=100/>", committed: true })
    );
    assert_eq!(
        attribute_hash("a=\"1\" b >").err(),
        Some(ParseFailure { rule: Rule::AttributeHash, remaining: "b >", committed: true })
    );
    assert_eq!(
        attribute_hash("a=\"1\" / >").err(),
        Some(ParseFailure { rule: Rule::AttributeHash, remaining: "/ >", committed: true })
    );
}

#[test]
fn element_start_reads_the_tag_name() {
    assert_eq!(element_start("<svg"), Ok(("", "svg")));
    assert_eq!(element_start("< \n g1 x=\"1\">"), Ok((" x=\"1\">", "g1")));
    assert_eq!(element_start("<rect/>"), Ok(("/>", "rect")));
    // Letters beyond ASCII end the name.
    assert_eq!(element_start("<aé>"), Ok(("é>", "a")));
}

#[test]
fn element_start_fails_without_bracket_or_name() {
    assert_eq!(
        element_start("svg"),
        Err(ParseFailure { rule: Rule::ElementStart, remaining: "svg", committed: false })
    );
    assert_eq!(
        element_start(""),
        Err(ParseFailure { rule: Rule::ElementStart, remaining: "", committed: false })
    );
    assert_eq!(
        element_start("< /svg>"),
        Err(ParseFailure { rule: Rule::ElementStart, remaining: "/svg>", committed: false })
    );
    assert_eq!(
        element_start(" <svg"),
        Err(ParseFailure { rule: Rule::ElementStart, remaining: " <svg", committed: false })
    );
}

#[test]
fn single_element_does_not_read_an_opening_tag() {
    assert_eq!(
        single_element("<a></a>").err(),
        Some(ParseFailure { rule: Rule::SingleElement, remaining: "></a>", committed: false })
    );
    assert_eq!(
        single_element("<a").err(),
        Some(ParseFailure { rule: Rule::SingleElement, remaining: "", committed: false })
    );
    let (rest, tree) = single_element("<a/><b/>").unwrap();
    assert_eq!(rest, "<b/>");
    assert_eq!(tree.ele_type, "a");
    assert!(tree.children.is_empty());
}

#[test]
fn double_element_does_not_read_a_self_closing_tag() {
    assert_eq!(
        double_element("<a/>").err(),
        Some(ParseFailure { rule: Rule::DoubleElement, remaining: "/>", committed: false })
    );
    assert_eq!(
        double_element("a").err(),
        Some(ParseFailure { rule: Rule::ElementStart, remaining: "a", committed: false })
    );
}

#[test]
fn double_element_fails_for_good_without_a_closing_tag() {
    assert_eq!(
        double_element("<a> <b/> ").err(),
        Some(ParseFailure { rule: Rule::DoubleElement, remaining: "", committed: true })
    );
    assert_eq!(
        double_element("<a>text").err(),
        Some(ParseFailure { rule: Rule::DoubleElement, remaining: "text", committed: true })
    );
}

#[test]
fn double_element_does_not_hold_the_closing_name_against_the_tag() {
    let (rest, tree) = double_element("<a><b/></c> tail").unwrap();
    assert_eq!(rest, " tail");
    assert_eq!(tree.ele_type, "a");
    assert_eq!(tree.children.len(), 1);
    assert_eq!(tree.children[0].ele_type, "b");
}

#[test]
fn double_element_skips_text_up_to_the_end_of_the_closing_tag() {
    let (rest, tree) = double_element("<text x=\"1\">a=b</text><g/>").unwrap();
    assert_eq!(rest, "<g/>");
    assert_eq!(tree.ele_type, "text");
    assert_eq!(parsed_map(&tree.attributes), HashMap::from([("x".to_owned(), "1")]));
    assert!(tree.children.is_empty());
}

#[test]
fn element_tries_the_double_form_first_and_then_the_single_one() {
    let (rest, tree) = element(" <a/> <b/>").unwrap();
    assert_eq!(rest, "<b/>");
    assert_eq!(tree.ele_type, "a");
    let (rest, tree) = element("<a>\n</a>\n").unwrap();
    assert_eq!(rest, "");
    assert_eq!(tree.ele_type, "a");
    assert_eq!(
        element("  text").err(),
        Some(ParseFailure { rule: Rule::ElementStart, remaining: "text", committed: false })
    );
    assert_eq!(
        element("<a").err(),
        Some(ParseFailure { rule: Rule::SingleElement, remaining: "", committed: false })
    );
}

#[test]
fn whitespace_around_an_element_changes_nothing_but_what_is_left() {
    let (rest_a, a) = parse(" <a/> ").unwrap();
    let (rest_b, b) = parse("<a/>").unwrap();
    assert_eq!(rest_a, "");
    assert_eq!(rest_b, "");
    assert_eq!(a.ele_type, b.ele_type);
    assert_eq!(a.ele_type, "a");
    assert_eq!(parsed_map(&a.attributes), parsed_map(&b.attributes));
    assert_eq!(a.attributes.len(), 0);
    assert_eq!(a.children.len(), b.children.len());
    assert_eq!(a.children.len(), 0);
}

#[test]
fn both_kinds_of_quotes_give_the_same_element() {
    let (_, double) = parse("<rect width=\"100\"/>").unwrap();
    let (_, single) = parse("<rect width='100'/>").unwrap();
    assert_eq!(double.ele_type, "rect");
    assert_eq!(single.ele_type, "rect");
    assert_eq!(double.attributes.get("width"), Some("100"));
    assert_eq!(single.attributes.get("width"), Some("100"));
    assert_eq!(parsed_map(&double.attributes), parsed_map(&single.attributes));
    assert_eq!(double.children.len(), 0);
    assert_eq!(single.children.len(), 0);
}

#[test]
fn an_unquoted_value_fails_the_attribute_list() {
    assert_eq!(
        parse("<rect width=100/>").err(),
        Some(ParseFailure { rule: Rule::AttributeHash, remaining: "width=100/>", committed: true })
    );
}

#[test]
fn a_malformed_element_inside_fails_the_whole_text() {
    assert_eq!(
        parse("<svg><rect width=100/></svg>").err(),
        Some(ParseFailure { rule: Rule::AttributeHash, remaining: "width=100/></svg>", committed: true })
    );
    assert_eq!(
        element_list("<a/><b c=1/>").err(),
        Some(ParseFailure { rule: Rule::AttributeHash, remaining: "c=1/>", committed: true })
    );
}

#[test]
fn two_siblings_are_read_in_the_order_of_the_text() {
    let (rest, list) = element_list("<first a=\"1\"/> \n\t <second/>").unwrap();
    assert_eq!(rest, "");
    assert_eq!(list.len(), 2);
    assert_eq!(list[0].ele_type, "first");
    assert_eq!(list[0].attributes.get("a"), Some("1"));
    assert_eq!(list[1].ele_type, "second");
}

#[test]
fn element_list_ends_in_front_of_what_begins_no_element() {
    let (rest, list) = element_list("").unwrap();
    assert_eq!(rest, "");
    assert!(list.is_empty());
    let (rest, list) = element_list("</svg>").unwrap();
    assert_eq!(rest, "</svg>");
    assert!(list.is_empty());
    let (rest, list) = element_list("<a/>text<b/>").unwrap();
    assert_eq!(rest, "text<b/>");
    assert_eq!(list.len(), 1);
}

#[test]
fn parse_reads_one_element_and_leaves_the_rest() {
    let (rest, root) = parse("<a/><b/>").unwrap();
    assert_eq!(rest, "<b/>");
    assert_eq!(root.ele_type, "a");
    let (rest, root) = parse("<g><a/><b><c/></b></g>trailing").unwrap();
    assert_eq!(rest, "trailing");
    assert_eq!(root.children.len(), 2);
    assert_eq!(root.children[1].children[0].ele_type, "c");
}

#[test]
fn parse_of_empty_text_fails_at_the_start_of_an_element() {
    assert_eq!(
        parse("").err(),
        Some(ParseFailure { rule: Rule::ElementStart, remaining: "", committed: false })
    );
}

#[test]
fn rule_labels() {
    assert_eq!(Rule::AttributeHash.label(), "attribute_hash");
    assert_eq!(Rule::ElementStart.label(), "element_start");
    assert_eq!(Rule::SingleElement.label(), "single_element");
    assert_eq!(Rule::DoubleElement.label(), "double_element");
    assert_eq!(Rule::Element.label(), "element");
    assert_eq!(Rule::ElementList.label(), "element_list");
}

#[test]
fn characters_beyond_ascii_are_taken_whole() {
    let (rest, tree) = parse("<text lang=\"日本語\" é='ü→'>こんにちは</text>…").unwrap();
    assert_eq!(rest, "…");
    assert_eq!(tree.ele_type, "text");
    assert_eq!(tree.attributes.len(), 2);
    assert_eq!(tree.attributes.get("lang"), Some("日本語"));
    assert_eq!(tree.attributes.get("é"), Some("ü→"));
    assert!(tree.children.is_empty());
    // Digits and letters beyond ASCII are no part of a tag name.
    assert_eq!(
        element_start("<１２"),
        Err(ParseFailure { rule: Rule::ElementStart, remaining: "１２", committed: false })
    );
    // Other spaces than the four are no whitespace.
    assert_eq!(
        parse("\u{2003}<a/>").err(),
        Some(ParseFailure { rule: Rule::ElementStart, remaining: "\u{2003}<a/>", committed: false })
    );
    assert_eq!(attribute_value("“x”"), Err(ParseFailure {
        rule: Rule::AttributeHash,
        remaining: "“x”",
        committed: false,
    }));
}

#[test]
fn whitespace_behind_the_text_is_skipped_with_what_is_left() {
    let (rest, tree) = parse("<a><b/></a>").unwrap();
    let (rest_spaced, tree_spaced) = parse("<a><b/></a> \r\n\t").unwrap();
    assert_eq!(rest, "");
    assert_eq!(rest_spaced, "");
    assert_eq!(tree.children.len(), tree_spaced.children.len());
    let (rest, _) = parse("<a/>x").unwrap();
    let (rest_spaced, _) = parse("<a/>x \n").unwrap();
    assert_eq!(rest, "x");
    assert_eq!(rest_spaced, "x \n");
}
