use svg_simple_parser::stringify::{stringify_attrubutes_hash, trasverse};
use svg_simple_parser::{parse, stringify_pretty, Attributes, Element};

fn circle_in_svg() -> Element<'static> {
    Element::new_width_children((
        "svg",
        Attributes::from_pairs(vec![
            ("xmlns".to_owned(), "http://www.w3.org/2000/svg"),
            ("version".to_owned(), "1.1"),
        ]),
        vec![Element::new((
            "circle",
            Attributes::from_pairs(vec![
                ("cx".to_owned(), "100"),
                ("cy".to_owned(), "50"),
                ("r".to_owned(), "40"),
                ("stroke".to_owned(), "black"),
                ("stroke-width".to_owned(), "2"),
                ("fill".to_owned(), "red"),
            ]),
        ))],
    ))
}

#[test]
fn stringify_test_parse() {
    let root = Element::new_width_children((
        "svg",
        Attributes::from_pairs(vec![
            ("xmlns".to_owned(), "http://www.w3.org/2000/svg"),
            ("version".to_owned(), "1.1"),
        ]),
        vec![Element::new((
            "circle",
            Attributes::from_pairs(vec![
                ("cx".to_owned(), "100"),
                ("cy".to_owned(), "50"),
                ("r".to_owned(), "40"),
                ("stroke".to_owned(), "black"),
                ("stroke-width".to_owned(), "2"),
                ("fill".to_owned(), "red"),
            ]),
        ))],
    ));
    assert_eq!(
        svg_simple_parser::stringify(&root),
        r#"<svg version="1.1" xmlns="http://www.w3.org/2000/svg"><circle cx="100" cy="50" fill="red" r="40" stroke="black" stroke-width="2"/></svg>"#
    );
}

#[test]
fn test_stringify_attrubutes_hash() {
    let attrs = Attributes::from_pairs(vec![
        ("cx".to_owned(), "100"),
        ("cy".to_owned(), "50"),
        ("r".to_owned(), "40"),
        ("stroke".to_owned(), "black"),
        ("stroke-width".to_owned(), "2"),
        ("fill".to_owned(), "red"),
    ]);
    assert_eq!(
        stringify_attrubutes_hash(&attrs),
        r#" cx="100" cy="50" fill="red" r="40" stroke="black" stroke-width="2""#
    );
}

#[test]
fn test_trasverse() {
    let root = Element::new_width_children((
        "svg",
        Attributes::from_pairs(vec![
            ("xmlns".to_owned(), "http://www.w3.org/2000/svg"),
            ("version".to_owned(), "1.1"),
        ]),
        vec![Element::new((
            "circle",
            Attributes::from_pairs(vec![
                ("cx".to_owned(), "100"),
                ("cy".to_owned(), "50"),
                ("r".to_owned(), "40"),
                ("stroke".to_owned(), "black"),
                ("stroke-width".to_owned(), "2"),
                ("fill".to_owned(), "red"),
            ]),
        ))],
    ));
    assert_eq!(
        trasverse(&root, 0, ("", "")),
        r#"<svg version="1.1" xmlns="http://www.w3.org/2000/svg"><circle cx="100" cy="50" fill="red" r="40" stroke="black" stroke-width="2"/></svg>"#
    );

    assert_eq!(
        trasverse(&root, 0, ("  ", "\r\n")),
        "<svg version=\"1.1\" xmlns=\"http://www.w3.org/2000/svg\">\r\n  <circle cx=\"100\" cy=\"50\" fill=\"red\" r=\"40\" stroke=\"black\" stroke-width=\"2\"/>\r\n</svg>\r\n"
    );
}

#[test]
fn attributes_are_written_in_the_order_of_their_names() {
    let mut one = Attributes::new();
    one.insert("a".to_owned(), "1");
    one.insert("b".to_owned(), "2");
    let mut other = Attributes::new();
    other.insert("b".to_owned(), "2");
    other.insert("a".to_owned(), "1");
    assert_eq!(svg_simple_parser::stringify(&Element::new(("e", one))), "<e a=\"1\" b=\"2\"/>");
    assert_eq!(svg_simple_parser::stringify(&Element::new(("e", other))), "<e a=\"1\" b=\"2\"/>");
}

#[test]
fn attribute_order_goes_by_characters() {
    let attrs = Attributes::from_pairs(vec![
        ("b".to_owned(), "4"),
        ("ab".to_owned(), "3"),
        ("B".to_owned(), "1"),
        ("a".to_owned(), "2"),
        ("é".to_owned(), "5"),
        ("a-".to_owned(), "2.5"),
    ]);
    assert_eq!(
        stringify_attrubutes_hash(&attrs),
        " B=\"1\" a=\"2\" a-=\"2.5\" ab=\"3\" b=\"4\" é=\"5\""
    );
}

#[test]
fn no_attributes_give_no_text() {
    assert_eq!(stringify_attrubutes_hash(&Attributes::new()), "");
}

#[test]
fn an_element_without_children_closes_itself() {
    assert_eq!(svg_simple_parser::stringify(&Element::new(("g", Attributes::new()))), "<g/>");
    assert_eq!(
        svg_simple_parser::stringify(&Element::new((
            "rect",
            Attributes::from_pairs(vec![("width".to_owned(), "100"), ("height".to_owned(), "20")])
        ))),
        "<rect height=\"20\" width=\"100\"/>"
    );
    assert_eq!(
        svg_simple_parser::stringify(&Element::new_width_children(("g", Attributes::new(), vec![]))),
        "<g/>"
    );
    assert_eq!(stringify_pretty(&Element::new(("g", Attributes::new()))), "<g/>\r\n");
}

#[test]
fn values_are_written_as_they_are() {
    let attrs = Attributes::from_pairs(vec![("d".to_owned(), "M 0 0 <&> 'x'")]);
    assert_eq!(svg_simple_parser::stringify(&Element::new(("path", attrs))), "<path d=\"M 0 0 <&> 'x'\"/>");
}

#[test]
fn nesting_is_read_and_written_back() {
    let text = r#"<svg xmlns="http://www.w3.org/2000/svg" version="1.1"><circle cx="100" cy="50" r="40" stroke="black" stroke-width="2" fill="red"/></svg>"#;
    let (rest, root) = parse(text).unwrap();
    assert_eq!(rest, "");
    assert_eq!(root.ele_type, "svg");
    assert_eq!(root.attributes.len(), 2);
    assert_eq!(root.children.len(), 1);
    assert_eq!(root.children[0].ele_type, "circle");
    assert_eq!(root.children[0].attributes.len(), 6);
    assert_eq!(
        svg_simple_parser::stringify(&root),
        r#"<svg version="1.1" xmlns="http://www.w3.org/2000/svg"><circle cx="100" cy="50" fill="red" r="40" stroke="black" stroke-width="2"/></svg>"#
    );
}

#[test]
fn pretty_printing_indents_and_ends_lines() {
    let text = r#"<svg xmlns="http://www.w3.org/2000/svg" version="1.1"><circle cx="100" cy="50" r="40" stroke="black" stroke-width="2" fill="red"/></svg>"#;
    let (_, root) = parse(text).unwrap();
    assert_eq!(
        stringify_pretty(&root),
        "<svg version=\"1.1\" xmlns=\"http://www.w3.org/2000/svg\">\r\n  <circle cx=\"100\" cy=\"50\" fill=\"red\" r=\"40\" stroke=\"black\" stroke-width=\"2\"/>\r\n</svg>\r\n"
    );
    assert_eq!(stringify_pretty(&circle_in_svg()), stringify_pretty(&root));
}

#[test]
fn pretty_printing_goes_two_spaces_deeper_at_each_level() {
    let (_, root) = parse("<a><b><c/><d></d></b><e/></a>").unwrap();
    assert_eq!(
        stringify_pretty(&root),
        "<a>\r\n  <b>\r\n    <c/>\r\n    <d/>\r\n  </b>\r\n  <e/>\r\n</a>\r\n"
    );
    assert_eq!(svg_simple_parser::stringify(&root), "<a><b><c/><d/></b><e/></a>");
}

#[test]
fn trasverse_starts_at_the_depth_it_is_given() {
    let (_, root) = parse("<a><b/></a>").unwrap();
    assert_eq!(
        trasverse(&root, 2, ("\t", "\n")),
        "\t\t<a>\n\t\t\t<b/>\n\t\t</a>\n"
    );
    assert_eq!(trasverse(&root, 3, ("", "")), "<a><b/></a>");
}

#[test]
fn compact_text_is_read_back_as_the_same_tree() {
    let first = svg_simple_parser::stringify(&circle_in_svg());
    let (rest, again) = parse(&first).unwrap();
    assert_eq!(rest, "");
    assert_eq!(svg_simple_parser::stringify(&again), first);
}

#[test]
fn indented_text_is_read_back_as_the_same_tree() {
    let pretty = stringify_pretty(&circle_in_svg());
    let (rest, again) = parse(&pretty).unwrap();
    assert_eq!(rest, "");
    assert_eq!(again.ele_type, "svg");
    assert_eq!(again.children.len(), 1);
    assert_eq!(again.children[0].attributes.get("stroke-width"), Some("2"));
    assert_eq!(stringify_pretty(&again), pretty);
    assert_eq!(svg_simple_parser::stringify(&again), svg_simple_parser::stringify(&circle_in_svg()));
}

#[test]
fn a_value_with_a_double_quote_is_not_read_back() {
    let tree = Element::new(("a", Attributes::from_pairs(vec![("x".to_owned(), "1\"2")])));
    let text = svg_simple_parser::stringify(&tree);
    assert_eq!(text, "<a x=\"1\"2\"/>");
    assert!(parse(&text).is_err());
}
