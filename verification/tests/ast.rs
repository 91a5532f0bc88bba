use svg_simple_parser::order::{compare, Order};
use svg_simple_parser::{Attributes, Element};

fn names<'a>(attributes: &Attributes<'a>) -> Vec<(String, &'a str)> {
    let mut list = Vec::new();
    let mut i = 0;
    while let Some(entry) = attributes.nth(i) {
        list.push((entry.name.clone(), entry.value));
        i += 1;
    }
    list
}

#[test]
fn new_makes_a_leaf() {
    let leaf = Element::new((
        "rect",
        Attributes::from_pairs(vec![("width".to_owned(), "100"), ("height".to_owned(), "100")]),
    ));
    assert_eq!(leaf.ele_type, "rect");
    assert_eq!(leaf.attributes.len(), 2);
    assert!(leaf.children.is_empty());
}

#[test]
fn new_width_children_keeps_the_children_in_order() {
    let root = Element::new_width_children((
        "g",
        Attributes::new(),
        vec![
            Element::new(("a", Attributes::new())),
            Element::new(("b", Attributes::new())),
            Element::new(("c", Attributes::new())),
        ],
    ));
    assert_eq!(root.children.len(), 3);
    assert_eq!(root.children[0].ele_type, "a");
    assert_eq!(root.children[1].ele_type, "b");
    assert_eq!(root.children[2].ele_type, "c");
}

#[test]
fn add_child_appends_one() {
    let mut parent = Element::new(("g", Attributes::new()));
    parent.add_child(Element::new(("a", Attributes::new())));
    parent.add_child(Element::new(("b", Attributes::new())));
    assert_eq!(parent.ele_type, "g");
    assert_eq!(parent.children.len(), 2);
    assert_eq!(parent.children[0].ele_type, "a");
    assert_eq!(parent.children[1].ele_type, "b");
    assert_eq!(svg_simple_parser::stringify(&parent), "<g><a/><b/></g>");
}

#[test]
fn add_children_appends_in_order() {
    let mut parent = Element::new_width_children((
        "g",
        Attributes::new(),
        vec![Element::new(("a", Attributes::new()))],
    ));
    parent.add_children(vec![
        Element::new(("b", Attributes::new())),
        Element::new(("c", Attributes::new())),
    ]);
    parent.add_children(vec![]);
    assert_eq!(parent.children.len(), 3);
    assert_eq!(svg_simple_parser::stringify(&parent), "<g><a/><b/><c/></g>");
}

#[test]
fn attributes_hold_each_name_once() {
    let mut list = Attributes::new();
    assert_eq!(list.len(), 0);
    assert!(list.nth(0).is_none());
    list.insert("width".to_owned(), "1");
    list.insert("height".to_owned(), "2");
    list.insert("width".to_owned(), "3");
    assert_eq!(list.len(), 2);
    assert_eq!(list.get("width"), Some("3"));
    assert_eq!(list.get("height"), Some("2"));
    assert_eq!(list.get("depth"), None);
    assert_eq!(names(&list), vec![("height".to_owned(), "2"), ("width".to_owned(), "3")]);
    assert!(list.nth(2).is_none());
}

#[test]
fn from_pairs_lets_the_last_pair_of_a_name_win() {
    let list = Attributes::from_pairs(vec![
        ("b".to_owned(), "1"),
        ("a".to_owned(), "2"),
        ("b".to_owned(), "3"),
    ]);
    assert_eq!(names(&list), vec![("a".to_owned(), "2"), ("b".to_owned(), "3")]);
    assert_eq!(Attributes::from_pairs(vec![]).len(), 0);
}

#[test]
fn compare_goes_character_by_character() {
    assert!(matches!(compare("", ""), Order::Same));
    assert!(matches!(compare("abc", "abc"), Order::Same));
    assert!(matches!(compare("", "a"), Order::Before));
    assert!(matches!(compare("a", ""), Order::After));
    assert!(matches!(compare("ab", "abc"), Order::Before));
    assert!(matches!(compare("abd", "abc"), Order::After));
    assert!(matches!(compare("Z", "a"), Order::Before));
    assert!(matches!(compare("z", "é"), Order::Before));
    assert!(matches!(compare("\u{ffff}", "\u{10000}"), Order::Before));
}
