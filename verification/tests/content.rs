use axcli::content::{collect_text, get_attr_value, printed_value, raw_attribute_name, GetAttr};
use axcli::error::AxError;
use axcli::node::AXNode;
use axcli::tree::{AXTree, AttrValue, Attribute, Element, ElementData};

fn text(s: &str) -> AttrValue {
    AttrValue::Text(s.to_string())
}

fn classes(names: &[&str]) -> AttrValue {
    AttrValue::TextList(names.iter().map(|n| n.to_string()).collect())
}

fn kids(ids: &[usize]) -> AttrValue {
    AttrValue::ElementList(ids.to_vec())
}

fn size(width_positive: bool, height_positive: bool) -> AttrValue {
    AttrValue::Size { width_positive, height_positive }
}

fn el(attributes: Vec<(&str, AttrValue)>) -> ElementData {
    ElementData {
        attributes: attributes
            .into_iter()
            .map(|(name, value)| Attribute { name: name.to_string(), value })
            .collect(),
        actions: vec!["AXPress".to_string(), "AXShowMenu".to_string()],
        window_id: Some(7),
    }
}

/// An application with one window:
///
/// ```text
/// 0 application
///   1 window "Main"
///     2 group #sidebar .sidebar.wide
///       3 button "Send"
///       4 button "Cancel" (description "Dismiss")
///     5 group .item.unread
///       6 static text "Hello Mary"
///       7 button "Send"
///     8 group .item
///       9 static text "Hello Bob"
///       10 text field "draft" (no size)
/// ```
fn sample() -> AXTree {
    AXTree::new(vec![
        el(vec![("AXRole", text("AXApplication")), ("AXChildren", kids(&[1]))]),
        el(vec![
            ("AXRole", text("AXWindow")),
            ("AXTitle", text("Main")),
            ("AXParent", AttrValue::Element(0)),
            ("AXChildren", kids(&[2, 5, 8])),
            ("AXSize", size(true, true)),
        ]),
        el(vec![
            ("AXRole", text("AXGroup")),
            ("AXDOMIdentifier", text("sidebar")),
            ("AXDOMClassList", classes(&["sidebar", "wide"])),
            ("AXParent", AttrValue::Element(1)),
            ("AXChildren", kids(&[3, 4])),
        ]),
        el(vec![
            ("AXRole", text("AXButton")),
            ("AXTitle", text("Send")),
            ("AXParent", AttrValue::Element(2)),
            ("AXChildren", kids(&[])),
            ("AXSize", size(true, true)),
        ]),
        el(vec![
            ("AXRole", text("AXButton")),
            ("AXTitle", text("Cancel")),
            ("AXDescription", text("Dismiss")),
            ("AXParent", AttrValue::Element(2)),
            ("AXSize", size(true, false)),
        ]),
        el(vec![
            ("AXRole", text("AXGroup")),
            ("AXDOMClassList", classes(&["item", "unread"])),
            ("AXParent", AttrValue::Element(1)),
            ("AXChildren", kids(&[6, 7])),
        ]),
        el(vec![
            ("AXRole", text("AXStaticText")),
            ("AXValue", text("Hello Mary")),
            ("AXParent", AttrValue::Element(5)),
        ]),
        el(vec![
            ("AXRole", text("AXButton")),
            ("AXTitle", text("Send")),
            ("AXParent", AttrValue::Element(5)),
            ("AXSize", size(true, true)),
        ]),
        el(vec![
            ("AXRole", text("AXGroup")),
            ("AXDOMClassList", classes(&["item"])),
            ("AXParent", AttrValue::Element(1)),
            ("AXChildren", kids(&[9, 10])),
        ]),
        el(vec![
            ("AXRole", text("AXStaticText")),
            ("AXValue", text("Hello Bob")),
            ("AXParent", AttrValue::Element(8)),
        ]),
        el(vec![
            ("AXRole", text("AXTextField")),
            ("AXSubrole", text("AXSearchField")),
            ("AXValue", text("dra\u{200b}ft")),
            ("AXParent", AttrValue::Element(8)),
        ]),
    ])
    .unwrap()
}

fn at(tree: &AXTree, id: usize) -> Element<'_> {
    tree.element(id).unwrap()
}

fn get(id: usize, name: &str) -> Result<String, AxError> {
    let tree = sample();
    let position = Some("10,20".to_string());
    get_attr_value(&AXNode(at(&tree, id)), &GetAttr::from_name(name), &position, &None)
}

#[test]
fn text_breaks_lines_around_blocks() {
    let tree = sample();
    assert_eq!(collect_text(&AXNode(at(&tree, 5)), 50), "Hello Mary\n");
    assert_eq!(collect_text(&AXNode(at(&tree, 0)), 50), "Hello Mary\nHello Bobdra\u{200b}ft\n");
    assert_eq!(collect_text(&AXNode(at(&tree, 6)), 50), "Hello Mary");
    assert_eq!(collect_text(&AXNode(at(&tree, 6)), 0), "");
    assert_eq!(collect_text(&AXNode(at(&tree, 0)), 3), "");
}

#[test]
fn text_before_a_block_ends_its_line() {
    let tree = AXTree::new(vec![
        el(vec![("AXChildren", kids(&[1, 2]))]),
        el(vec![("AXRole", text("AXStaticText")), ("AXValue", text("one"))]),
        el(vec![("AXRole", text("AXHeading")), ("AXChildren", kids(&[3]))]),
        el(vec![("AXRole", text("AXStaticText")), ("AXValue", text("two\n"))]),
    ])
    .unwrap();
    assert_eq!(collect_text(&AXNode(at(&tree, 0)), 50), "one\ntwo\n");
}

#[test]
fn names_of_attributes() {
    for (name, shown) in [
        ("text", "text"),
        ("Role", "role"),
        ("AXTitle", "title"),
        ("desc", "description"),
        ("AXDescription", "description"),
        ("VALUE", "value"),
        ("dom-id", "domid"),
        ("class", "classes"),
        ("actions", "actions"),
        ("pos", "position"),
        ("size", "size"),
        ("children", "child-count"),
        ("AXHelp", "AXHelp"),
    ] {
        assert_eq!(GetAttr::from_name(name).name(), shown);
    }
}

#[test]
fn names_read_back() {
    for name in [
        "text", "role", "title", "description", "value", "domid", "classes", "actions", "position",
        "size", "child-count",
    ] {
        let attr = GetAttr::from_name(name);
        assert_eq!(attr.name(), name);
        assert!(!matches!(attr, GetAttr::Raw(_)));
        assert_eq!(GetAttr::from_folded(name, name).clone().name(), name);
    }
}

#[test]
fn reading_attributes() {
    assert_eq!(get(5, "text").unwrap(), "Hello Mary\n");
    assert_eq!(get(4, "role").unwrap(), "AXButton");
    assert_eq!(get(4, "title").unwrap(), "Cancel");
    assert_eq!(get(4, "desc").unwrap(), "Dismiss");
    assert_eq!(get(4, "value").unwrap(), "");
    assert_eq!(get(2, "domid").unwrap(), "sidebar");
    assert_eq!(get(2, "classes").unwrap(), "sidebar wide");
    assert_eq!(get(2, "actions").unwrap(), "AXPress AXShowMenu");
    assert_eq!(get(1, "children").unwrap(), "3");
    assert_eq!(get(1, "position").unwrap(), "10,20");
    assert_eq!(get(4, "AXDescription").unwrap(), "Dismiss");
    assert_eq!(get(10, "subrole").unwrap(), "AXSearchField");
}

#[test]
fn missing_attributes() {
    let cases = [("size", "AXSize"), ("help", "AXHelp"), ("AXURL", "AXURL"), ("", "AX")];
    for (name, missing) in cases {
        match get(4, name) {
            Err(AxError::AttributeNotFound(m)) => assert_eq!(m, missing),
            _ => panic!("expected an error"),
        }
    }
}

#[test]
fn raw_names() {
    assert_eq!(raw_attribute_name("AXHelp", "x"), "AXHelp");
    assert_eq!(raw_attribute_name("help", "H"), "AXHelp");
    assert_eq!(raw_attribute_name("", ""), "AX");
    match get(4, "\u{df}x") {
        Err(AxError::AttributeNotFound(m)) => assert_eq!(m, "AXSSx"),
        _ => panic!("expected an error"),
    }
}

#[test]
fn printed_values_end_with_a_line_break() {
    assert_eq!(printed_value(""), "\n");
    assert_eq!(printed_value("a"), "a\n");
    assert_eq!(printed_value("a\n"), "a\n");
}
