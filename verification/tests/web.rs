use axcli::node::{AXNode, Change};
use axcli::web::{
    enable_web_accessibility, has_web_area, looks_chromium, needs_settling, settle_step, SettleStep,
};
use axcli::tree::{AXTree, AttrValue, Attribute, Element, ElementData};

fn text(s: &str) -> AttrValue {
    AttrValue::Text(s.to_string())
}

fn classes(names: &[&str]) -> AttrValue {
    AttrValue::TextList(names.iter().map(|n| n.to_string()).collect())
}

fn kids(ids: &[usize]) -> AttrValue {
    AttrValue::ElementList(ids.to_vec())
}

fn size(width_positive: bool, height_positive: bool) -> AttrValue {
    AttrValue::Size { width_positive, height_positive }
}

fn el(attributes: Vec<(&str, AttrValue)>) -> ElementData {
    ElementData {
        attributes: attributes
            .into_iter()
            .map(|(name, value)| Attribute { name: name.to_string(), value })
            .collect(),
        actions: vec!["AXPress".to_string(), "AXShowMenu".to_string()],
        window_id: Some(7),
    }
}

/// An application with one window:
///
/// ```text
/// 0 application
///   1 window "Main"
///     2 group #sidebar .sidebar.wide
///       3 button "Send"
///       4 button "Cancel" (description "Dismiss")
///     5 group .item.unread
///       6 static text "Hello Mary"
///       7 button "Send"
///     8 group .item
///       9 static text "Hello Bob"
///       10 text field "draft" (no size)
/// ```
fn sample() -> AXTree {
    AXTree::new(vec![
        el(vec![("AXRole", text("AXApplication")), ("AXChildren", kids(&[1]))]),
        el(vec![
            ("AXRole", text("AXWindow")),
            ("AXTitle", text("Main")),
            ("AXParent", AttrValue::Element(0)),
            ("AXChildren", kids(&[2, 5, 8])),
            ("AXSize", size(true, true)),
        ]),
        el(vec![
            ("AXRole", text("AXGroup")),
            ("AXDOMIdentifier", text("sidebar")),
            ("AXDOMClassList", classes(&["sidebar", "wide"])),
            ("AXParent", AttrValue::Element(1)),
            ("AXChildren", kids(&[3, 4])),
        ]),
        el(vec![
            ("AXRole", text("AXButton")),
            ("AXTitle", text("Send")),
            ("AXParent", AttrValue::Element(2)),
            ("AXChildren", kids(&[])),
            ("AXSize", size(true, true)),
        ]),
        el(vec![
            ("AXRole", text("AXButton")),
            ("AXTitle", text("Cancel")),
            ("AXDescription", text("Dismiss")),
            ("AXParent", AttrValue::Element(2)),
            ("AXSize", size(true, false)),
        ]),
        el(vec![
            ("AXRole", text("AXGroup")),
            ("AXDOMClassList", classes(&["item", "unread"])),
            ("AXParent", AttrValue::Element(1)),
            ("AXChildren", kids(&[6, 7])),
        ]),
        el(vec![
            ("AXRole", text("AXStaticText")),
            ("AXValue", text("Hello Mary")),
            ("AXParent", AttrValue::Element(5)),
        ]),
        el(vec![
            ("AXRole", text("AXButton")),
            ("AXTitle", text("Send")),
            ("AXParent", AttrValue::Element(5)),
            ("AXSize", size(true, true)),
        ]),
        el(vec![
            ("AXRole", text("AXGroup")),
            ("AXDOMClassList", classes(&["item"])),
            ("AXParent", AttrValue::Element(1)),
            ("AXChildren", kids(&[9, 10])),
        ]),
        el(vec![
            ("AXRole", text("AXStaticText")),
            ("AXValue", text("Hello Bob")),
            ("AXParent", AttrValue::Element(8)),
        ]),
        el(vec![
            ("AXRole", text("AXTextField")),
            ("AXSubrole", text("AXSearchField")),
            ("AXValue", text("dra\u{200b}ft")),
            ("AXParent", AttrValue::Element(8)),
        ]),
    ])
    .unwrap()
}

fn at(tree: &AXTree, id: usize) -> Element<'_> {
    tree.element(id).unwrap()
}

/// An element below `depth` others.
fn nested(depth: usize, last: Vec<(&str, AttrValue)>) -> AXTree {
    let mut elements = Vec::new();
    for i in 0..depth {
        elements.push(el(vec![("AXChildren", kids(&[i + 1]))]));
    }
    elements.push(el(last));
    AXTree::new(elements).unwrap()
}

#[test]
fn web_areas() {
    let near = nested(12, vec![("AXRole", text("AXWebArea"))]);
    assert!(has_web_area(at(&near, 0), 0));
    assert!(!has_web_area(at(&near, 0), 1));
    let far = nested(13, vec![("AXRole", text("AXWebArea"))]);
    assert!(!has_web_area(at(&far, 0), 0));
    assert!(!has_web_area(at(&near, 12), 13));
    assert!(!has_web_area(at(&sample(), 0), 0));
}

#[test]
fn views_of_chromium() {
    let near = nested(4, vec![("AXDOMClassList", classes(&["x", "ClientView"]))]);
    assert!(looks_chromium(at(&near, 0), 0));
    let far = nested(5, vec![("AXDOMClassList", classes(&["RootView"]))]);
    assert!(!looks_chromium(at(&far, 0), 0));
    assert!(!looks_chromium(at(&sample(), 0), 0));
}

#[test]
fn settling() {
    let chrome = nested(2, vec![("AXDOMClassList", classes(&["NonClientView"]))]);
    assert!(needs_settling(at(&chrome, 0)));
    assert!(!needs_settling(at(&sample(), 0)));
    let loaded = nested(
        2,
        vec![("AXRole", text("AXWebArea")), ("AXDOMClassList", classes(&["RootView"]))],
    );
    assert!(!needs_settling(at(&loaded, 0)));
    assert_eq!(settle_step(at(&loaded, 0), 9000, 1500), SettleStep::Stop { found: true });
    assert_eq!(settle_step(at(&chrome, 0), 1500, 1500), SettleStep::Stop { found: false });
    assert_eq!(settle_step(at(&chrome, 0), 1499, 1500), SettleStep::Poll { after_ms: 25 });
}

#[test]
fn requests_for_web_content() {
    let tree = sample();
    let requests = enable_web_accessibility(AXNode(at(&tree, 0)));
    assert_eq!(requests.len(), 2);
    assert!(
        matches!(&requests[0].change, Change::SetFlag(a, true) if a == "AXManualAccessibility")
    );
    assert!(
        matches!(&requests[1].change, Change::SetFlag(a, true) if a == "AXEnhancedUserInterface")
    );
}
