use axcli::node::{AXNode, Change};
use axcli::query::{
    collect_static_texts, find_all, find_first, find_limited, role, title, AXQuery, NodePredicate,
};
use axcli::tree::{AXTree, AttrValue, Attribute, Element, ElementData};

fn text(s: &str) -> AttrValue {
    AttrValue::Text(s.to_string())
}

fn classes(names: &[&str]) -> AttrValue {
    AttrValue::TextList(names.iter().map(|n| n.to_string()).collect())
}

fn kids(ids: &[usize]) -> AttrValue {
    AttrValue::ElementList(ids.to_vec())
}

fn size(width_positive: bool, height_positive: bool) -> AttrValue {
    AttrValue::Size { width_positive, height_positive }
}

fn el(attributes: Vec<(&str, AttrValue)>) -> ElementData {
    ElementData {
        attributes: attributes
            .into_iter()
            .map(|(name, value)| Attribute { name: name.to_string(), value })
            .collect(),
        actions: vec!["AXPress".to_string(), "AXShowMenu".to_string()],
        window_id: Some(7),
    }
}

/// An application with one window:
///
/// ```text
/// 0 application
///   1 window "Main"
///     2 group #sidebar .sidebar.wide
///       3 button "Send"
///       4 button "Cancel" (description "Dismiss")
///     5 group .item.unread
///       6 static text "Hello Mary"
///       7 button "Send"
///     8 group .item
///       9 static text "Hello Bob"
///       10 text field "draft" (no size)
/// ```
fn sample() -> AXTree {
    AXTree::new(vec![
        el(vec![("AXRole", text("AXApplication")), ("AXChildren", kids(&[1]))]),
        el(vec![
            ("AXRole", text("AXWindow")),
            ("AXTitle", text("Main")),
            ("AXParent", AttrValue::Element(0)),
            ("AXChildren", kids(&[2, 5, 8])),
            ("AXSize", size(true, true)),
        ]),
        el(vec![
            ("AXRole", text("AXGroup")),
            ("AXDOMIdentifier", text("sidebar")),
            ("AXDOMClassList", classes(&["sidebar", "wide"])),
            ("AXParent", AttrValue::Element(1)),
            ("AXChildren", kids(&[3, 4])),
        ]),
        el(vec![
            ("AXRole", text("AXButton")),
            ("AXTitle", text("Send")),
            ("AXParent", AttrValue::Element(2)),
            ("AXChildren", kids(&[])),
            ("AXSize", size(true, true)),
        ]),
        el(vec![
            ("AXRole", text("AXButton")),
            ("AXTitle", text("Cancel")),
            ("AXDescription", text("Dismiss")),
            ("AXParent", AttrValue::Element(2)),
            ("AXSize", size(true, false)),
        ]),
        el(vec![
            ("AXRole", text("AXGroup")),
            ("AXDOMClassList", classes(&["item", "unread"])),
            ("AXParent", AttrValue::Element(1)),
            ("AXChildren", kids(&[6, 7])),
        ]),
        el(vec![
            ("AXRole", text("AXStaticText")),
            ("AXValue", text("Hello Mary")),
            ("AXParent", AttrValue::Element(5)),
        ]),
        el(vec![
            ("AXRole", text("AXButton")),
            ("AXTitle", text("Send")),
            ("AXParent", AttrValue::Element(5)),
            ("AXSize", size(true, true)),
        ]),
        el(vec![
            ("AXRole", text("AXGroup")),
            ("AXDOMClassList", classes(&["item"])),
            ("AXParent", AttrValue::Element(1)),
            ("AXChildren", kids(&[9, 10])),
        ]),
        el(vec![
            ("AXRole", text("AXStaticText")),
            ("AXValue", text("Hello Bob")),
            ("AXParent", AttrValue::Element(8)),
        ]),
        el(vec![
            ("AXRole", text("AXTextField")),
            ("AXSubrole", text("AXSearchField")),
            ("AXValue", text("dra\u{200b}ft")),
            ("AXParent", AttrValue::Element(8)),
        ]),
    ])
    .unwrap()
}

fn at(tree: &AXTree, id: usize) -> Element<'_> {
    tree.element(id).unwrap()
}

fn ids(found: &[Element<'_>]) -> Vec<usize> {
    found.iter().map(|e| e.id()).collect()
}

fn accepted(q: &AXQuery) -> Vec<usize> {
    let tree = sample();
    let found = find_all(at(&tree, 0), q, 50);
    ids(&found)
}

#[test]
fn no_condition_accepts_all() {
    assert_eq!(accepted(&AXQuery::new()), vec![1, 2, 3, 4, 5, 6, 7, 8, 9, 10]);
    assert_eq!(accepted(&AXQuery::default()).len(), 10);
}

#[test]
fn conditions_of_a_query() {
    assert_eq!(accepted(&role("AXButton")), vec![3, 4, 7]);
    assert_eq!(accepted(&title("Send")), vec![3, 7]);
    assert_eq!(accepted(&AXQuery::new().title_contains("anc")), vec![4]);
    assert_eq!(accepted(&AXQuery::new().value_contains("Hello")), vec![6, 9]);
    assert_eq!(accepted(&AXQuery::new().subrole("AXSearchField")), vec![10]);
    assert_eq!(accepted(&AXQuery::new().min_children(3)), vec![1]);
    assert_eq!(accepted(&AXQuery::new().has_text("Mary")), vec![1, 5]);
    assert_eq!(accepted(&AXQuery::new().dom_class("item")), vec![5, 8]);
    assert_eq!(accepted(&AXQuery::new().dom_selector(".item:not(.unread)")), vec![8]);
}

#[test]
fn conditions_combine() {
    assert_eq!(accepted(&role("AXGroup").dom_class("item").has_text("Bob")), vec![8]);
    assert_eq!(accepted(&role("AXButton").dom_class("item")), Vec::<usize>::new());
}

#[test]
fn a_condition_of_the_callers_own() {
    let tree = sample();
    let p = NodePredicate::of(&tree, |e: Element<'_>| AXNode(e).child_count() == 2);
    assert_eq!(p.accepted, vec![2, 5, 8]);
    let q = AXQuery::new().filter(p);
    assert_eq!(ids(&find_all(at(&tree, 0), &q, 50)), vec![2, 5, 8]);
    let again = q.clone();
    assert_eq!(ids(&find_all(at(&tree, 0), &again, 50)), vec![2, 5, 8]);
}

#[test]
fn first_of_all() {
    let tree = sample();
    for q in [role("AXButton"), title("Send"), AXQuery::new().has_text("Bob"), title("None")] {
        let all = find_all(at(&tree, 0), &q, 50);
        let first = find_first(at(&tree, 0), &q, 50);
        assert_eq!(first.map(|e| e.id()), all.first().map(|e| e.id()));
    }
}

#[test]
fn limits() {
    let tree = sample();
    let q = role("AXButton");
    assert_eq!(ids(&find_limited(at(&tree, 0), &q, 50, 0)), Vec::<usize>::new());
    assert_eq!(ids(&find_limited(at(&tree, 0), &q, 50, 1)), vec![3]);
    assert_eq!(ids(&find_limited(at(&tree, 0), &q, 50, 2)), vec![3, 4]);
    assert_eq!(ids(&find_limited(at(&tree, 0), &q, 50, 9)), vec![3, 4, 7]);
    assert_eq!(ids(&find_limited(at(&tree, 0), &q, 50, usize::MAX)), vec![3, 4, 7]);
}

#[test]
fn depths() {
    let tree = sample();
    let q = role("AXButton");
    assert_eq!(ids(&find_all(at(&tree, 0), &q, 0)), Vec::<usize>::new());
    assert_eq!(ids(&find_all(at(&tree, 0), &q, 2)), Vec::<usize>::new());
    assert_eq!(ids(&find_all(at(&tree, 0), &q, 3)), vec![3, 4, 7]);
}

#[test]
fn texts_are_those_of_the_static_texts() {
    let tree = sample();
    let app = AXNode(at(&tree, 0));
    assert_eq!(app.texts(15), vec!["Hello Mary".to_string(), "Hello Bob".to_string()]);
    assert_eq!(app.text(15), "Hello MaryHello Bob");
    assert_eq!(app.text(2), "");
    let mut out = vec!["before".to_string()];
    collect_static_texts(at(&tree, 5), 15, &mut out);
    assert_eq!(out, vec!["before".to_string(), "Hello Mary".to_string()]);
}

#[test]
fn what_a_node_tells() {
    let tree = sample();
    let n = AXNode::new(at(&tree, 4));
    assert_eq!(n.role().as_deref(), Some("AXButton"));
    assert_eq!(n.title().as_deref(), Some("Cancel"));
    assert_eq!(n.description().as_deref(), Some("Dismiss"));
    assert_eq!(n.value(), None);
    assert_eq!(AXNode(at(&tree, 10)).subrole().as_deref(), Some("AXSearchField"));
    assert_eq!(AXNode(at(&tree, 2)).dom_classes(), vec!["sidebar".to_string(), "wide".to_string()]);
    assert!(AXNode(at(&tree, 2)).has_dom_class("wide"));
    assert!(!AXNode(at(&tree, 2)).has_dom_class("item"));
    assert_eq!(n.attr_names()[0], "AXRole");
    assert_eq!(n.actions(), vec!["AXPress".to_string(), "AXShowMenu".to_string()]);
    assert_eq!(n.window_id(), Some(7));
    assert_eq!(n.parent().unwrap().0.id(), 2);
    assert!(AXNode(at(&tree, 0)).parent().is_none());
    assert_eq!(n.debug_text(), "AXNode { role: Some(\"AXButton\"), title: Some(\"Cancel\") }");
    assert_eq!(
        AXNode(at(&tree, 6)).debug_text(),
        "AXNode { role: Some(\"AXStaticText\"), title: None }"
    );
}

#[test]
fn window_zero_is_none() {
    let mut e = el(vec![]);
    e.window_id = Some(0);
    let tree = AXTree::new(vec![e]).unwrap();
    assert_eq!(AXNode(at(&tree, 0)).window_id(), None);
}

#[test]
fn children_of_a_node() {
    let tree = sample();
    let w = AXNode(at(&tree, 1));
    let kids: Vec<usize> = w.children().iter().map(|n| n.0.id()).collect();
    assert_eq!(kids, vec![2, 5, 8]);
    assert_eq!(w.child_count(), 3);
    assert_eq!(w.child(1).unwrap().0.id(), 5);
    assert!(w.child(3).is_none());
    let q = AXQuery::new().dom_class("item");
    assert_eq!(w.child_matching(&q).unwrap().0.id(), 5);
    assert_eq!(w.children_matching(&q).len(), 2);
    assert!(w.child_matching(&role("AXButton")).is_none());
}

#[test]
fn the_extras_menu_bar_is_a_child() {
    let tree = AXTree::new(vec![
        el(vec![("AXChildren", kids(&[1])), ("AXExtrasMenuBar", AttrValue::Element(2))]),
        el(vec![]),
        el(vec![]),
    ])
    .unwrap();
    assert_eq!(AXNode(at(&tree, 0)).child_count(), 2);
    let same = AXTree::new(vec![
        el(vec![("AXChildren", kids(&[1])), ("AXExtrasMenuBar", AttrValue::Element(1))]),
        el(vec![]),
    ])
    .unwrap();
    assert_eq!(AXNode(at(&same, 0)).child_count(), 1);
    let alone = AXTree::new(vec![
        el(vec![("AXChildren", AttrValue::Missing), ("AXExtrasMenuBar", AttrValue::Element(1))]),
        el(vec![]),
    ])
    .unwrap();
    assert_eq!(AXNode(at(&alone, 0)).child_count(), 1);
    assert_eq!(AXNode(at(&alone, 0)).child(0).unwrap().0.id(), 1);
    let bare = AXTree::new(vec![el(vec![("AXChildren", AttrValue::Missing)])]).unwrap();
    assert_eq!(AXNode(at(&bare, 0)).child_count(), 0);
}

#[test]
fn paths_of_queries() {
    let tree = sample();
    let app = AXNode(at(&tree, 0));
    let path = [AXQuery::new().dom_class("item"), role("AXButton")];
    assert_eq!(app.select(&path).unwrap().0.id(), 7);
    assert!(app.select_direct(&path).is_none());
    let direct = [role("AXWindow"), role("AXGroup"), title("Cancel")];
    assert_eq!(app.select_direct(&direct).unwrap().0.id(), 4);
    assert_eq!(app.select(&[]).unwrap().0.id(), 0);
}

#[test]
fn finding_from_a_node() {
    let tree = sample();
    let app = AXNode(at(&tree, 0));
    assert_eq!(app.find(role("AXButton")).unwrap().0.id(), 3);
    assert_eq!(app.find_all(role("AXButton")).len(), 3);
    assert!(app.has_role("AXTextField", 3));
    assert!(!app.has_role("AXTextField", 2));
    assert_eq!(app.locate(".item >> AXButton").unwrap().0.id(), 7);
    assert_eq!(app.locate_all("AXButton").len(), 3);
}

#[test]
fn requests() {
    let tree = sample();
    let n = AXNode(at(&tree, 3));
    let r = n.perform_action("AXPress");
    assert_eq!(r.node.0.id(), 3);
    assert!(matches!(r.change, Change::Perform(a) if a == "AXPress"));
    let r = n.set_value("hi");
    assert!(matches!(r.change, Change::SetText(a, t) if a == "AXValue" && t == "hi"));
    let r = n.set_focused(false);
    assert!(matches!(r.change, Change::SetFlag(a, false) if a == "AXFocused"));
}

#[test]
fn badly_linked_trees_are_refused() {
    assert!(AXTree::new(vec![el(vec![("AXChildren", kids(&[0]))])]).is_none());
    assert!(AXTree::new(vec![el(vec![("AXChildren", kids(&[1]))])]).is_none());
    assert!(AXTree::new(vec![el(vec![("AXParent", AttrValue::Element(3))])]).is_none());
    assert!(AXTree::new(vec![]).is_some());
}
