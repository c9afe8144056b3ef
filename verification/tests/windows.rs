use axcli::node::AXNode;
use axcli::windows::{
    covering_window, find_first_ax_window, find_owning_window, is_window_visible_at,
    resolve_event_window_id, window_belongs_to_pid, window_id_for_frame, WindowInfo,
};
use axcli::tree::{AXTree, AttrValue, Attribute, Element, ElementData};

fn text(s: &str) -> AttrValue {
    AttrValue::Text(s.to_string())
}

fn classes(names: &[&str]) -> AttrValue {
    AttrValue::TextList(names.iter().map(|n| n.to_string()).collect())
}

fn kids(ids: &[usize]) -> AttrValue {
    AttrValue::ElementList(ids.to_vec())
}

fn size(width_positive: bool, height_positive: bool) -> AttrValue {
    AttrValue::Size { width_positive, height_positive }
}

fn el(attributes: Vec<(&str, AttrValue)>) -> ElementData {
    ElementData {
        attributes: attributes
            .into_iter()
            .map(|(name, value)| Attribute { name: name.to_string(), value })
            .collect(),
        actions: vec!["AXPress".to_string(), "AXShowMenu".to_string()],
        window_id: Some(7),
    }
}

/// An application with one window:
///
/// ```text
/// 0 application
///   1 window "Main"
///     2 group #sidebar .sidebar.wide
///       3 button "Send"
///       4 button "Cancel" (description "Dismiss")
///     5 group .item.unread
///       6 static text "Hello Mary"
///       7 button "Send"
///     8 group .item
///       9 static text "Hello Bob"
///       10 text field "draft" (no size)
/// ```
fn sample() -> AXTree {
    AXTree::new(vec![
        el(vec![("AXRole", text("AXApplication")), ("AXChildren", kids(&[1]))]),
        el(vec![
            ("AXRole", text("AXWindow")),
            ("AXTitle", text("Main")),
            ("AXParent", AttrValue::Element(0)),
            ("AXChildren", kids(&[2, 5, 8])),
            ("AXSize", size(true, true)),
        ]),
        el(vec![
            ("AXRole", text("AXGroup")),
            ("AXDOMIdentifier", text("sidebar")),
            ("AXDOMClassList", classes(&["sidebar", "wide"])),
            ("AXParent", AttrValue::Element(1)),
            ("AXChildren", kids(&[3, 4])),
        ]),
        el(vec![
            ("AXRole", text("AXButton")),
            ("AXTitle", text("Send")),
            ("AXParent", AttrValue::Element(2)),
            ("AXChildren", kids(&[])),
            ("AXSize", size(true, true)),
        ]),
        el(vec![
            ("AXRole", text("AXButton")),
            ("AXTitle", text("Cancel")),
            ("AXDescription", text("Dismiss")),
            ("AXParent", AttrValue::Element(2)),
            ("AXSize", size(true, false)),
        ]),
        el(vec![
            ("AXRole", text("AXGroup")),
            ("AXDOMClassList", classes(&["item", "unread"])),
            ("AXParent", AttrValue::Element(1)),
            ("AXChildren", kids(&[6, 7])),
        ]),
        el(vec![
            ("AXRole", text("AXStaticText")),
            ("AXValue", text("Hello Mary")),
            ("AXParent", AttrValue::Element(5)),
        ]),
        el(vec![
            ("AXRole", text("AXButton")),
            ("AXTitle", text("Send")),
            ("AXParent", AttrValue::Element(5)),
            ("AXSize", size(true, true)),
        ]),
        el(vec![
            ("AXRole", text("AXGroup")),
            ("AXDOMClassList", classes(&["item"])),
            ("AXParent", AttrValue::Element(1)),
            ("AXChildren", kids(&[9, 10])),
        ]),
        el(vec![
            ("AXRole", text("AXStaticText")),
            ("AXValue", text("Hello Bob")),
            ("AXParent", AttrValue::Element(8)),
        ]),
        el(vec![
            ("AXRole", text("AXTextField")),
            ("AXSubrole", text("AXSearchField")),
            ("AXValue", text("dra\u{200b}ft")),
            ("AXParent", AttrValue::Element(8)),
        ]),
    ])
    .unwrap()
}

fn at(tree: &AXTree, id: usize) -> Element<'_> {
    tree.element(id).unwrap()
}

fn window(number: i64, pid: i64, fits: bool) -> WindowInfo {
    WindowInfo {
        number: Some(number),
        owner_pid: Some(pid),
        owner_name: Some(format!("app {pid}")),
        layer: Some(0),
        transparent: false,
        fits: Some(fits),
    }
}

#[test]
fn visible_windows() {
    let ws = Some(vec![window(1, 10, false), window(2, 20, true), window(3, 30, true)]);
    assert_eq!(is_window_visible_at(&ws, 2), Ok(true));
    assert_eq!(is_window_visible_at(&ws, 3), Ok(false));
    assert_eq!(is_window_visible_at(&ws, 1), Ok(false));
    assert_eq!(is_window_visible_at(&ws, 4), Err("window 4 not found on screen".to_string()));
    assert_eq!(
        is_window_visible_at(&None, 4),
        Err("CGWindowListCopyWindowInfo returned null".to_string())
    );
    let off = Some(vec![window(1, 10, false)]);
    assert_eq!(is_window_visible_at(&off, 1), Err("window 1 not found on screen".to_string()));
    assert_eq!(covering_window(&ws.unwrap()).as_deref(), Some("app 20"));
}

#[test]
fn windows_that_do_not_cover() {
    let mut menu = window(1, 10, true);
    menu.layer = Some(25);
    let mut unnumbered = window(2, 20, true);
    unnumbered.number = None;
    let mut unbounded = window(3, 30, true);
    unbounded.fits = None;
    let mut layerless = window(4, 40, true);
    layerless.layer = None;
    layerless.owner_name = None;
    let ws = vec![menu, unnumbered, unbounded, layerless];
    assert_eq!(covering_window(&ws).as_deref(), Some("(wid=4)"));
    let ws = Some(ws);
    assert_eq!(is_window_visible_at(&ws, 4), Ok(true));
    assert_eq!(is_window_visible_at(&ws, 1), Ok(false));
}

#[test]
fn windows_by_frame() {
    let mut overlay = window(1, 10, true);
    overlay.transparent = true;
    let mut panel = window(2, 10, true);
    panel.layer = Some(3);
    let ws = Some(vec![overlay, panel, window(3, 20, true), window(4, 10, true)]);
    assert_eq!(window_id_for_frame(&ws, 10), Some(4));
    assert_eq!(window_id_for_frame(&ws, 20), Some(3));
    assert_eq!(window_id_for_frame(&ws, 30), None);
    assert_eq!(window_id_for_frame(&None, 10), None);
    let wrapped = Some(vec![window(4294967296 + 5, 10, true)]);
    assert_eq!(window_id_for_frame(&wrapped, 10), Some(5));
}

#[test]
fn owners_of_windows() {
    let ws = Some(vec![window(1, 10, false), window(2, 20, true)]);
    assert!(window_belongs_to_pid(&ws, 1, 10));
    assert!(!window_belongs_to_pid(&ws, 1, 20));
    assert!(!window_belongs_to_pid(&ws, 3, 10));
    assert!(!window_belongs_to_pid(&None, 1, 10));
}

#[test]
fn windows_of_elements() {
    let tree = sample();
    assert_eq!(find_owning_window(&AXNode(at(&tree, 6))).unwrap().0.id(), 1);
    assert_eq!(find_owning_window(&AXNode(at(&tree, 1))).unwrap().0.id(), 1);
    assert!(find_owning_window(&AXNode(at(&tree, 0))).is_none());
    assert_eq!(find_first_ax_window(&AXNode(at(&tree, 0))).unwrap().0.id(), 1);
    assert!(find_first_ax_window(&AXNode(at(&tree, 1))).is_none());
}

#[test]
fn windows_without_extent_are_not_first() {
    let tree = AXTree::new(vec![
        el(vec![("AXChildren", kids(&[1, 2, 3, 4]))]),
        el(vec![("AXRole", text("AXWindow"))]),
        el(vec![("AXRole", text("AXWindow")), ("AXSize", size(true, false))]),
        el(vec![("AXRole", text("AXSheet")), ("AXSize", size(true, true))]),
        el(vec![("AXRole", text("AXWindow")), ("AXSize", size(true, true))]),
    ])
    .unwrap();
    assert_eq!(find_first_ax_window(&AXNode(at(&tree, 0))).unwrap().0.id(), 4);
}

#[test]
fn the_window_search_gives_up() {
    // A chain of groups in a window, one longer than is looked at.
    let mut elements = vec![el(vec![("AXRole", text("AXWindow")), ("AXChildren", kids(&[1]))])];
    for i in 1..=50 {
        elements.push(el(vec![
            ("AXRole", text("AXGroup")),
            ("AXParent", AttrValue::Element(i - 1)),
            ("AXChildren", if i < 50 { kids(&[i + 1]) } else { kids(&[]) }),
        ]));
    }
    let tree = AXTree::new(elements).unwrap();
    assert_eq!(find_owning_window(&AXNode(at(&tree, 49))).unwrap().0.id(), 0);
    assert!(find_owning_window(&AXNode(at(&tree, 50))).is_none());
}

#[test]
fn windows_for_events() {
    let tree = sample();
    let node = AXNode(at(&tree, 3));
    let reported = Some(vec![window(7, 10, false), window(8, 10, true)]);
    assert_eq!(resolve_event_window_id(&node, 10, &reported), Some(7));
    let helper = Some(vec![window(7, 99, false), window(8, 10, true)]);
    assert_eq!(resolve_event_window_id(&node, 10, &helper), Some(8));
    assert_eq!(resolve_event_window_id(&AXNode(at(&tree, 0)), 10, &helper), None);
    assert_eq!(resolve_event_window_id(&node, 10, &None), None);
}
