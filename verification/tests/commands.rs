use axcli::commands::{
    choose_auto_strategy, click_plan, click_window, debug_command, first_of_many_message,
    found_message, get_nodes, is_menu_role, match_heading, press_outcome, resolve_one, resolve_some,
    resolved_message, resolved_message_with_children, scroll_delta, scroll_plan, snapshot_nodes,
    wait_step, wait_target, ClickPlan, ClickStrategy, ScrollPlan, ScrollStrategy, WaitStep,
    WaitTarget, WAIT_TIMEOUT_MS,
};
use axcli::error::AxError;
use axcli::node::AXNode;
use axcli::steps::{
    after_focus, click_steps, dblclick_steps, fill_steps, focus_steps, hover_steps, input_steps,
    press_steps, scroll_steps, scroll_to_steps, InputStep, PressStrategy,
};
use axcli::tree::{AXTree, AttrValue, Attribute, Element, ElementData};

fn text(s: &str) -> AttrValue {
    AttrValue::Text(s.to_string())
}

fn classes(names: &[&str]) -> AttrValue {
    AttrValue::TextList(names.iter().map(|n| n.to_string()).collect())
}

fn kids(ids: &[usize]) -> AttrValue {
    AttrValue::ElementList(ids.to_vec())
}

fn size(width_positive: bool, height_positive: bool) -> AttrValue {
    AttrValue::Size { width_positive, height_positive }
}

fn el(attributes: Vec<(&str, AttrValue)>) -> ElementData {
    ElementData {
        attributes: attributes
            .into_iter()
            .map(|(name, value)| Attribute { name: name.to_string(), value })
            .collect(),
        actions: vec!["AXPress".to_string(), "AXShowMenu".to_string()],
        window_id: Some(7),
    }
}

/// An application with one window:
///
/// ```text
/// 0 application
///   1 window "Main"
///     2 group #sidebar .sidebar.wide
///       3 button "Send"
///       4 button "Cancel" (description "Dismiss")
///     5 group .item.unread
///       6 static text "Hello Mary"
///       7 button "Send"
///     8 group .item
///       9 static text "Hello Bob"
///       10 text field "draft" (no size)
/// ```
fn sample() -> AXTree {
    AXTree::new(vec![
        el(vec![("AXRole", text("AXApplication")), ("AXChildren", kids(&[1]))]),
        el(vec![
            ("AXRole", text("AXWindow")),
            ("AXTitle", text("Main")),
            ("AXParent", AttrValue::Element(0)),
            ("AXChildren", kids(&[2, 5, 8])),
            ("AXSize", size(true, true)),
        ]),
        el(vec![
            ("AXRole", text("AXGroup")),
            ("AXDOMIdentifier", text("sidebar")),
            ("AXDOMClassList", classes(&["sidebar", "wide"])),
            ("AXParent", AttrValue::Element(1)),
            ("AXChildren", kids(&[3, 4])),
        ]),
        el(vec![
            ("AXRole", text("AXButton")),
            ("AXTitle", text("Send")),
            ("AXParent", AttrValue::Element(2)),
            ("AXChildren", kids(&[])),
            ("AXSize", size(true, true)),
        ]),
        el(vec![
            ("AXRole", text("AXButton")),
            ("AXTitle", text("Cancel")),
            ("AXDescription", text("Dismiss")),
            ("AXParent", AttrValue::Element(2)),
            ("AXSize", size(true, false)),
        ]),
        el(vec![
            ("AXRole", text("AXGroup")),
            ("AXDOMClassList", classes(&["item", "unread"])),
            ("AXParent", AttrValue::Element(1)),
            ("AXChildren", kids(&[6, 7])),
        ]),
        el(vec![
            ("AXRole", text("AXStaticText")),
            ("AXValue", text("Hello Mary")),
            ("AXParent", AttrValue::Element(5)),
        ]),
        el(vec![
            ("AXRole", text("AXButton")),
            ("AXTitle", text("Send")),
            ("AXParent", AttrValue::Element(5)),
            ("AXSize", size(true, true)),
        ]),
        el(vec![
            ("AXRole", text("AXGroup")),
            ("AXDOMClassList", classes(&["item"])),
            ("AXParent", AttrValue::Element(1)),
            ("AXChildren", kids(&[9, 10])),
        ]),
        el(vec![
            ("AXRole", text("AXStaticText")),
            ("AXValue", text("Hello Bob")),
            ("AXParent", AttrValue::Element(8)),
        ]),
        el(vec![
            ("AXRole", text("AXTextField")),
            ("AXSubrole", text("AXSearchField")),
            ("AXValue", text("dra\u{200b}ft")),
            ("AXParent", AttrValue::Element(8)),
        ]),
    ])
    .unwrap()
}

fn at(tree: &AXTree, id: usize) -> Element<'_> {
    tree.element(id).unwrap()
}

#[test]
fn menu_roles() {
    assert!(is_menu_role("AXMenuItem"));
    assert!(is_menu_role("AXMenuBarItem"));
    assert!(!is_menu_role("AXMenu"));
}

#[test]
fn one_element() {
    let tree = sample();
    let app = AXNode(at(&tree, 0));
    assert_eq!(resolve_one(&app, "#sidebar").unwrap().0.id(), 2);
    assert!(matches!(resolve_one(&app, "#"), Err(AxError::LocatorInvalid(_))));
    match resolve_one(&app, "#none") {
        Err(AxError::LocatorNotFound(m)) => assert_eq!(m, "#none"),
        _ => panic!("expected an error"),
    }
    match resolve_one(&app, "AXButton") {
        Err(AxError::LocatorAmbiguous { locator, count, at_least }) => {
            assert_eq!(locator, "AXButton");
            assert_eq!(count, 3);
            assert!(!at_least);
        }
        _ => panic!("expected an error"),
    }
}

#[test]
fn elements_of_commands() {
    let tree = sample();
    let app = AXNode(at(&tree, 0));
    assert_eq!(resolve_some(&app, "AXButton").unwrap().len(), 3);
    assert_eq!(snapshot_nodes(&app, "AXButton", true).unwrap().len(), 3);
    let first = snapshot_nodes(&app, "AXButton", false).unwrap();
    assert_eq!(first.len(), 1);
    assert_eq!(first[0].0.id(), 3);
    assert!(matches!(snapshot_nodes(&app, "#none", true), Err(AxError::LocatorNotFound(_))));
    assert_eq!(get_nodes(&app, "AXButton", true).unwrap().len(), 3);
    assert_eq!(get_nodes(&app, "#sidebar", false).unwrap()[0].0.id(), 2);
    assert!(matches!(get_nodes(&app, "AXButton", false), Err(AxError::LocatorAmbiguous { .. })));
    assert!(matches!(get_nodes(&app, "a b", true), Err(AxError::LocatorInvalid(_))));
}

#[test]
fn messages() {
    let tree = sample();
    let n = AXNode(at(&tree, 1));
    assert_eq!(resolved_message(&n), "Resolved \u{2192} role=\"AXWindow\" title=\"Main\"");
    assert_eq!(
        resolved_message_with_children(&n),
        "Resolved \u{2192} role=\"AXWindow\" title=\"Main\" children=3"
    );
    assert_eq!(found_message(12, ".a"), "Found 12 matches for .a");
    assert_eq!(
        first_of_many_message(2),
        "Matched 2 elements, showing first. Use --all to see all."
    );
    assert_eq!(match_heading(0, 3), "--- match 1/3 ---");
}

#[test]
fn clicks() {
    let tree = AXTree::new(vec![
        el(vec![("AXRole", text("AXButton"))]),
        el(vec![("AXRole", text("AXMenuItem"))]),
        el(vec![("AXRole", text("AXMenuBarItem")), ("AXSubrole", text("AXMenuExtra"))]),
    ])
    .unwrap();
    let plan = |id, s, a| click_plan(&AXNode(at(&tree, id)), s, a);
    assert_eq!(choose_auto_strategy(), ClickStrategy::CgPid);
    assert_eq!(plan(0, ClickStrategy::Auto, false), ClickPlan::Background { warn: false });
    assert_eq!(plan(0, ClickStrategy::CgPid, true), ClickPlan::Background { warn: true });
    assert_eq!(plan(0, ClickStrategy::Ax, true), ClickPlan::Press { warn: true });
    assert_eq!(plan(0, ClickStrategy::Cg, true), ClickPlan::Point { activate: true });
    assert_eq!(plan(1, ClickStrategy::Cg, false), ClickPlan::MenuPress { activate: false });
    assert_eq!(plan(2, ClickStrategy::Cg, true), ClickPlan::MenuExtra);
    assert_eq!(click_window(Some(4)).unwrap(), 4);
    match click_window(None) {
        Err(AxError::ActionFailed(m)) => {
            assert_eq!(m, "could not find the window that owns this element");
        }
        _ => panic!("expected an error"),
    }
    assert!(press_outcome(true).is_ok());
    assert!(matches!(press_outcome(false), Err(AxError::ActionFailed(m)) if m == "AXPress"));
}

#[test]
fn scrolls() {
    assert_eq!(scroll_delta("up", 300).unwrap(), (0, 300));
    assert_eq!(scroll_delta("down", 300).unwrap(), (0, -300));
    assert_eq!(scroll_delta("left", 300).unwrap(), (300, 0));
    assert_eq!(scroll_delta("right", 300).unwrap(), (-300, 0));
    assert_eq!(scroll_delta("up", i32::MIN).unwrap(), (0, i32::MIN));
    match scroll_delta("Up", 1) {
        Err(AxError::InvalidArgument(m)) => {
            assert_eq!(m, "invalid direction 'Up', use up/down/left/right");
        }
        _ => panic!("expected an error"),
    }
    let point = |activate| ScrollPlan::Point { activate };
    assert_eq!(
        scroll_plan(ScrollStrategy::Auto, Some(9), Some(Ok(false))),
        ScrollPlan::Background { window: 9 }
    );
    assert_eq!(scroll_plan(ScrollStrategy::CgPid, None, None), point(false));
    assert_eq!(scroll_plan(ScrollStrategy::Cg, Some(9), Some(Ok(false))), point(true));
    assert_eq!(scroll_plan(ScrollStrategy::Cg, Some(9), Some(Ok(true))), point(false));
    assert_eq!(scroll_plan(ScrollStrategy::Cg, None, Some(Err("x".to_string()))), point(false));
    assert_eq!(scroll_plan(ScrollStrategy::Cg, None, None), point(false));
}

#[test]
fn waits() {
    assert!(matches!(wait_target("500"), Ok(WaitTarget::Millis(500))));
    assert!(matches!(wait_target("+7"), Ok(WaitTarget::Millis(7))));
    assert!(matches!(wait_target(".loading"), Ok(WaitTarget::Locator(l)) if l == ".loading"));
    assert!(matches!(wait_target("18446744073709551616"), Ok(WaitTarget::Locator(_))));
    assert!(matches!(wait_target("-1"), Err(AxError::LocatorInvalid(_))));
}

#[test]
fn debug_commands() {
    assert!(debug_command("mouse").is_ok());
    match debug_command("keys") {
        Err(AxError::InvalidArgument(m)) => {
            assert_eq!(m, "unknown debug command: keys (available: mouse)");
        }
        _ => panic!("expected an error"),
    }
}

fn shown(steps: Vec<InputStep>) -> Vec<String> {
    steps.iter().map(|s| format!("{s:?}")).collect()
}

#[test]
fn steps_of_typing() {
    assert_eq!(shown(input_steps("hi")), vec!["Activate", "Focus", "Type(\"hi\")"]);
    assert_eq!(
        shown(fill_steps("hi")),
        vec![
            "Activate",
            "Focus",
            "Keys(\"Command+a\")",
            "Pause(50)",
            "Keys(\"Delete\")",
            "Pause(100)",
            "Type(\"hi\")",
        ]
    );
    assert_eq!(shown(after_focus(true)), vec!["Pause(200)"]);
    assert_eq!(
        shown(after_focus(false)),
        vec!["MoveToCenter", "Pause(50)", "ClickCenter", "Pause(200)"]
    );
    assert_eq!(shown(press_steps("F5", PressStrategy::Hid)), vec!["Activate", "Keys(\"F5\")"]);
    assert_eq!(shown(press_steps("F5", PressStrategy::Pid)), vec!["KeysInBackground(\"F5\")"]);
}

#[test]
fn steps_on_an_element() {
    assert_eq!(shown(focus_steps()), vec!["Activate", "Focus"]);
    assert_eq!(shown(hover_steps()), vec!["MoveToCenter"]);
    assert_eq!(shown(dblclick_steps()), vec!["DoubleClickInBackground"]);
    assert_eq!(shown(scroll_to_steps()), vec!["Activate", "ScrollIntoView"]);
}

#[test]
fn waiting_ends() {
    assert_eq!(WAIT_TIMEOUT_MS, 10000);
    assert!(matches!(wait_step(true, 0, ".a"), WaitStep::Done));
    assert!(matches!(wait_step(true, 10000, ".a"), WaitStep::Done));
    assert!(matches!(wait_step(false, 9999, ".a"), WaitStep::Poll));
    match wait_step(false, 10000, ".a") {
        WaitStep::Failed(AxError::LocatorNotFound(l)) => assert_eq!(l, ".a"),
        _ => panic!("expected an error"),
    }
}

#[test]
fn steps_of_clicks() {
    assert_eq!(
        shown(click_steps(ClickPlan::Press { warn: true }, true)),
        vec!["MoveToCenter", "Pause(50)", "PressElement"]
    );
    assert_eq!(
        shown(click_steps(ClickPlan::Background { warn: false }, false)),
        vec!["ClickInBackground"]
    );
    assert_eq!(shown(click_steps(ClickPlan::MenuExtra, false)), vec!["ClickCenter"]);
    assert_eq!(
        shown(click_steps(ClickPlan::MenuPress { activate: true }, false)),
        vec!["Activate", "PressElement"]
    );
    assert_eq!(
        shown(click_steps(ClickPlan::Point { activate: false }, false)),
        vec!["ClickCenter"]
    );
}

#[test]
fn steps_of_scrolls() {
    assert_eq!(
        shown(scroll_steps(ScrollPlan::Background { window: 3 }, 0, -300)),
        vec!["ScrollInBackground { window: 3, dx: 0, dy: -300 }"]
    );
    assert_eq!(
        shown(scroll_steps(ScrollPlan::Point { activate: true }, 5, 0)),
        vec!["Activate", "Pause(200)", "MoveToCenter", "Pause(50)", "Scroll { dx: 5, dy: 0 }"]
    );
    assert_eq!(shown(scroll_steps(ScrollPlan::Point { activate: false }, 5, 0)).len(), 3);
}
