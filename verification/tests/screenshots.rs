use axcli::error::AxError;
use axcli::node::AXNode;
use axcli::screenshot::{
    captures, fallback_region, screenshot_path, screenshot_target, shot_outcome, shot_start,
    shot_step, Capture, Region, Shot, ShotStep,
};
use axcli::tree::{AXTree, AttrValue, Attribute, Element, ElementData};

fn text(s: &str) -> AttrValue {
    AttrValue::Text(s.to_string())
}

fn classes(names: &[&str]) -> AttrValue {
    AttrValue::TextList(names.iter().map(|n| n.to_string()).collect())
}

fn kids(ids: &[usize]) -> AttrValue {
    AttrValue::ElementList(ids.to_vec())
}

fn size(width_positive: bool, height_positive: bool) -> AttrValue {
    AttrValue::Size { width_positive, height_positive }
}

fn el(attributes: Vec<(&str, AttrValue)>) -> ElementData {
    ElementData {
        attributes: attributes
            .into_iter()
            .map(|(name, value)| Attribute { name: name.to_string(), value })
            .collect(),
        actions: vec!["AXPress".to_string(), "AXShowMenu".to_string()],
        window_id: Some(7),
    }
}

/// An application with one window:
///
/// ```text
/// 0 application
///   1 window "Main"
///     2 group #sidebar .sidebar.wide
///       3 button "Send"
///       4 button "Cancel" (description "Dismiss")
///     5 group .item.unread
///       6 static text "Hello Mary"
///       7 button "Send"
///     8 group .item
///       9 static text "Hello Bob"
///       10 text field "draft" (no size)
/// ```
fn sample() -> AXTree {
    AXTree::new(vec![
        el(vec![("AXRole", text("AXApplication")), ("AXChildren", kids(&[1]))]),
        el(vec![
            ("AXRole", text("AXWindow")),
            ("AXTitle", text("Main")),
            ("AXParent", AttrValue::Element(0)),
            ("AXChildren", kids(&[2, 5, 8])),
            ("AXSize", size(true, true)),
        ]),
        el(vec![
            ("AXRole", text("AXGroup")),
            ("AXDOMIdentifier", text("sidebar")),
            ("AXDOMClassList", classes(&["sidebar", "wide"])),
            ("AXParent", AttrValue::Element(1)),
            ("AXChildren", kids(&[3, 4])),
        ]),
        el(vec![
            ("AXRole", text("AXButton")),
            ("AXTitle", text("Send")),
            ("AXParent", AttrValue::Element(2)),
            ("AXChildren", kids(&[])),
            ("AXSize", size(true, true)),
        ]),
        el(vec![
            ("AXRole", text("AXButton")),
            ("AXTitle", text("Cancel")),
            ("AXDescription", text("Dismiss")),
            ("AXParent", AttrValue::Element(2)),
            ("AXSize", size(true, false)),
        ]),
        el(vec![
            ("AXRole", text("AXGroup")),
            ("AXDOMClassList", classes(&["item", "unread"])),
            ("AXParent", AttrValue::Element(1)),
            ("AXChildren", kids(&[6, 7])),
        ]),
        el(vec![
            ("AXRole", text("AXStaticText")),
            ("AXValue", text("Hello Mary")),
            ("AXParent", AttrValue::Element(5)),
        ]),
        el(vec![
            ("AXRole", text("AXButton")),
            ("AXTitle", text("Send")),
            ("AXParent", AttrValue::Element(5)),
            ("AXSize", size(true, true)),
        ]),
        el(vec![
            ("AXRole", text("AXGroup")),
            ("AXDOMClassList", classes(&["item"])),
            ("AXParent", AttrValue::Element(1)),
            ("AXChildren", kids(&[9, 10])),
        ]),
        el(vec![
            ("AXRole", text("AXStaticText")),
            ("AXValue", text("Hello Bob")),
            ("AXParent", AttrValue::Element(8)),
        ]),
        el(vec![
            ("AXRole", text("AXTextField")),
            ("AXSubrole", text("AXSearchField")),
            ("AXValue", text("dra\u{200b}ft")),
            ("AXParent", AttrValue::Element(8)),
        ]),
    ])
    .unwrap()
}

fn at(tree: &AXTree, id: usize) -> Element<'_> {
    tree.element(id).unwrap()
}

fn ways(shot: &Shot<'_>) -> Vec<Option<usize>> {
    captures(shot)
        .iter()
        .map(|c| match c {
            Capture::Frame(w) => Some(w.0.id()),
            Capture::Process => None,
        })
        .collect()
}

fn region(shot: &Shot<'_>) -> Option<usize> {
    match fallback_region(shot) {
        Region::Of(n) => Some(n.0.id()),
        Region::Screen => None,
    }
}

#[test]
fn screenshots_of_elements() {
    let tree = sample();
    let app = AXNode(at(&tree, 0));
    let shot = screenshot_target(&app, &Some("#sidebar".to_string())).unwrap();
    assert_eq!(shot.element.unwrap().0.id(), 2);
    assert_eq!(shot.window.unwrap().0.id(), 1);
    assert_eq!(ways(&shot), vec![Some(1)]);
    assert_eq!(region(&shot), Some(2));
}

#[test]
fn screenshots_of_windows() {
    let tree = sample();
    let app = AXNode(at(&tree, 0));
    let shot = screenshot_target(&app, &None).unwrap();
    assert!(shot.element.is_none());
    assert_eq!(ways(&shot), vec![Some(1), None]);
    assert_eq!(region(&shot), Some(1));
}

#[test]
fn screenshots_without_a_window() {
    let tree = AXTree::new(vec![
        el(vec![("AXChildren", kids(&[1]))]),
        el(vec![
            ("AXRole", text("AXWindow")),
            ("AXParent", AttrValue::Element(0)),
            ("AXSize", size(false, true)),
        ]),
    ])
    .unwrap();
    let app = AXNode(at(&tree, 0));
    let shot = screenshot_target(&app, &None).unwrap();
    assert_eq!(ways(&shot), vec![None]);
    assert_eq!(region(&shot), None);
    let shot = screenshot_target(&app, &Some("window".to_string())).unwrap();
    assert_eq!(shot.window.unwrap().0.id(), 1);
    assert_eq!(ways(&shot), vec![None]);
    assert_eq!(region(&shot), Some(1));
}

#[test]
fn screenshots_of_nothing() {
    let tree = sample();
    let app = AXNode(at(&tree, 0));
    let shot = |l: &str| screenshot_target(&app, &Some(l.to_string()));
    assert!(matches!(shot("#"), Err(AxError::LocatorInvalid(_))));
    assert!(matches!(shot("#none"), Err(AxError::LocatorNotFound(_))));
    assert!(matches!(shot("AXButton"), Err(AxError::LocatorAmbiguous { count: 3, .. })));
}

#[test]
fn paths() {
    assert_eq!(screenshot_path(&Some("a.png".to_string()), 5), "a.png");
    assert_eq!(screenshot_path(&None, 1700000000), "/tmp/ax_screenshot_1700000000.png");
}

fn step(shot: &Shot<'_>, legacy: bool, tried: usize, taken: bool) -> String {
    match shot_step(shot, legacy, tried, taken) {
        ShotStep::Use { crop } => format!("use {:?}", crop.map(|n| n.0.id())),
        ShotStep::Capture(Capture::Frame(w)) => format!("frame {}", w.0.id()),
        ShotStep::Capture(Capture::Process) => "process".to_string(),
        ShotStep::Screen { before, region } => {
            let region = match region {
                Region::Of(n) => Some(n.0.id()),
                Region::Screen => None,
            };
            format!("{before:?} {region:?}")
        }
    }
}

#[test]
fn steps_of_a_screenshot_of_a_window() {
    let tree = sample();
    let shot = screenshot_target(&AXNode(at(&tree, 0)), &None).unwrap();
    assert_eq!(step(&shot, false, 0, false), "frame 1");
    assert_eq!(step(&shot, false, 1, true), "use None");
    assert_eq!(step(&shot, false, 1, false), "process");
    assert_eq!(step(&shot, false, 2, true), "use None");
    assert_eq!(step(&shot, false, 2, false), "[Activate, Pause(100)] Some(1)");
    assert_eq!(format!("{:?}", shot_start(false)), "[]");
    assert_eq!(step(&shot, true, 0, false), "[] Some(1)");
    assert_eq!(format!("{:?}", shot_start(true)), "[Activate, Pause(100)]");
}

#[test]
fn steps_of_a_screenshot_of_an_element() {
    let tree = sample();
    let locator = Some("#sidebar".to_string());
    let shot = screenshot_target(&AXNode(at(&tree, 0)), &locator).unwrap();
    assert_eq!(step(&shot, false, 0, false), "frame 1");
    assert_eq!(step(&shot, false, 1, true), "use Some(2)");
    assert_eq!(step(&shot, false, 1, false), "[Activate, Pause(100)] Some(2)");
    assert_eq!(step(&shot, true, 0, false), "[] Some(2)");
    assert_eq!(step(&shot, true, 0, true), "use Some(2)");
}

#[test]
fn ends_of_a_screenshot() {
    let failure = |captured, cropped, saved| match shot_outcome(captured, cropped, saved, "/a.png")
    {
        Err(AxError::ScreenshotFailed(m)) => m,
        _ => panic!("expected an error"),
    };
    assert!(shot_outcome(true, true, true, "/a.png").is_ok());
    assert_eq!(failure(false, false, false), "capture failed");
    assert_eq!(failure(false, true, true), "capture failed");
    assert_eq!(failure(true, false, false), "crop failed");
    assert_eq!(failure(true, true, false), "failed to save /a.png");
}
