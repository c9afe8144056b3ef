use axcli::generate::{
    candidate_tokens, chain_is_unique, count_matches, generate_locator, MatchResult,
};
use axcli::node::AXNode;
use axcli::resolve::{
    apply_step_inner, collect_direct_children_matching, parse_locator_steps, resolve_locator,
    resolve_locator_all, LocatorStep,
};
use axcli::selector::element_matches_selector;
use axcli::tree::{AXTree, AttrValue, Attribute, Element, ElementData};

fn text(s: &str) -> AttrValue {
    AttrValue::Text(s.to_string())
}

fn classes(names: &[&str]) -> AttrValue {
    AttrValue::TextList(names.iter().map(|n| n.to_string()).collect())
}

fn kids(ids: &[usize]) -> AttrValue {
    AttrValue::ElementList(ids.to_vec())
}

fn size(width_positive: bool, height_positive: bool) -> AttrValue {
    AttrValue::Size { width_positive, height_positive }
}

fn el(attributes: Vec<(&str, AttrValue)>) -> ElementData {
    ElementData {
        attributes: attributes
            .into_iter()
            .map(|(name, value)| Attribute { name: name.to_string(), value })
            .collect(),
        actions: vec!["AXPress".to_string(), "AXShowMenu".to_string()],
        window_id: Some(7),
    }
}

/// An application with one window:
///
/// ```text
/// 0 application
///   1 window "Main"
///     2 group #sidebar .sidebar.wide
///       3 button "Send"
///       4 button "Cancel" (description "Dismiss")
///     5 group .item.unread
///       6 static text "Hello Mary"
///       7 button "Send"
///     8 group .item
///       9 static text "Hello Bob"
///       10 text field "draft" (no size)
/// ```
fn sample() -> AXTree {
    AXTree::new(vec![
        el(vec![("AXRole", text("AXApplication")), ("AXChildren", kids(&[1]))]),
        el(vec![
            ("AXRole", text("AXWindow")),
            ("AXTitle", text("Main")),
            ("AXParent", AttrValue::Element(0)),
            ("AXChildren", kids(&[2, 5, 8])),
            ("AXSize", size(true, true)),
        ]),
        el(vec![
            ("AXRole", text("AXGroup")),
            ("AXDOMIdentifier", text("sidebar")),
            ("AXDOMClassList", classes(&["sidebar", "wide"])),
            ("AXParent", AttrValue::Element(1)),
            ("AXChildren", kids(&[3, 4])),
        ]),
        el(vec![
            ("AXRole", text("AXButton")),
            ("AXTitle", text("Send")),
            ("AXParent", AttrValue::Element(2)),
            ("AXChildren", kids(&[])),
            ("AXSize", size(true, true)),
        ]),
        el(vec![
            ("AXRole", text("AXButton")),
            ("AXTitle", text("Cancel")),
            ("AXDescription", text("Dismiss")),
            ("AXParent", AttrValue::Element(2)),
            ("AXSize", size(true, false)),
        ]),
        el(vec![
            ("AXRole", text("AXGroup")),
            ("AXDOMClassList", classes(&["item", "unread"])),
            ("AXParent", AttrValue::Element(1)),
            ("AXChildren", kids(&[6, 7])),
        ]),
        el(vec![
            ("AXRole", text("AXStaticText")),
            ("AXValue", text("Hello Mary")),
            ("AXParent", AttrValue::Element(5)),
        ]),
        el(vec![
            ("AXRole", text("AXButton")),
            ("AXTitle", text("Send")),
            ("AXParent", AttrValue::Element(5)),
            ("AXSize", size(true, true)),
        ]),
        el(vec![
            ("AXRole", text("AXGroup")),
            ("AXDOMClassList", classes(&["item"])),
            ("AXParent", AttrValue::Element(1)),
            ("AXChildren", kids(&[9, 10])),
        ]),
        el(vec![
            ("AXRole", text("AXStaticText")),
            ("AXValue", text("Hello Bob")),
            ("AXParent", AttrValue::Element(8)),
        ]),
        el(vec![
            ("AXRole", text("AXTextField")),
            ("AXSubrole", text("AXSearchField")),
            ("AXValue", text("dra\u{200b}ft")),
            ("AXParent", AttrValue::Element(8)),
        ]),
    ])
    .unwrap()
}

fn at(tree: &AXTree, id: usize) -> Element<'_> {
    tree.element(id).unwrap()
}

fn ids(found: &[Element<'_>]) -> Vec<usize> {
    found.iter().map(|e| e.id()).collect()
}

fn located(locator: &str) -> Vec<usize> {
    let tree = sample();
    ids(&resolve_locator_all(at(&tree, 0), locator))
}

#[test]
fn steps_of_a_locator() {
    let steps = parse_locator_steps("AXWindow > AXGroup >>  .item  >> nth=-1");
    assert_eq!(steps.len(), 4);
    assert!(matches!(steps[0], LocatorStep::Descendant("AXWindow")));
    assert!(matches!(steps[1], LocatorStep::DirectChild("AXGroup")));
    assert!(matches!(steps[2], LocatorStep::Descendant(".item")));
    assert!(matches!(steps[3], LocatorStep::Descendant("nth=-1")));
    assert_eq!(parse_locator_steps("  ").len(), 0);
    assert_eq!(parse_locator_steps("a >>  >> b").len(), 2);
}

#[test]
fn chains_search_within() {
    assert_eq!(located(".item >> AXButton"), vec![7]);
    assert_eq!(located("#sidebar >> AXButton"), vec![3, 4]);
    assert_eq!(located("AXWindow >> AXButton[title=\"Send\"]"), vec![3, 7]);
    assert_eq!(located(""), Vec::<usize>::new());
}

#[test]
fn direct_children_only() {
    assert_eq!(located("AXWindow > AXGroup"), vec![2, 5, 8]);
    assert_eq!(located("AXWindow > AXButton"), Vec::<usize>::new());
    assert_eq!(located("AXWindow > .item > AXButton"), vec![7]);
    let tree = sample();
    assert_eq!(ids(&collect_direct_children_matching(at(&tree, 1), ".item")), vec![5, 8]);
}

#[test]
fn selections() {
    assert_eq!(located("AXButton >> nth=0"), vec![3]);
    assert_eq!(located("AXButton >> nth=2"), vec![7]);
    assert_eq!(located("AXButton >> nth=3"), Vec::<usize>::new());
    assert_eq!(located("AXButton >> nth=-1"), vec![7]);
    assert_eq!(located("AXButton >> nth=-4"), Vec::<usize>::new());
    assert_eq!(located("AXButton >> nth=x"), Vec::<usize>::new());
    assert_eq!(located("AXButton >> first"), vec![3]);
    assert_eq!(located("AXButton >> last"), vec![7]);
    assert_eq!(located(".item >> last >> text"), vec![9, 10]);
}

#[test]
fn joined_locators_go_on_from_what_was_found() {
    let tree = sample();
    let app = AXNode(at(&tree, 0));
    for a in ["AXWindow", ".item", "AXWindow > AXGroup", "AXButton >> last"] {
        for b in ["AXButton", "text", "first", "nth=-1", "AXGroup > AXButton"] {
            let both = format!("{a} >> {b}");
            let found = app.locate_all(&both).len();
            let expected = match b {
                "first" | "nth=-1" => app.locate_all(a).len().min(1),
                _ => app.locate_all(a).iter().map(|n| n.locate_all(b).len()).sum(),
            };
            assert_eq!(found, expected, "{both}");
        }
    }
}

#[test]
fn the_first_of_all() {
    let tree = sample();
    for locator in ["AXButton", ".item >> text", "AXWindow > AXGroup", "#none"] {
        let all = resolve_locator_all(at(&tree, 0), locator);
        let first = resolve_locator(at(&tree, 0), locator);
        assert_eq!(first.map(|e| e.id()), all.first().map(|e| e.id()));
    }
}

#[test]
fn tokens_of_an_element() {
    let tree = sample();
    let toks = candidate_tokens(at(&tree, 2));
    let found: Vec<(u32, &str)> = toks.iter().map(|t| (t.score, t.selector.as_str())).collect();
    assert_eq!(
        found,
        vec![(10, "#sidebar"), (200, "AXGroup.sidebar.wide"), (510, "AXGroup")]
    );
    let toks = candidate_tokens(at(&tree, 4));
    let found: Vec<(u32, &str)> = toks.iter().map(|t| (t.score, t.selector.as_str())).collect();
    assert_eq!(
        found,
        vec![
            (100, "AXButton[title=\"Cancel\"]"),
            (120, "AXButton[desc=\"Dismiss\"]"),
            (510, "AXButton"),
        ]
    );
    let toks = candidate_tokens(at(&tree, 10));
    assert_eq!(toks[0].selector, "AXTextField[text=\"draft\"]");
    assert_eq!(toks[0].score, 140);
}

#[test]
fn tokens_leave_out_long_texts() {
    let long = "x".repeat(81);
    let fits = "x".repeat(80);
    let tree = AXTree::new(vec![el(vec![
        ("AXRole", text("AXButton")),
        ("AXTitle", text(&long)),
        ("AXDescription", text(&fits)),
    ])])
    .unwrap();
    let toks = candidate_tokens(at(&tree, 0));
    assert_eq!(toks.len(), 2);
    assert_eq!(toks[0].score, 120);
    assert_eq!(toks[1].score, 510);
}

#[test]
fn tokens_quote_their_text() {
    let tree = AXTree::new(vec![el(vec![
        ("AXRole", text("AXButton")),
        ("AXTitle", text("a\"b\\c\n")),
        ("AXDescription", text("it's")),
    ])])
    .unwrap();
    let toks = candidate_tokens(at(&tree, 0));
    assert_eq!(toks[1].selector, "AXButton[desc=\"it's\"]");
    assert_eq!(toks[0].selector, "AXButton[title=\"a\\\"b\\\\c\\n\"]");
}

#[test]
fn tokens_match_their_element() {
    let tree = sample();
    for id in 0..tree.len() {
        for token in candidate_tokens(at(&tree, id)) {
            assert!(element_matches_selector(at(&tree, id), &token.selector), "{}", token.selector);
        }
    }
}

#[test]
fn uniqueness() {
    let tree = sample();
    let root = at(&tree, 0);
    assert_eq!(count_matches(root, "#sidebar", at(&tree, 2), 50), MatchResult::Unique);
    assert_eq!(count_matches(root, "#sidebar", at(&tree, 3), 50), MatchResult::NotUnique);
    assert_eq!(count_matches(root, "AXButton", at(&tree, 3), 50), MatchResult::NotUnique);
    assert_eq!(count_matches(root, "#none", at(&tree, 3), 50), MatchResult::NotUnique);
    assert_eq!(count_matches(root, "#sidebar", at(&tree, 2), 1), MatchResult::NotUnique);
    assert!(chain_is_unique(root, ".item.unread", "AXButton", at(&tree, 7)));
    assert!(!chain_is_unique(root, "AXGroup", "AXButton", at(&tree, 7)));
}

#[test]
fn generated_single_selectors() {
    let tree = sample();
    let root = at(&tree, 0);
    assert_eq!(generate_locator(root, at(&tree, 2)), "#sidebar");
    assert_eq!(generate_locator(root, at(&tree, 1)), "AXWindow[title=\"Main\"]");
    assert_eq!(generate_locator(root, at(&tree, 4)), "AXButton[title=\"Cancel\"]");
    assert_eq!(generate_locator(root, at(&tree, 6)), "AXStaticText[text=\"Hello Mary\"]");
    assert_eq!(generate_locator(root, at(&tree, 5)), "AXGroup.item.unread");
}

#[test]
fn generated_chains() {
    let tree = sample();
    let root = at(&tree, 0);
    assert_eq!(generate_locator(root, at(&tree, 3)), "#sidebar >> AXButton[title=\"Send\"]");
    assert_eq!(
        generate_locator(root, at(&tree, 7)),
        "AXGroup.item.unread >> AXButton[title=\"Send\"]"
    );
}

#[test]
fn generated_numbers() {
    let tree = AXTree::new(vec![
        el(vec![("AXChildren", kids(&[1, 2, 3]))]),
        el(vec![("AXRole", text("AXGroup")), ("AXParent", AttrValue::Element(0))]),
        el(vec![("AXRole", text("AXCell")), ("AXParent", AttrValue::Element(0))]),
        el(vec![("AXRole", text("AXGroup")), ("AXParent", AttrValue::Element(0))]),
    ])
    .unwrap();
    let root = at(&tree, 0);
    assert_eq!(generate_locator(root, at(&tree, 3)), "AXGroup:nth(1)");
    assert_eq!(ids(&resolve_locator_all(root, "AXGroup:nth(1)")), vec![3]);
    assert_eq!(generate_locator(root, root), "?");
}

#[test]
fn generated_locators_lead_back() {
    let tree = sample();
    let root = AXNode(at(&tree, 0));
    for id in [1, 2, 3, 4, 5, 6, 7, 9, 10] {
        let target = AXNode(at(&tree, id));
        let locator = root.locator(&target);
        let back: Vec<usize> = root.locate_all(&locator).iter().map(|n| n.0.id()).collect();
        assert_eq!(back, vec![id], "{locator}");
    }
}

#[test]
fn a_title_with_a_separator_is_passed_over() {
    let tree = AXTree::new(vec![
        el(vec![("AXChildren", kids(&[1]))]),
        el(vec![
            ("AXRole", text("AXButton")),
            ("AXTitle", text("A > B")),
            ("AXParent", AttrValue::Element(0)),
        ]),
    ])
    .unwrap();
    // As a locator, the title would be taken apart.
    let titled = "AXButton[title=\"A > B\"]";
    assert_eq!(ids(&resolve_locator_all(at(&tree, 0), titled)), Vec::<usize>::new());
    let locator = generate_locator(at(&tree, 0), at(&tree, 1));
    assert_eq!(locator, "AXButton");
    assert_eq!(ids(&resolve_locator_all(at(&tree, 0), &locator)), vec![1]);
}

#[test]
fn a_bare_element_is_told_by_its_number() {
    let tree = AXTree::new(vec![
        el(vec![("AXChildren", kids(&[1, 2]))]),
        el(vec![("AXRole", text("AXGroup"))]),
        el(vec![]),
    ])
    .unwrap();
    let locator = generate_locator(at(&tree, 0), at(&tree, 2));
    assert_eq!(locator, ".a,:not(.a) >> nth=1");
    assert!(axcli::validate::validate_locator(&locator).is_ok());
    assert_eq!(ids(&resolve_locator_all(at(&tree, 0), &locator)), vec![2]);
}

#[test]
fn equal_numbers_in_two_groups_are_told_apart() {
    let button = |parent| {
        el(vec![("AXRole", text("AXButton")), ("AXParent", AttrValue::Element(parent))])
    };
    let group = |child| {
        el(vec![
            ("AXRole", text("AXGroup")),
            ("AXParent", AttrValue::Element(0)),
            ("AXChildren", kids(&[child])),
        ])
    };
    let tree = AXTree::new(vec![
        el(vec![("AXChildren", kids(&[1, 2]))]),
        group(3),
        group(4),
        button(1),
        button(2),
    ])
    .unwrap();
    let root = at(&tree, 0);
    assert_eq!(ids(&resolve_locator_all(root, "AXButton:nth(0)")), vec![3, 4]);
    assert_eq!(generate_locator(root, at(&tree, 3)), "AXButton:nth(0) >> nth=0");
    assert_eq!(generate_locator(root, at(&tree, 4)), "AXButton:nth(0) >> nth=1");
    for id in 1..5 {
        let locator = generate_locator(root, at(&tree, id));
        assert_eq!(ids(&resolve_locator_all(root, &locator)), vec![id], "{locator}");
    }
}

#[test]
fn the_chain_of_the_lowest_score_wins() {
    // The outer group has an identifier, the inner one only a class.
    let tree = AXTree::new(vec![
        el(vec![("AXRole", text("AXApplication")), ("AXChildren", kids(&[1, 4]))]),
        el(vec![
            ("AXRole", text("AXGroup")),
            ("AXDOMIdentifier", text("outer")),
            ("AXParent", AttrValue::Element(0)),
            ("AXChildren", kids(&[2])),
        ]),
        el(vec![
            ("AXRole", text("AXGroup")),
            ("AXDOMClassList", classes(&["inner"])),
            ("AXParent", AttrValue::Element(1)),
            ("AXChildren", kids(&[3])),
        ]),
        el(vec![
            ("AXRole", text("AXButton")),
            ("AXTitle", text("Go")),
            ("AXParent", AttrValue::Element(2)),
        ]),
        el(vec![
            ("AXRole", text("AXButton")),
            ("AXTitle", text("Go")),
            ("AXParent", AttrValue::Element(0)),
        ]),
    ])
    .unwrap();
    let locator = generate_locator(at(&tree, 0), at(&tree, 3));
    assert_eq!(locator, "#outer >> AXButton[title=\"Go\"]");
}

#[test]
fn steps_that_select() {
    let tree = sample();
    let from = vec![at(&tree, 3), at(&tree, 5), at(&tree, 8)];
    for direct in [true, false] {
        let picked = |step: &str| ids(&apply_step_inner(&from, step, direct));
        assert_eq!(picked("nth=0"), vec![3]);
        assert_eq!(picked("nth=2"), vec![8]);
        assert_eq!(picked("nth=3"), Vec::<usize>::new());
        assert_eq!(picked("nth=-1"), vec![8]);
        assert_eq!(picked("nth=-3"), vec![3]);
        assert_eq!(picked("nth=-4"), Vec::<usize>::new());
        assert_eq!(picked("nth=x"), Vec::<usize>::new());
        assert_eq!(picked("nth="), Vec::<usize>::new());
        assert_eq!(picked("first"), picked("nth=0"));
        assert_eq!(picked("last"), picked("nth=-1"));
    }
    assert_eq!(ids(&apply_step_inner(&from, "AXStaticText", true)), vec![6, 9]);
    let top = vec![at(&tree, 0)];
    assert_eq!(ids(&apply_step_inner(&top, "AXStaticText", true)), Vec::<usize>::new());
    assert_eq!(ids(&apply_step_inner(&top, "AXStaticText", false)), vec![6, 9]);
}
