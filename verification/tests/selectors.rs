use axcli::dom_selector::DOMSelector;
use axcli::selector::{
    collect_matching, element_is_visible, element_matches_selector, is_nth_child,
    nth_among_siblings, parse_pseudo_classes, role_matches, subtree_has_text,
};
use axcli::tree::{AXTree, AttrValue, Attribute, Element, ElementData};

fn text(s: &str) -> AttrValue {
    AttrValue::Text(s.to_string())
}

fn classes(names: &[&str]) -> AttrValue {
    AttrValue::TextList(names.iter().map(|n| n.to_string()).collect())
}

fn kids(ids: &[usize]) -> AttrValue {
    AttrValue::ElementList(ids.to_vec())
}

fn size(width_positive: bool, height_positive: bool) -> AttrValue {
    AttrValue::Size { width_positive, height_positive }
}

fn el(attributes: Vec<(&str, AttrValue)>) -> ElementData {
    ElementData {
        attributes: attributes
            .into_iter()
            .map(|(name, value)| Attribute { name: name.to_string(), value })
            .collect(),
        actions: vec!["AXPress".to_string(), "AXShowMenu".to_string()],
        window_id: Some(7),
    }
}

/// An application with one window:
///
/// ```text
/// 0 application
///   1 window "Main"
///     2 group #sidebar .sidebar.wide
///       3 button "Send"
///       4 button "Cancel" (description "Dismiss")
///     5 group .item.unread
///       6 static text "Hello Mary"
///       7 button "Send"
///     8 group .item
///       9 static text "Hello Bob"
///       10 text field "draft" (no size)
/// ```
fn sample() -> AXTree {
    AXTree::new(vec![
        el(vec![("AXRole", text("AXApplication")), ("AXChildren", kids(&[1]))]),
        el(vec![
            ("AXRole", text("AXWindow")),
            ("AXTitle", text("Main")),
            ("AXParent", AttrValue::Element(0)),
            ("AXChildren", kids(&[2, 5, 8])),
            ("AXSize", size(true, true)),
        ]),
        el(vec![
            ("AXRole", text("AXGroup")),
            ("AXDOMIdentifier", text("sidebar")),
            ("AXDOMClassList", classes(&["sidebar", "wide"])),
            ("AXParent", AttrValue::Element(1)),
            ("AXChildren", kids(&[3, 4])),
        ]),
        el(vec![
            ("AXRole", text("AXButton")),
            ("AXTitle", text("Send")),
            ("AXParent", AttrValue::Element(2)),
            ("AXChildren", kids(&[])),
            ("AXSize", size(true, true)),
        ]),
        el(vec![
            ("AXRole", text("AXButton")),
            ("AXTitle", text("Cancel")),
            ("AXDescription", text("Dismiss")),
            ("AXParent", AttrValue::Element(2)),
            ("AXSize", size(true, false)),
        ]),
        el(vec![
            ("AXRole", text("AXGroup")),
            ("AXDOMClassList", classes(&["item", "unread"])),
            ("AXParent", AttrValue::Element(1)),
            ("AXChildren", kids(&[6, 7])),
        ]),
        el(vec![
            ("AXRole", text("AXStaticText")),
            ("AXValue", text("Hello Mary")),
            ("AXParent", AttrValue::Element(5)),
        ]),
        el(vec![
            ("AXRole", text("AXButton")),
            ("AXTitle", text("Send")),
            ("AXParent", AttrValue::Element(5)),
            ("AXSize", size(true, true)),
        ]),
        el(vec![
            ("AXRole", text("AXGroup")),
            ("AXDOMClassList", classes(&["item"])),
            ("AXParent", AttrValue::Element(1)),
            ("AXChildren", kids(&[9, 10])),
        ]),
        el(vec![
            ("AXRole", text("AXStaticText")),
            ("AXValue", text("Hello Bob")),
            ("AXParent", AttrValue::Element(8)),
        ]),
        el(vec![
            ("AXRole", text("AXTextField")),
            ("AXSubrole", text("AXSearchField")),
            ("AXValue", text("dra\u{200b}ft")),
            ("AXParent", AttrValue::Element(8)),
        ]),
    ])
    .unwrap()
}

fn at(tree: &AXTree, id: usize) -> Element<'_> {
    tree.element(id).unwrap()
}

fn ids(found: &[Element<'_>]) -> Vec<usize> {
    found.iter().map(|e| e.id()).collect()
}

fn list(names: &[&str]) -> Vec<String> {
    names.iter().map(|n| n.to_string()).collect()
}

fn found(sel: &str) -> Vec<usize> {
    let tree = sample();
    ids(&collect_matching(at(&tree, 0), sel, 50))
}

#[test]
fn dom_selector_single_class() {
    let s = DOMSelector::parse(".item");
    assert!(s.matches(&list(&["item", "unread"])));
    assert!(!s.matches(&list(&["sidebar"])));
    assert!(!s.matches(&list(&[])));
}

#[test]
fn dom_selector_all_classes() {
    let s = DOMSelector::parse(".message-item.message-self");
    assert!(s.matches(&list(&["message-self", "x", "message-item"])));
    assert!(!s.matches(&list(&["message-item"])));
}

#[test]
fn dom_selector_any_group() {
    let s = DOMSelector::parse(".a, .b");
    assert!(s.matches(&list(&["a"])));
    assert!(s.matches(&list(&["b"])));
    assert!(!s.matches(&list(&["c"])));
    assert_eq!(s.groups.len(), 2);
}

#[test]
fn dom_selector_not() {
    let s = DOMSelector::parse(".item:not(.unread)");
    assert!(s.matches(&list(&["item"])));
    assert!(!s.matches(&list(&["item", "unread"])));
    assert_eq!(s.groups[0].required, list(&["item"]));
    assert_eq!(s.groups[0].excluded, list(&["unread"]));
}

#[test]
fn dom_selector_copy_is_the_same() {
    let s = DOMSelector::parse(".a.b:not(.c), .d");
    let c = s.clone();
    assert_eq!(c.groups.len(), 2);
    assert_eq!(c.groups[0].required, list(&["a", "b"]));
    assert_eq!(c.groups[0].excluded, list(&["c"]));
    assert_eq!(c.groups[1].required, list(&["d"]));
}

#[test]
fn role_matches_beyond_ascii() {
    assert!(role_matches("AX\u{c4}pfel", "\u{e4}PFEL"));
    assert!(!role_matches("AX\u{c4}pfel", "apfel"));
}

#[test]
fn by_id() {
    assert_eq!(found("#sidebar"), vec![2]);
    assert_eq!(found("#other"), Vec::<usize>::new());
}

#[test]
fn by_role_and_id() {
    assert_eq!(found("AXGroup#sidebar"), vec![2]);
    assert_eq!(found("group#sidebar"), vec![2]);
    assert_eq!(found("button#sidebar"), Vec::<usize>::new());
}

#[test]
fn by_role() {
    assert_eq!(found("AXButton"), vec![3, 4, 7]);
    assert_eq!(found("button"), vec![3, 4, 7]);
    assert_eq!(found("text"), vec![6, 9, 10]);
}

#[test]
fn by_class() {
    assert_eq!(found(".item"), vec![5, 8]);
    assert_eq!(found(".item.unread"), vec![5]);
    assert_eq!(found(".item:not(.unread)"), vec![8]);
}

#[test]
fn by_role_and_class() {
    assert_eq!(found("AXGroup.item"), vec![5, 8]);
    assert_eq!(found("group.item.unread"), vec![5]);
    assert_eq!(found("AXButton.item"), Vec::<usize>::new());
}

#[test]
fn by_bracket() {
    assert_eq!(found("AXButton[title=\"Send\"]"), vec![3, 7]);
    assert_eq!(found("button[name=\"Send\"]"), vec![3, 7]);
    assert_eq!(found("button[desc$=\"miss\"]"), vec![4]);
    assert_eq!(found("text[text^=\"Hello\"]"), vec![6, 9]);
    assert_eq!(found("text[text*=\"o B\"]"), vec![9]);
    assert_eq!(found("textfield[text=\"draft\"]"), vec![10]);
    assert_eq!(found("AXButton[help=\"Send\"]"), Vec::<usize>::new());
    assert_eq!(found("AXButton[title=\"Send\""), Vec::<usize>::new());
}

#[test]
fn by_text() {
    assert_eq!(found("text=Hello Mary"), vec![6]);
    assert_eq!(found("text=\"Send\""), vec![3, 7]);
    assert_eq!(found("text~=Hello"), vec![6, 9]);
    assert_eq!(found("text~=\"ismis\""), vec![4]);
}

#[test]
fn by_pattern() {
    assert_eq!(found("text=/Hello \\w+/"), vec![6, 9]);
    assert_eq!(found("text=/^hello b/"), Vec::<usize>::new());
    assert_eq!(found("text=/^hello b/i"), vec![9]);
    assert_eq!(found("text=/(/"), Vec::<usize>::new());
    assert_eq!(found("text=/Hello"), Vec::<usize>::new());
}

#[test]
fn by_number_among_siblings() {
    assert_eq!(found("AXGroup:nth(0)"), vec![2]);
    assert_eq!(found("AXGroup:nth(2)"), vec![8]);
    assert_eq!(found("AXButton:nth(0)"), vec![3, 7]);
    assert_eq!(found("AXButton:nth(x)"), Vec::<usize>::new());
}

#[test]
fn pseudo_class_visible() {
    assert_eq!(found("AXButton:visible"), vec![3, 7]);
    assert_eq!(found(":visible"), vec![1, 3, 7]);
}

#[test]
fn pseudo_class_has_text() {
    assert_eq!(found(".item:has-text(\"Mary\")"), vec![5]);
    assert_eq!(found(".item:has-text('Bob')"), vec![8]);
    assert_eq!(found("AXButton:has-text(\"Dismiss\")"), vec![4]);
}

#[test]
fn pseudo_class_has() {
    assert_eq!(found(".item:has(AXButton)"), vec![5]);
    assert_eq!(found("AXGroup:has(text=\"Cancel\")"), vec![2]);
}

#[test]
fn pseudo_class_nth_child() {
    assert_eq!(found("AXGroup:nth-child(1)"), vec![5]);
    assert_eq!(found("AXButton:nth-child(1)"), vec![4, 7]);
    assert_eq!(found("AXButton:nth-child( 0 )"), vec![3]);
}

#[test]
fn pseudo_classes_are_taken_off_from_the_end() {
    let p = parse_pseudo_classes(".item:has(.b):has-text(\"a\"):nth-child(2):visible");
    assert_eq!(p.base, ".item");
    assert_eq!(p.has_text.as_deref(), Some("a"));
    assert_eq!(p.has_selector.as_deref(), Some(".b"));
    assert_eq!(p.nth_child, Some(2));
    assert!(p.visible);
}

#[test]
fn pseudo_classes_end_at_their_own_parenthesis() {
    let p = parse_pseudo_classes(".item:has-text(\"a\"):has(.b)");
    assert_eq!(p.base, ".item");
    assert_eq!(p.has_text.as_deref(), Some("a"));
    assert_eq!(p.has_selector.as_deref(), Some(".b"));

    let p = parse_pseudo_classes("AXGroup:has(AXButton:has-text(\"OK\"))");
    assert_eq!(p.base, "AXGroup");
    assert_eq!(p.has_text, None);
    assert_eq!(p.has_selector.as_deref(), Some("AXButton:has-text(\"OK\")"));

    let p = parse_pseudo_classes("AXGroup:has(AXButton:nth-child(0))");
    assert_eq!(p.base, "AXGroup");
    assert_eq!(p.nth_child, None);
    assert_eq!(p.has_selector.as_deref(), Some("AXButton:nth-child(0)"));

    let p = parse_pseudo_classes(".a:has(.b:has(.c)):nth-child(1):visible");
    assert_eq!(p.base, ".a");
    assert!(p.visible);
    assert_eq!(p.nth_child, Some(1));
    assert_eq!(p.has_selector.as_deref(), Some(".b:has(.c)"));
}

#[test]
fn quoted_pseudo_classes_are_text() {
    let p = parse_pseudo_classes(".x:has-text(\"a:has(b)\")");
    assert_eq!(p.base, ".x");
    assert_eq!(p.has_text.as_deref(), Some("a:has(b)"));
    assert_eq!(p.has_selector, None);

    let p = parse_pseudo_classes(".x:has-text(\":)\"):has(.b)");
    assert_eq!(p.base, ".x");
    assert_eq!(p.has_text.as_deref(), Some(":)"));
    assert_eq!(p.has_selector.as_deref(), Some(".b"));

    let p = parse_pseudo_classes(".x:has-text(it's)");
    assert_eq!(p.base, ".x");
    assert_eq!(p.has_text.as_deref(), Some("it's"));
}

#[test]
fn apostrophes_in_a_text_are_not_quotes() {
    let p = parse_pseudo_classes(".a:has-text(it's):has-text(isn't)");
    assert_eq!(p.base, ".a");
    assert_eq!(p.has_text.as_deref(), Some("it's"));

    let p = parse_pseudo_classes(".a:has-text('tis):has-text('twas)");
    assert_eq!(p.base, ".a");
    assert_eq!(p.has_text.as_deref(), Some("tis"));

    let p = parse_pseudo_classes(".a:has-text(5\" disk):has-text(3\" disk)");
    assert_eq!(p.base, ".a");
    assert_eq!(p.has_text.as_deref(), Some("5\" disk"));

    let p = parse_pseudo_classes(".a:has-text(':)'):has(AXButton[title=\"a)\"]):visible");
    assert_eq!(p.base, ".a");
    assert!(p.visible);
    assert_eq!(p.has_text.as_deref(), Some(":)"));
    assert_eq!(p.has_selector.as_deref(), Some("AXButton[title=\"a)\"]"));

    let p = parse_pseudo_classes(".a:has(.b:has-text(\"x)\"):visible)");
    assert_eq!(p.base, ".a");
    assert!(!p.visible);
    assert_eq!(p.has_selector.as_deref(), Some(".b:has-text(\"x)\"):visible"));
}

#[test]
fn a_bad_number_is_part_of_what_stands_before_it() {
    let p = parse_pseudo_classes(".a:has-text(\"x\"):nth-child(x)");
    assert_eq!(p.base, ".a");
    assert_eq!(p.has_text.as_deref(), Some("x\"):nth-child(x"));
    assert_eq!(p.nth_child, None);

    let p = parse_pseudo_classes(".a:has(.b):nth-child()");
    assert_eq!(p.base, ".a");
    assert_eq!(p.has_selector.as_deref(), Some(".b):nth-child("));
    assert_eq!(p.nth_child, None);
}

#[test]
fn unmatched_parentheses_reach_to_the_end() {
    let p = parse_pseudo_classes(".x:has-text(:))");
    assert_eq!(p.base, ".x");
    assert_eq!(p.has_text.as_deref(), Some(":)"));

    let p = parse_pseudo_classes(".x:has(a(b)");
    assert_eq!(p.base, ".x");
    assert_eq!(p.has_selector.as_deref(), Some("a(b"));

    let p = parse_pseudo_classes(".x:has(a");
    assert_eq!(p.base, ".x:has(a");
    assert_eq!(p.has_selector, None);
}

#[test]
fn pseudo_class_with_a_bad_number_stays() {
    let p = parse_pseudo_classes("AXGroup:nth-child(x)");
    assert_eq!(p.base, "AXGroup:nth-child(x)");
    assert_eq!(p.nth_child, None);
}

#[test]
fn visible_suffix_adds_a_condition() {
    let tree = sample();
    for id in 0..tree.len() {
        let e = at(&tree, id);
        for sel in ["AXButton", "#sidebar", ".item", "text~=Hello", ""] {
            let with = format!("{sel}:visible");
            assert_eq!(
                element_matches_selector(e, &with),
                element_matches_selector(e, sel) && element_is_visible(e)
            );
        }
    }
}

#[test]
fn a_comma_means_either() {
    for names in [vec!["a"], vec!["b"], vec!["a", "b"], vec!["c"], vec![]] {
        let held = list(&names);
        let either = DOMSelector::parse(".a,.b:not(.a)").matches(&held);
        let one = DOMSelector::parse(".a").matches(&held);
        let two = DOMSelector::parse(".b:not(.a)").matches(&held);
        assert_eq!(either, one || two);
    }
}

#[test]
fn dots_mean_all() {
    let s = DOMSelector::parse(".a.b-1.c_2");
    assert!(s.matches(&list(&["c_2", "a", "x", "b-1"])));
    assert!(!s.matches(&list(&["a", "b-1"])));
    assert!(DOMSelector::parse("").matches(&list(&[])));
}

#[test]
fn text_in_a_subtree() {
    let tree = sample();
    assert!(subtree_has_text(at(&tree, 0), "Bob"));
    assert!(subtree_has_text(at(&tree, 5), "Mary"));
    assert!(!subtree_has_text(at(&tree, 5), "Bob"));
    assert!(subtree_has_text(at(&tree, 4), "Dismiss"));
}

#[test]
fn places_among_siblings() {
    let tree = sample();
    assert!(is_nth_child(at(&tree, 7), 1));
    assert!(!is_nth_child(at(&tree, 7), 0));
    assert!(!is_nth_child(at(&tree, 0), 0));
    assert_eq!(nth_among_siblings(at(&tree, 7)), Some(("AXButton".to_string(), 0)));
    assert_eq!(nth_among_siblings(at(&tree, 8)), Some(("AXGroup".to_string(), 2)));
    assert_eq!(nth_among_siblings(at(&tree, 0)), None);
}

#[test]
fn matching_stops_at_the_depth() {
    let tree = sample();
    assert_eq!(ids(&collect_matching(at(&tree, 0), "AXButton", 2)), Vec::<usize>::new());
    assert_eq!(ids(&collect_matching(at(&tree, 0), "AXButton", 3)), vec![3, 4, 7]);
}
