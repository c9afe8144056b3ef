use axcli::error::AxError;
use axcli::locator::{apply_step, budget_for, clone_step, FilterCriteria, Locator, LocatorStep};
use axcli::node::{AXNode, Change};
use axcli::query::{role, NodePredicate};
use axcli::tree::{AXTree, AttrValue, Attribute, Element, ElementData};

fn text(s: &str) -> AttrValue {
    AttrValue::Text(s.to_string())
}

fn classes(names: &[&str]) -> AttrValue {
    AttrValue::TextList(names.iter().map(|n| n.to_string()).collect())
}

fn kids(ids: &[usize]) -> AttrValue {
    AttrValue::ElementList(ids.to_vec())
}

fn size(width_positive: bool, height_positive: bool) -> AttrValue {
    AttrValue::Size { width_positive, height_positive }
}

fn el(attributes: Vec<(&str, AttrValue)>) -> ElementData {
    ElementData {
        attributes: attributes
            .into_iter()
            .map(|(name, value)| Attribute { name: name.to_string(), value })
            .collect(),
        actions: vec!["AXPress".to_string(), "AXShowMenu".to_string()],
        window_id: Some(7),
    }
}

/// An application with one window:
///
/// ```text
/// 0 application
///   1 window "Main"
///     2 group #sidebar .sidebar.wide
///       3 button "Send"
///       4 button "Cancel" (description "Dismiss")
///     5 group .item.unread
///       6 static text "Hello Mary"
///       7 button "Send"
///     8 group .item
///       9 static text "Hello Bob"
///       10 text field "draft" (no size)
/// ```
fn sample() -> AXTree {
    AXTree::new(vec![
        el(vec![("AXRole", text("AXApplication")), ("AXChildren", kids(&[1]))]),
        el(vec![
            ("AXRole", text("AXWindow")),
            ("AXTitle", text("Main")),
            ("AXParent", AttrValue::Element(0)),
            ("AXChildren", kids(&[2, 5, 8])),
            ("AXSize", size(true, true)),
        ]),
        el(vec![
            ("AXRole", text("AXGroup")),
            ("AXDOMIdentifier", text("sidebar")),
            ("AXDOMClassList", classes(&["sidebar", "wide"])),
            ("AXParent", AttrValue::Element(1)),
            ("AXChildren", kids(&[3, 4])),
        ]),
        el(vec![
            ("AXRole", text("AXButton")),
            ("AXTitle", text("Send")),
            ("AXParent", AttrValue::Element(2)),
            ("AXChildren", kids(&[])),
            ("AXSize", size(true, true)),
        ]),
        el(vec![
            ("AXRole", text("AXButton")),
            ("AXTitle", text("Cancel")),
            ("AXDescription", text("Dismiss")),
            ("AXParent", AttrValue::Element(2)),
            ("AXSize", size(true, false)),
        ]),
        el(vec![
            ("AXRole", text("AXGroup")),
            ("AXDOMClassList", classes(&["item", "unread"])),
            ("AXParent", AttrValue::Element(1)),
            ("AXChildren", kids(&[6, 7])),
        ]),
        el(vec![
            ("AXRole", text("AXStaticText")),
            ("AXValue", text("Hello Mary")),
            ("AXParent", AttrValue::Element(5)),
        ]),
        el(vec![
            ("AXRole", text("AXButton")),
            ("AXTitle", text("Send")),
            ("AXParent", AttrValue::Element(5)),
            ("AXSize", size(true, true)),
        ]),
        el(vec![
            ("AXRole", text("AXGroup")),
            ("AXDOMClassList", classes(&["item"])),
            ("AXParent", AttrValue::Element(1)),
            ("AXChildren", kids(&[9, 10])),
        ]),
        el(vec![
            ("AXRole", text("AXStaticText")),
            ("AXValue", text("Hello Bob")),
            ("AXParent", AttrValue::Element(8)),
        ]),
        el(vec![
            ("AXRole", text("AXTextField")),
            ("AXSubrole", text("AXSearchField")),
            ("AXValue", text("dra\u{200b}ft")),
            ("AXParent", AttrValue::Element(8)),
        ]),
    ])
    .unwrap()
}

fn at(tree: &AXTree, id: usize) -> Element<'_> {
    tree.element(id).unwrap()
}

fn ids(found: &[AXNode<'_>]) -> Vec<usize> {
    found.iter().map(|n| n.0.id()).collect()
}

#[test]
fn clone_step_preserves_filter_has_text() {
    let mut criteria = FilterCriteria::new();
    criteria.has_text("hello");

    let step = LocatorStep::Filter(criteria);
    let cloned = clone_step(&step);

    if let LocatorStep::Filter(c) = cloned {
        assert_eq!(c.has_text.as_deref(), Some("hello"));
    } else {
        panic!("expected Filter step");
    }
}

#[test]
fn clone_step_preserves_filter_has_not_text() {
    let mut criteria = FilterCriteria::new();
    criteria.has_not_text("world");

    let step = LocatorStep::Filter(criteria);
    let cloned = clone_step(&step);

    if let LocatorStep::Filter(c) = cloned {
        assert_eq!(c.has_not_text.as_deref(), Some("world"));
    } else {
        panic!("expected Filter step");
    }
}

#[test]
fn clone_step_preserves_nested_has_locator() {
    let tree = sample();
    let inner_locator = Locator {
        root: at(&tree, 0),
        steps: vec![LocatorStep::Role("AXButton".to_string())],
    };
    let mut criteria = FilterCriteria::new();
    criteria.has(inner_locator);

    let step = LocatorStep::Filter(criteria);
    let cloned = clone_step(&step);

    if let LocatorStep::Filter(c) = cloned {
        assert!(c.has.is_some());
        let inner = c.has.unwrap();
        assert_eq!(inner.steps.len(), 1);
        if let LocatorStep::Role(r) = &inner.steps[0] {
            assert_eq!(r, "AXButton");
        } else {
            panic!("expected Role step inside has locator");
        }
    } else {
        panic!("expected Filter step");
    }
}

#[test]
fn clone_step_preserves_nested_has_not_locator() {
    let tree = sample();
    let inner_locator = Locator {
        root: at(&tree, 0),
        steps: vec![LocatorStep::Text("foo".to_string())],
    };
    let mut criteria = FilterCriteria::new();
    criteria.has_not(inner_locator);

    let step = LocatorStep::Filter(criteria);
    let cloned = clone_step(&step);

    if let LocatorStep::Filter(c) = cloned {
        assert!(c.has_not.is_some());
    } else {
        panic!("expected Filter step");
    }
}

#[test]
fn clone_step_preserves_predicate() {
    let tree = sample();
    let my_pred = NodePredicate::of(&tree, |_: Element<'_>| true);

    let mut criteria = FilterCriteria::new();
    criteria.predicate(my_pred);

    let step = LocatorStep::Filter(criteria);
    let cloned = clone_step(&step);

    if let LocatorStep::Filter(c) = cloned {
        assert!(c.predicate.is_some());
    } else {
        panic!("expected Filter step");
    }
}

#[test]
fn clone_step_simple_variants() {
    assert!(matches!(clone_step(&LocatorStep::Nth(5)), LocatorStep::Nth(5)));
    assert!(matches!(clone_step(&LocatorStep::First), LocatorStep::First));
    assert!(matches!(clone_step(&LocatorStep::Last), LocatorStep::Last));

    if let LocatorStep::Role(r) = clone_step(&LocatorStep::Role("AXButton".into())) {
        assert_eq!(r, "AXButton");
    } else {
        panic!("expected Role");
    }

    if let LocatorStep::Text(t) = clone_step(&LocatorStep::Text("hello".into())) {
        assert_eq!(t, "hello");
    } else {
        panic!("expected Text");
    }
}

#[test]
fn clone_step_empty_filter() {
    let criteria = FilterCriteria::new();
    let step = LocatorStep::Filter(criteria);
    let cloned = clone_step(&step);

    if let LocatorStep::Filter(c) = cloned {
        assert!(c.has_text.is_none());
        assert!(c.has_not_text.is_none());
        assert!(c.has.is_none());
        assert!(c.has_not.is_none());
        assert!(c.predicate.is_none());
    } else {
        panic!("expected Filter step");
    }
}

#[test]
fn factories() {
    let tree = sample();
    let app = AXNode(at(&tree, 0));
    assert_eq!(ids(&app.get_by_role("AXButton", "").all()), vec![3, 4, 7]);
    assert_eq!(ids(&app.get_by_role("AXButton", "Send").all()), vec![3, 7]);
    assert_eq!(ids(&app.get_by_role("AXButton", "Dismiss").all()), vec![4]);
    assert_eq!(ids(&app.get_by_text("Mary").all()), vec![1, 5]);
    assert_eq!(ids(&app.get_by_title("Cancel").all()), vec![4]);
    assert_eq!(ids(&app.get_by_description("Dismiss").all()), vec![4]);
    assert_eq!(ids(&app.get_by_dom_id("sidebar").all()), vec![2]);
    assert_eq!(ids(&app.get_by_dom_class("item").all()), vec![5, 8]);
    assert_eq!(ids(&app.query(role("AXTextField")).all()), vec![10]);
}

#[test]
fn chaining() {
    let tree = sample();
    let app = AXNode(at(&tree, 0));
    let items = || app.get_by_dom_class("item");
    assert_eq!(ids(&items().get_by_role("AXButton", "").all()), vec![7]);
    assert_eq!(ids(&items().get_by_title("Send").all()), vec![7]);
    assert_eq!(ids(&items().query(role("AXStaticText")).all()), vec![6, 9]);
    assert_eq!(ids(&app.get_by_title("Main").get_by_text("Bob").all()), vec![8]);
    assert_eq!(ids(&app.get_by_title("Main").get_by_description("Dismiss").all()), vec![4]);
    assert_eq!(ids(&app.get_by_title("Main").get_by_dom_id("sidebar").all()), vec![2]);
    assert_eq!(ids(&app.get_by_title("Main").get_by_dom_class("item").all()), vec![5, 8]);
    assert_eq!(ids(&app.get_by_role("AXButton", "").nth(1).all()), vec![4]);
    assert_eq!(ids(&app.get_by_role("AXButton", "").nth(3).all()), Vec::<usize>::new());
    assert_eq!(ids(&app.get_by_role("AXButton", "").first().all()), vec![3]);
    assert_eq!(ids(&app.get_by_role("AXButton", "").last().all()), vec![7]);
    let field = app
        .get_by_role("AXWindow", "")
        .get_by_role("AXGroup", "")
        .nth(2)
        .get_by_role("AXTextField", "");
    assert_eq!(ids(&field.all()), vec![10]);
}

#[test]
fn filters() {
    let tree = sample();
    let app = AXNode(at(&tree, 0));
    let groups = || app.get_by_role("AXGroup", "");
    let with = |f: fn(&mut FilterCriteria<'_>)| ids(&groups().filter(f).all());
    assert_eq!(
        with(|f| {
            f.has_text("Mary");
        }),
        vec![5]
    );
    assert_eq!(
        with(|f| {
            f.has_not_text("Mary");
        }),
        vec![2, 8]
    );
    assert_eq!(with(|_| {}), vec![2, 5, 8]);
    let buttons = || app.get_by_role("AXButton", "");
    let found = groups().filter(|f: &mut FilterCriteria<'_>| {
        f.has(buttons());
    });
    assert_eq!(ids(&found.all()), vec![2, 5]);
    let found = groups().filter(|f: &mut FilterCriteria<'_>| {
        f.has_not(buttons());
    });
    assert_eq!(ids(&found.all()), vec![8]);
    let found = groups().filter(|f: &mut FilterCriteria<'_>| {
        f.has_text("Hello").has(buttons());
    });
    assert_eq!(ids(&found.all()), vec![5]);
    let p = NodePredicate::of(&tree, |e: Element<'_>| e.id() > 4);
    let found = groups().filter(|f: &mut FilterCriteria<'_>| {
        f.predicate(p);
    });
    assert_eq!(ids(&found.all()), vec![5, 8]);
}

#[test]
fn resolve_is_the_first_of_all() {
    let tree = sample();
    let app = AXNode(at(&tree, 0));
    let locators = [
        app.get_by_role("AXButton", ""),
        app.get_by_role("AXButton", "Send"),
        app.get_by_dom_class("item").get_by_text("Hello"),
        app.get_by_role("AXButton", "").last(),
        app.get_by_role("AXGroup", "").filter(|f: &mut FilterCriteria<'_>| {
            f.has_text("Bob");
        }),
        app.get_by_title("None"),
    ];
    for l in locators {
        let first = l.resolve().map(|n| n.0.id());
        assert_eq!(first, ids(&l.resolve_all()).first().copied());
        assert_eq!(l.count(), l.all().len());
    }
}

#[test]
fn budgets_bound_the_searches() {
    let tree = sample();
    let app = AXNode(at(&tree, 0));
    let l = app.get_by_role("AXButton", "");
    assert_eq!(ids(&l.resolve_with_budget(1)), vec![3]);
    assert_eq!(ids(&l.resolve_with_budget(2)), vec![3, 4]);
    assert_eq!(ids(&l.resolve_with_budget(usize::MAX)), vec![3, 4, 7]);
    let l = app.get_by_role("AXButton", "Send");
    assert_eq!(ids(&l.resolve_with_budget(1)), vec![3]);
    let l = app.get_by_description("Dismiss");
    assert_eq!(ids(&l.resolve_with_budget(1)), vec![4]);
    let max = usize::MAX;
    let l = app.get_by_role("AXGroup", "").nth(4).get_by_text("x").first();
    assert_eq!(budget_for(&l.steps, 1), vec![5, max, 1, 1]);
    let l = app.get_by_role("AXGroup", "").nth(max).last();
    assert_eq!(budget_for(&l.steps, 2), vec![max, max, 2]);
    assert_eq!(budget_for(&[], 2), Vec::<usize>::new());
}

#[test]
fn one_element_or_an_error() {
    let tree = sample();
    let app = AXNode(at(&tree, 0));
    assert_eq!(app.get_by_title("Cancel").resolve_one().unwrap().0.id(), 4);
    match app.get_by_title("None").resolve_one() {
        Err(AxError::LocatorNotFound(m)) => assert_eq!(m, "Locator matched 0 elements"),
        _ => panic!("expected an error"),
    }
    match app.get_by_role("AXButton", "").resolve_one() {
        Err(AxError::LocatorAmbiguous { locator, count, at_least }) => {
            assert_eq!(locator, "Locator(1 steps)");
            assert_eq!(count, 2);
            assert!(at_least);
        }
        _ => panic!("expected an error"),
    }
    let kept = app.get_by_role("AXButton", "").filter(|_: &mut FilterCriteria<'_>| {});
    match kept.resolve_one() {
        Err(AxError::LocatorAmbiguous { locator, count, .. }) => {
            assert_eq!(locator, "Locator(2 steps)");
            assert_eq!(count, 3);
        }
        _ => panic!("expected an error"),
    }
}

#[test]
fn reading_and_acting_on_the_first() {
    let tree = sample();
    let app = AXNode(at(&tree, 0));
    let items = app.get_by_dom_class("item");
    assert_eq!(items.text_content().as_deref(), Some("Hello Mary"));
    assert_eq!(items.all_text_contents(), vec!["Hello Mary".to_string(), "Hello Bob".to_string()]);
    assert_eq!(app.get_by_role("AXButton", "").title().as_deref(), Some("Send"));
    assert_eq!(app.get_by_role("AXStaticText", "").value().as_deref(), Some("Hello Mary"));
    assert_eq!(app.get_by_title("None").title(), None);
    let r = app.get_by_title("Cancel").click().unwrap();
    assert_eq!(r.node.0.id(), 4);
    assert!(matches!(r.change, Change::Perform(a) if a == "AXPress"));
    let r = app.get_by_title("Cancel").focus().unwrap();
    assert!(matches!(r.change, Change::SetFlag(a, true) if a == "AXFocused"));
    let r = app.get_by_title("Cancel").perform("AXShowMenu").unwrap();
    assert!(matches!(r.change, Change::Perform(a) if a == "AXShowMenu"));
    let r = app.get_by_title("Cancel").set_value("x").unwrap();
    assert!(matches!(r.change, Change::SetText(a, t) if a == "AXValue" && t == "x"));
    assert!(app.get_by_title("None").click().is_none());
    assert_eq!(items.debug_text(), "Locator { steps: 1 }");
}

#[test]
fn not_criteria_are_opposite() {
    let tree = sample();
    let app = AXNode(at(&tree, 0));
    for id in 0..tree.len() {
        let node = at(&tree, id);
        let mut yes = FilterCriteria::new();
        yes.has_text("Hello");
        let mut no = FilterCriteria::new();
        no.has_not_text("Hello");
        assert_ne!(
            axcli::locator::matches_filter(node, &yes),
            axcli::locator::matches_filter(node, &no)
        );
        let mut yes = FilterCriteria::new();
        yes.has(app.get_by_role("AXButton", "").nth(1));
        let mut no = FilterCriteria::new();
        no.has_not(app.get_by_role("AXButton", "").nth(1));
        assert_ne!(
            axcli::locator::matches_filter(node, &yes),
            axcli::locator::matches_filter(node, &no)
        );
    }
}

#[test]
fn a_budget_takes_the_first() {
    let tree = sample();
    let window = vec![at(&tree, 1)];
    let found = |step: &LocatorStep<'_>, from: &Vec<Element<'_>>, budget| -> Vec<usize> {
        apply_step(step, from, budget).iter().map(|e| e.id()).collect()
    };
    let buttons = LocatorStep::Role("AXButton".to_string());
    assert_eq!(found(&buttons, &window, usize::MAX), vec![3, 4, 7]);
    for budget in 1..6 {
        assert_eq!(found(&buttons, &window, budget), [3, 4, 7][..budget.min(3)].to_vec());
    }
    let named = LocatorStep::RoleWithName("AXButton".to_string(), "Send".to_string());
    assert_eq!(found(&named, &window, usize::MAX), vec![3, 7]);
    assert_eq!(found(&named, &window, 1), vec![3]);

    let all = apply_step(&buttons, &window, usize::MAX);
    for budget in [1, 2, usize::MAX] {
        assert_eq!(found(&LocatorStep::Nth(2), &all, budget), vec![7]);
        assert_eq!(found(&LocatorStep::Nth(3), &all, budget), Vec::<usize>::new());
        assert_eq!(found(&LocatorStep::First, &all, budget), vec![3]);
        assert_eq!(found(&LocatorStep::Last, &all, budget), vec![7]);
        let mut criteria = FilterCriteria::new();
        criteria.has_not(AXNode(at(&tree, 0)).get_by_title("None"));
        let filter = LocatorStep::Filter(criteria);
        assert_eq!(found(&filter, &all, budget), vec![3, 4, 7]);
    }
    assert_eq!(found(&LocatorStep::Last, &Vec::new(), 1), Vec::<usize>::new());
}
