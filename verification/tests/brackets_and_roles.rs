use axcli::selector::{parse_attr_bracket, role_matches, AttrOp};
use axcli::text::{split_once_text, starts_with_text};

#[test]
fn parse_exact_match() {
    let ab = parse_attr_bracket(r#"title="Send""#).unwrap();
    assert_eq!(ab.attr, "title");
    assert_eq!(ab.op, AttrOp::Exact);
    assert_eq!(ab.val, "Send");
}

#[test]
fn parse_contains() {
    let ab = parse_attr_bracket(r#"name*="Tab Title""#).unwrap();
    assert_eq!(ab.attr, "name");
    assert_eq!(ab.op, AttrOp::Contains);
    assert_eq!(ab.val, "Tab Title");
}

#[test]
fn parse_starts_with() {
    let ab = parse_attr_bracket(r#"title^="Chat""#).unwrap();
    assert_eq!(ab.attr, "title");
    assert_eq!(ab.op, AttrOp::StartsWith);
    assert_eq!(ab.val, "Chat");
}

#[test]
fn parse_ends_with() {
    let ab = parse_attr_bracket(r#"desc$="ago""#).unwrap();
    assert_eq!(ab.attr, "desc");
    assert_eq!(ab.op, AttrOp::EndsWith);
    assert_eq!(ab.val, "ago");
}

#[test]
fn parse_no_equals_returns_none() {
    assert!(parse_attr_bracket("title").is_none());
}

#[test]
fn parse_unquoted_value() {
    let ab = parse_attr_bracket("title=Send").unwrap();
    assert_eq!(ab.val, "Send");
    assert_eq!(ab.op, AttrOp::Exact);
}

#[test]
fn attr_op_exact() {
    assert!(AttrOp::Exact.matches("hello", "hello"));
    assert!(!AttrOp::Exact.matches("hello world", "hello"));
}

#[test]
fn attr_op_contains() {
    assert!(AttrOp::Contains.matches("hello world", "lo wo"));
    assert!(!AttrOp::Contains.matches("hello", "xyz"));
}

#[test]
fn attr_op_starts_with() {
    assert!(AttrOp::StartsWith.matches("hello world", "hello"));
    assert!(!AttrOp::StartsWith.matches("hello world", "world"));
}

#[test]
fn attr_op_ends_with() {
    assert!(AttrOp::EndsWith.matches("hello world", "world"));
    assert!(!AttrOp::EndsWith.matches("hello world", "hello"));
}

#[test]
fn parse_unclosed_bracket_returns_none() {
    // Missing closing quote — still parseable as attr content
    let ab = parse_attr_bracket(r#"title="Send"#);
    assert!(ab.is_some()); // just strips quotes
    // But truly missing `=` is None
    assert!(parse_attr_bracket("title").is_none());
}

#[test]
fn parse_empty_attr_returns_none() {
    // `="val"` has no attribute name
    assert!(parse_attr_bracket(r#"="val""#).is_none());
}

#[test]
fn parse_value_containing_operator_chars() {
    // Value `a*=b` should be parsed as exact match with val `a*=b`,
    // NOT as contains-operator with attr `title` and val `b`.
    let ab = parse_attr_bracket(r#"title="a*=b""#).unwrap();
    assert_eq!(ab.attr, "title");
    assert_eq!(ab.op, AttrOp::Exact);
    assert_eq!(ab.val, "a*=b");
}

#[test]
fn parse_value_containing_caret_equals() {
    let ab = parse_attr_bracket(r#"name="x^=y""#).unwrap();
    assert_eq!(ab.attr, "name");
    assert_eq!(ab.op, AttrOp::Exact);
    assert_eq!(ab.val, "x^=y");
}

#[test]
fn parse_value_containing_dollar_equals() {
    let ab = parse_attr_bracket(r#"desc="a$=b""#).unwrap();
    assert_eq!(ab.attr, "desc");
    assert_eq!(ab.op, AttrOp::Exact);
    assert_eq!(ab.val, "a$=b");
}

#[test]
fn parse_empty_value() {
    let ab = parse_attr_bracket(r#"title="""#).unwrap();
    assert_eq!(ab.attr, "title");
    assert_eq!(ab.op, AttrOp::Exact);
    assert_eq!(ab.val, "");
}

#[test]
fn parse_whitespace_around_attr() {
    let ab = parse_attr_bracket(r#" title ="Send""#).unwrap();
    assert_eq!(ab.attr, "title");
    assert_eq!(ab.op, AttrOp::Exact);
    assert_eq!(ab.val, "Send");
}

#[test]
fn parse_contains_with_operator_in_value() {
    // `name*="a*=b"` — real contains operator, value happens to have `*=`
    let ab = parse_attr_bracket(r#"name*="a*=b""#).unwrap();
    assert_eq!(ab.attr, "name");
    assert_eq!(ab.op, AttrOp::Contains);
    assert_eq!(ab.val, "a*=b");
}

#[test]
fn no_panic_on_various_malformed_inputs() {
    // None of these should panic
    let cases = ["", "=", "*=", "^=", "$=", "[", "]", "[]", r#""""#, "a*"];
    for case in cases {
        let _ = parse_attr_bracket(case);
    }
}

#[test]
fn role_matches_exact() {
    assert!(role_matches("AXButton", "AXButton"));
    assert!(!role_matches("AXButton", "AXGroup"));
}

#[test]
fn role_matches_short_name() {
    assert!(role_matches("AXButton", "button"));
    assert!(role_matches("AXButton", "Button"));
    assert!(role_matches("AXStaticText", "statictext"));
}

#[test]
fn role_matches_text_alias() {
    assert!(role_matches("AXStaticText", "text"));
    assert!(role_matches("AXTextArea", "text"));
    assert!(role_matches("AXTextField", "text"));
    assert!(!role_matches("AXButton", "text"));
}

#[test]
fn selector_role_hash_id_split() {
    let selector = "AXGroup#root";
    let (role_part, id) = split_once_text(selector, "#").unwrap();
    assert_eq!(role_part, "AXGroup");
    assert_eq!(id, "root");
}

#[test]
fn selector_role_hash_id_short_role() {
    let selector = "group#sidebar";
    let (role_part, id) = split_once_text(selector, "#").unwrap();
    assert_eq!(role_part, "group");
    assert_eq!(id, "sidebar");
    assert!(role_matches("AXGroup", role_part));
}

#[test]
fn selector_hash_id_only_handled_early() {
    // Pure #id starts with '#', handled by the starts_with('#') branch,
    // not the contains('#') branch.
    let selector = "#root";
    assert!(starts_with_text(selector, "#"));
    // Splitting it would give ("", "root").
    let (role_part, id) = split_once_text(selector, "#").unwrap();
    assert_eq!(role_part, "");
    assert_eq!(id, "root");
}
