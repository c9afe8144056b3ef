use axcli::error::AxError;
use axcli::selector::parse_pseudo_classes;
use axcli::validate::{strip_pseudo_classes, validate_locator, validate_segment};

fn error(seg: &str) -> String {
    validate_segment(seg).unwrap_err()
}

#[test]
fn pseudo_classes_are_stripped() {
    assert_eq!(strip_pseudo_classes("AXButton:visible"), "AXButton");
    assert_eq!(strip_pseudo_classes(".a:has(.b:visible):nth-child(x)"), ".a");
    assert_eq!(strip_pseudo_classes(".a:has-text(\"x\")"), ".a");
    assert_eq!(strip_pseudo_classes(".a:has(b"), ".a:has(b");
    assert_eq!(strip_pseudo_classes(":visible"), "");
    assert_eq!(strip_pseudo_classes("AXGroup:has(AXButton:nth-child(0))"), "AXGroup");
    assert_eq!(strip_pseudo_classes("AXGroup:has(AXButton:has-text(\"a\"))"), "AXGroup");
    assert_eq!(strip_pseudo_classes(".a:has-text(\"x:nth-child(1)\"):has(.b)"), ".a");
    assert_eq!(strip_pseudo_classes("AXGroup:nth-child(x)"), "AXGroup");
}

#[test]
fn chains_of_pseudo_classes_are_stripped() {
    let suffixes = [":visible", ":nth-child(007)", ":has-text(a(\"b)", ":has(it's [x=\"y)\"])"];
    for base in ["", "AXGroup", "a) b(", ".it's"] {
        for a in suffixes {
            for b in suffixes {
                for c in suffixes {
                    let s = format!("{base}{a}{b}{c}");
                    assert_eq!(strip_pseudo_classes(&s), base, "{s}");
                    assert_eq!(parse_pseudo_classes(&s).base, base, "{s}");
                }
            }
        }
    }
}

#[test]
fn good_segments() {
    for seg in [
        "#id", "AXButton", "button_2", "\u{e9}l\u{e9}ment", ".a", "AXGroup.a.b", "AXGroup#id",
        "AXButton[title=\"x\"]", "text=", "text~=x", "first", "last", "nth=zzz", ":visible",
        " .a:has-text(\"x\") ", ".a:not(.b)", "AXGroup:nth(2)",
        "AXGroup:has(AXButton:nth-child(0))",
    ] {
        assert!(validate_segment(seg).is_ok(), "{seg}");
    }
}

#[test]
fn bad_segments() {
    assert_eq!(error(""), "empty segment (double `>>` or trailing `>>`)");
    assert_eq!(error("  "), "empty segment (double `>>` or trailing `>>`)");
    assert_eq!(error("#"), "empty DOM ID after `#`");
    assert_eq!(error("AXGroup#"), "empty DOM ID after `#` in `AXGroup#`");
    assert_eq!(error("AXButton[title"), "unclosed bracket in `AXButton[title`");
    assert_eq!(error("AXButton[title]"), "bracket selector missing `=` in `AXButton[title]`");
    assert_eq!(error("AXGroup."), "empty class name in `AXGroup.`");
    assert_eq!(error("AXGroup.:not(.a)"), "empty class name in `AXGroup.:not(.a)`");
    assert_eq!(error("a b"), "unrecognized locator syntax: `a b`");
    assert_eq!(error("AXGroup:nth(x)"), "unrecognized locator syntax: `AXGroup:nth(x)`");
    assert_eq!(error(":nth(2)"), "unrecognized locator syntax: `:nth(2)`");
    assert_eq!(error("a-b:visible"), "unrecognized locator syntax: `a-b`");
}

#[test]
fn locators() {
    assert!(validate_locator(".sidebar >> AXButton > #id >> nth=0").is_ok());
    match validate_locator(".a >> # >> b c") {
        Err(AxError::LocatorInvalid(m)) => {
            assert_eq!(m, "empty DOM ID after `#`\n  locator: .a >> # >> b c");
        }
        _ => panic!("expected an error"),
    }
    match validate_locator(".a >> ") {
        Err(AxError::LocatorInvalid(m)) => assert!(m.starts_with("empty segment")),
        _ => panic!("expected an error"),
    }
}

#[test]
fn a_valid_locator_has_steps() {
    for l in ["a", ".a >> b", "a > b > c", "#x >> first"] {
        assert!(validate_locator(l).is_ok());
        assert!(!axcli::resolve::parse_locator_steps(l).is_empty());
    }
}
