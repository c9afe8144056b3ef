use axcli::error::AxError;
use axcli::watch::{json_line, refs_stale, text_line, watch_start, watched_notifications};

#[test]
fn stale_references() {
    for n in ["AXUIElementDestroyed", "AXCreated", "AXLayoutChanged", "AXRowCountChanged"] {
        assert!(refs_stale(n));
    }
    assert!(!refs_stale("AXValueChanged"));
}

#[test]
fn starting() {
    assert_eq!(watched_notifications().len(), 13);
    assert_eq!(watched_notifications()[5], "AXFocusedUIElementChanged");
    match watch_start(0, false) {
        Err(AxError::ActionFailed(m)) => assert_eq!(m, "failed to register any notifications"),
        _ => panic!("expected an error"),
    }
    assert!(watch_start(3, true).unwrap().is_none());
    assert_eq!(
        watch_start(12, false).unwrap().unwrap(),
        "Watching 12/13 notifications (Ctrl+C to stop)..."
    );
}

#[test]
fn json_lines() {
    assert_eq!(
        json_line("AXCreated", "AXRow", "say \"hi\" \\", "d"),
        r#"{"notification":"AXCreated","role":"AXRow","label":"say \"hi\" \\","refs_stale":true}"#
    );
    assert_eq!(
        json_line("AXCreated", "AXRow", "a\n\u{1f}b\t\u{7f}", ""),
        "{\"notification\":\"AXCreated\",\"role\":\"AXRow\",\
         \"label\":\"a\\u000a\\u001fb\\u0009\u{7f}\",\"refs_stale\":true}"
    );
    assert_eq!(
        json_line("AXMenuOpened", "AXMenu", "", "d"),
        r#"{"notification":"AXMenuOpened","role":"AXMenu","label":"d","refs_stale":false}"#
    );
}

#[test]
fn text_lines() {
    assert_eq!(
        text_line("AXMenuOpened", "AXMenu", "t", "d"),
        "AXMenuOpened \u{2192} AXMenu \"t\""
    );
    assert_eq!(
        text_line("AXCreated", "AXMenu", "", ""),
        "AXCreated \u{2192} AXMenu \"\" \u{26a0}\u{fe0f}  refs stale"
    );
    let long = "x".repeat(61);
    assert_eq!(
        text_line("n", "r", &long, ""),
        format!("n \u{2192} r \"{}...\"", "x".repeat(57))
    );
    let fits = "x".repeat(60);
    assert_eq!(text_line("n", "r", &fits, ""), format!("n \u{2192} r \"{fits}\""));
    let wide = "\u{e9}".repeat(28) + "abcdef";
    assert_eq!(
        text_line("n", "r", &wide, ""),
        format!("n \u{2192} r \"{}a...\"", "\u{e9}".repeat(28))
    );
}
