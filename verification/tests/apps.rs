use axcli::apps::{
    ambiguity_hint, app_line, app_tier, choose_app, find_app_by_name, list_apps, matching_apps,
    resolve_app, AppChoice, AppInfo,
};
use axcli::error::AxError;

fn app(pid: i32, name: &str, bundle: &str) -> AppInfo {
    AppInfo { pid, name: name.to_string(), bundle: bundle.to_string() }
}

fn running() -> Vec<AppInfo> {
    vec![
        app(1, "Safari Helper", "com.apple.helper"),
        app(2, "Safari", "com.apple.Safari"),
        app(3, "Lark", "com.lark.main"),
        app(4, "notes", "com.apple.Notes"),
        app(5, "", "com.apple.nameless"),
        app(-6, "Agent", ""),
        app(7, "lark", "org.other"),
    ]
}

#[test]
fn tiers() {
    assert_eq!(app_tier("safari", "com.apple.safari", "safari"), Some(0));
    assert_eq!(app_tier("x", "com.apple.safari", "com.apple.safari"), Some(1));
    assert_eq!(app_tier("safari helper", "x", "safari"), Some(2));
    assert_eq!(app_tier("x", "com.apple.safari", "safari"), Some(3));
    assert_eq!(app_tier("x", "y", "safari"), None);
}

#[test]
fn the_best_tier_wins() {
    let apps = running();
    assert_eq!(find_app_by_name(&apps, "SAFARI"), Some((2, "Safari".to_string())));
    assert_eq!(find_app_by_name(&apps, "com.apple.notes"), Some((4, "notes".to_string())));
    assert_eq!(find_app_by_name(&apps, "help"), Some((1, "Safari Helper".to_string())));
    assert_eq!(find_app_by_name(&apps, "nameless"), Some((5, "".to_string())));
    assert_eq!(find_app_by_name(&apps, "zzz"), None);
    assert_eq!(matching_apps(&apps, "apple").0, 3);
    assert_eq!(matching_apps(&apps, "zzz").0, 4);
}

#[test]
fn hints_for_several() {
    let apps = running();
    assert_eq!(ambiguity_hint(&apps, "Safari"), None);
    assert_eq!(
        ambiguity_hint(&apps, "safar").unwrap(),
        "note: 2 apps matched 'safar' (tier=substring/name), using first \u{2014} be more specific \
         to pick:\n  pid=1       Safari Helper  [com.apple.helper]\n  pid=2       Safari  \
         [com.apple.Safari]"
    );
    assert_eq!(
        ambiguity_hint(&apps, "LARK").unwrap(),
        "note: 2 apps matched 'LARK' (tier=exact/name), using first \u{2014} be more specific to \
         pick:\n  pid=3       Lark  [com.lark.main]\n  pid=7       lark  [org.other]"
    );
    assert!(ambiguity_hint(&apps, "com.apple").unwrap().contains("(tier=substring/bundle)"));
}

#[test]
fn choices() {
    let name = Some("Lark".to_string());
    assert!(matches!(choose_app(Some(5), &name), Ok(AppChoice::Pid(5))));
    assert!(matches!(choose_app(None, &name), Ok(AppChoice::Name(n)) if n == "Lark"));
    match choose_app(None, &None) {
        Err(AxError::InvalidArgument(m)) => assert_eq!(m, "--app or --pid is required"),
        _ => panic!("expected an error"),
    }
    assert_eq!(resolve_app(&running(), "Lark").unwrap(), (3, "Lark".to_string()));
    match resolve_app(&running(), "zzz") {
        Err(AxError::AppNotFound(m)) => assert_eq!(m, "zzz"),
        _ => panic!("expected an error"),
    }
}

#[test]
fn the_list_is_in_order() {
    let listed: Vec<i32> = list_apps(&running()).iter().map(|a| a.pid).collect();
    assert_eq!(listed, vec![3, 7, 4, 2, 1]);
    let accented = vec![app(1, "\u{c9}b", "x"), app(2, "\u{e9}a", "x")];
    let folded: Vec<i32> = list_apps(&accented).iter().map(|a| a.pid).collect();
    assert_eq!(folded, vec![2, 1]);
}

#[test]
fn lines_of_the_list() {
    assert_eq!(
        app_line(&app(42, "Lark", "com.lark")),
        "    42  Lark                           com.lark"
    );
    assert_eq!(
        app_line(&app(-1234567, "a name of more than thirty characters", "b")),
        "-1234567  a name of more than thirty characters b"
    );
}
