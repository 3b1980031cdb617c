use browser_picker::browsers::{
    browser_from_values, is_own_key, parse_exe, same_path, select_browsers, sort_by_name, Browser,
};

fn browser(key: &str, name: &str, exe: &str) -> Browser {
    Browser {
        key: key.to_string(),
        name: name.to_string(),
        command: format!("\"{exe}\" \"%1\""),
        exe: exe.to_string(),
        icon: String::new(),
    }
}

fn names(list: &[Browser]) -> Vec<String> {
    list.iter().map(|b| b.name.clone()).collect()
}

#[test]
fn parse_exe_quoted_command() {
    assert_eq!(
        parse_exe("\"C:\\Program Files\\Google\\Chrome\\Application\\chrome.exe\" -- \"%1\""),
        "C:\\Program Files\\Google\\Chrome\\Application\\chrome.exe"
    );
}

#[test]
fn parse_exe_unquoted_command() {
    assert_eq!(parse_exe("C:\\Browsers\\browser.exe %1"), "C:\\Browsers\\browser.exe");
}

#[test]
fn parse_exe_trims_white_space() {
    assert_eq!(parse_exe("  \t\"C:\\a b\\x.exe\"  "), "C:\\a b\\x.exe");
    assert_eq!(parse_exe("\n  C:\\y.exe\t%1 "), "C:\\y.exe");
}

#[test]
fn parse_exe_unterminated_quote_takes_first_word() {
    assert_eq!(parse_exe("\"C:\\a b.exe"), "\"C:\\a");
}

#[test]
fn parse_exe_empty_and_blank() {
    assert_eq!(parse_exe(""), "");
    assert_eq!(parse_exe("   "), "");
    assert_eq!(parse_exe("\"\" x"), "");
}

#[test]
fn same_path_ignores_case() {
    assert!(same_path("C:\\Program Files\\Chrome.EXE", "c:\\program files\\chrome.exe"));
    assert!(!same_path("C:\\a.exe", "C:\\b.exe"));
}

#[test]
fn id_is_lower_cased_exe() {
    let b = browser("Firefox", "Mozilla Firefox", "C:\\Mozilla\\FIREFOX.exe");
    assert_eq!(b.id(), "c:\\mozilla\\firefox.exe");
}

#[test]
fn own_key_is_recognised_ignoring_ascii_case() {
    assert!(is_own_key("BrowserPicker"));
    assert!(is_own_key("browserpicker"));
    assert!(is_own_key("BROWSERPICKER"));
    assert!(!is_own_key("BrowserPicker2"));
    assert!(!is_own_key("Google Chrome"));
}

#[test]
fn name_prefers_application_name() {
    let b = browser_from_values(
        "Google Chrome".to_string(),
        Some("Chrome default".to_string()),
        Some("Google Chrome Beta".to_string()),
        "\"C:\\chrome.exe\" -- \"%1\"".to_string(),
        Some("C:\\chrome.exe,0".to_string()),
    );
    assert_eq!(b.key, "Google Chrome");
    assert_eq!(b.name, "Google Chrome Beta");
    assert_eq!(b.exe, "C:\\chrome.exe");
    assert_eq!(b.command, "\"C:\\chrome.exe\" -- \"%1\"");
    assert_eq!(b.icon, "C:\\chrome.exe,0");
}

#[test]
fn name_falls_back_to_default_value_then_key() {
    let b = browser_from_values("Key".to_string(), Some("Default".to_string()), Some("   ".to_string()), "x.exe".to_string(), None);
    assert_eq!(b.name, "Default");
    assert_eq!(b.icon, "");
    let b = browser_from_values("Key".to_string(), None, None, "x.exe".to_string(), None);
    assert_eq!(b.name, "Key");
    let b = browser_from_values("Key".to_string(), Some(" \t".to_string()), None, "x.exe".to_string(), None);
    assert_eq!(b.name, "Key");
}

#[test]
fn select_drops_duplicates_self_and_missing_exe() {
    let found = vec![
        browser("Chrome", "Google Chrome", "C:\\Chrome\\chrome.exe"),
        browser("Firefox", "Firefox", "C:\\Mozilla\\firefox.exe"),
        browser("Chrome (machine)", "Chrome again", "c:\\chrome\\CHROME.EXE"),
        browser("Broken", "Broken", ""),
        browser("BrowserPicker", "Browser Picker", "C:\\Tools\\browser-picker.exe"),
        browser("Edge", "Microsoft Edge", "C:\\Edge\\msedge.exe"),
        browser("browserpicker", "Old Browser Picker", "D:\\old\\bp.exe"),
    ];
    let out = select_browsers(found, Some("c:\\tools\\BROWSER-PICKER.exe".to_string()));
    assert_eq!(names(&out), vec!["Firefox", "Google Chrome", "Microsoft Edge"]);
}

#[test]
fn select_without_exclusion_keeps_all_distinct() {
    let found = vec![browser("b", "beta", "b.exe"), browser("a", "Alpha", "a.exe")];
    let out = select_browsers(found, None);
    assert_eq!(names(&out), vec!["Alpha", "beta"]);
}

#[test]
fn sort_by_name_ignores_case_and_is_stable() {
    let list = vec![
        browser("1", "opera", "1.exe"),
        browser("2", "Brave", "2.exe"),
        browser("3", "OPERA", "3.exe"),
        browser("4", "brave", "4.exe"),
        browser("5", "Arc", "5.exe"),
    ];
    let out = sort_by_name(list);
    let keys: Vec<String> = out.iter().map(|b| b.key.clone()).collect();
    assert_eq!(keys, vec!["5", "2", "4", "1", "3"]);
}

#[test]
fn sort_by_name_orders_by_code_point() {
    let list = vec![browser("1", "b", "1.exe"), browser("2", "ab", "2.exe"), browser("3", "a", "3.exe"), browser("4", "Z", "4.exe")];
    let out = sort_by_name(list);
    assert_eq!(names(&out), vec!["a", "ab", "b", "Z"]);
}
