use browser_picker::browsers::Browser;
use browser_picker::cli::{
    command_for, home_action, home_info, is_flag_arg, list_text, parse_args, picker_label,
    Command, HomeAction,
};
use browser_picker::text::decimal_string;

fn args(a: &[&str]) -> Vec<String> {
    a.iter().map(|s| s.to_string()).collect()
}

fn browser(name: &str, exe: &str) -> Browser {
    Browser {
        key: name.to_string(),
        name: name.to_string(),
        command: String::new(),
        exe: exe.to_string(),
        icon: String::new(),
    }
}

#[test]
fn flags_are_double_dash_or_h() {
    assert!(is_flag_arg(&"--register".to_string()));
    assert!(is_flag_arg(&"--".to_string()));
    assert!(is_flag_arg(&"-h".to_string()));
    assert!(!is_flag_arg(&"-x".to_string()));
    assert!(!is_flag_arg(&"https://example.com".to_string()));
}

#[test]
fn first_flag_and_first_url_win() {
    let (url, flag) = parse_args(args(&["https://a.example", "--list", "https://b.example", "--register"]));
    assert_eq!(url, Some("https://a.example".to_string()));
    assert_eq!(flag, Some("--list".to_string()));
    let (url, flag) = parse_args(args(&[]));
    assert_eq!(url, None);
    assert_eq!(flag, None);
}

#[test]
fn commands_from_flags() {
    assert!(matches!(command_for(None, Some("--register".to_string())), Command::Register));
    assert!(matches!(command_for(None, Some("--unregister".to_string())), Command::Unregister));
    assert!(matches!(command_for(Some("u".to_string()), Some("--list".to_string())), Command::List));
    assert!(matches!(command_for(None, Some("--help".to_string())), Command::Help));
    assert!(matches!(command_for(None, Some("-h".to_string())), Command::Help));
    match command_for(Some("https://x".to_string()), Some("--bogus".to_string())) {
        Command::Pick(u) => assert_eq!(u, "https://x"),
        _ => panic!("expected the picker"),
    }
    assert!(matches!(command_for(None, None), Command::Home));
}

#[test]
fn decimal_strings() {
    assert_eq!(decimal_string(0), "0");
    assert_eq!(decimal_string(7), "7");
    assert_eq!(decimal_string(10), "10");
    assert_eq!(decimal_string(12345), "12345");
}

#[test]
fn picker_labels() {
    assert_eq!(picker_label(0, &"Firefox".to_string()), "1      Firefox");
    assert_eq!(picker_label(8, &"Edge".to_string()), "9      Edge");
    assert_eq!(picker_label(9, &"Opera".to_string()), "       Opera");
}

#[test]
fn home_info_lines() {
    assert_eq!(home_info(&vec![]), vec!["No browsers detected.".to_string()]);
    let list = vec![browser("Firefox", "ff.exe"), browser("Edge", "e.exe")];
    assert_eq!(
        home_info(&list),
        vec!["Detected 2 browser(s):".to_string(), "    1.  Firefox".to_string(), "    2.  Edge".to_string()]
    );
}

#[test]
fn list_text_of_browsers() {
    assert_eq!(list_text(&vec![]), "No browsers were detected.");
    let list = vec![browser("Firefox", "C:\\ff.exe")];
    assert_eq!(list_text(&list), "Detected 1 browser(s):\n\n1.  Firefox\n     C:\\ff.exe\n");
}

#[test]
fn home_actions() {
    assert_eq!(home_action(Some(0)), HomeAction::RegisterAndOpenDefaults);
    assert_eq!(home_action(Some(1)), HomeAction::Register);
    assert_eq!(home_action(Some(2)), HomeAction::Unregister);
    assert_eq!(home_action(Some(3)), HomeAction::Nothing);
    assert_eq!(home_action(None), HomeAction::Nothing);
}
