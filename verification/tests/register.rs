use browser_picker::browsers::parse_exe;
use browser_picker::register::{icon_value, open_command, registration_values, CAPABILITIES_KEY, CLIENT_KEY};

#[test]
fn open_command_quotes_exe_and_url() {
    assert_eq!(open_command("C:\\Tools\\browser-picker.exe"), "\"C:\\Tools\\browser-picker.exe\" \"%1\"");
}

#[test]
fn icon_value_names_first_icon() {
    assert_eq!(icon_value("C:\\bp.exe"), "C:\\bp.exe,0");
}

#[test]
fn registered_command_parses_back_to_exe() {
    for exe in ["C:\\Program Files\\Browser Picker\\browser-picker.exe", "bp.exe", ""] {
        assert_eq!(parse_exe(&open_command(exe)), exe);
    }
}

#[test]
fn registration_writes_thirteen_values() {
    let v = registration_values("C:\\bp.exe");
    assert_eq!(v.len(), 13);
    assert_eq!(v[0].key, CLIENT_KEY);
    assert_eq!(v[0].name, "");
    assert_eq!(v[0].data, "Browser Picker");
    assert_eq!(v[2].data, "\"C:\\bp.exe\" \"%1\"");
    assert_eq!(v[6].name, "http");
    assert_eq!(v[7].name, "https");
    assert_eq!(v[7].data, "BrowserPicker.Url");
    assert_eq!(v[8].data, "BrowserPicker");
    assert_eq!(v[12].key, "Software\\RegisteredApplications");
    assert_eq!(v[12].name, "Browser Picker");
    assert_eq!(v[12].data, CAPABILITIES_KEY);
}
