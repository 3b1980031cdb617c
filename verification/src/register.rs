//! What registering Browser Picker as a selectable Windows browser writes
//! under `HKCU`, and the commands it registers.
use vstd::prelude::*;

use crate::browsers::{exe_of_command, lemma_until_quote_found, until_quote};
use crate::{PRODUCT_NAME, PROG_ID, PROG_KEY};
use crate::text::{is_white, push_char, trim, trim_end, trim_start};

verus! {

/// `Clients\StartMenuInternet` entry of the picker.
pub const CLIENT_KEY: &'static str = "Software\\Clients\\StartMenuInternet\\BrowserPicker";

/// Its `DefaultIcon` subkey.
pub const CLIENT_ICON_KEY: &'static str = "Software\\Clients\\StartMenuInternet\\BrowserPicker\\DefaultIcon";

/// Its `shell\open\command` subkey.
pub const CLIENT_COMMAND_KEY: &'static str = "Software\\Clients\\StartMenuInternet\\BrowserPicker\\shell\\open\\command";

/// Its `Capabilities` subkey, which surfaces it in "Default apps".
pub const CAPABILITIES_KEY: &'static str = "Software\\Clients\\StartMenuInternet\\BrowserPicker\\Capabilities";

/// The URL associations of the capabilities.
pub const URL_ASSOCIATIONS_KEY: &'static str = "Software\\Clients\\StartMenuInternet\\BrowserPicker\\Capabilities\\URLAssociations";

/// The Start Menu entry of the capabilities.
pub const START_MENU_KEY: &'static str = "Software\\Clients\\StartMenuInternet\\BrowserPicker\\Capabilities\\StartMenu";

/// The ProgID that the URL associations point at.
pub const PROG_ID_KEY: &'static str = "Software\\Classes\\BrowserPicker.Url";

/// The ProgID's `DefaultIcon` subkey.
pub const PROG_ID_ICON_KEY: &'static str = "Software\\Classes\\BrowserPicker.Url\\DefaultIcon";

/// The ProgID's `shell\open\command` subkey.
pub const PROG_ID_COMMAND_KEY: &'static str = "Software\\Classes\\BrowserPicker.Url\\shell\\open\\command";

/// Where registered applications point at their capabilities.
pub const REGISTERED_APPLICATIONS_KEY: &'static str = "Software\\RegisteredApplications";

/// The command registered for opening a URL: the executable in quotes,
/// then `"%1"`.
pub open spec fn open_command_text(exe: Seq<char>) -> Seq<char> {
    seq!['"'] + exe + seq!['"', ' ', '"', '%', '1', '"']
}

/// The command registered for opening a URL with `exe`.
pub fn open_command(exe: &str) -> (r: String)
    ensures
        r@ == open_command_text(exe@),
{
    let mut r = String::new();
    push_char(&mut r, '"');
    r.append(exe);
    push_char(&mut r, '"');
    push_char(&mut r, ' ');
    push_char(&mut r, '"');
    push_char(&mut r, '%');
    push_char(&mut r, '1');
    push_char(&mut r, '"');
    proof {
        assert(r@ =~= open_command_text(exe@));
    }
    r
}

/// The icon value registered for `exe`: its first icon.
pub open spec fn icon_text(exe: Seq<char>) -> Seq<char> {
    exe + seq![',', '0']
}

/// The icon value registered for `exe`.
pub fn icon_value(exe: &str) -> (r: String)
    ensures
        r@ == icon_text(exe@),
{
    let mut r = String::new();
    r.append(exe);
    push_char(&mut r, ',');
    push_char(&mut r, '0');
    proof {
        assert(r@ =~= icon_text(exe@));
    }
    r
}

/// Reading the executable out of the command that registration writes
/// gives back the executable, when its path holds no double quote.
pub proof fn lemma_registered_command_names_exe(exe: Seq<char>)
    requires
        forall|k: int| 0 <= k < exe.len() ==> #[trigger] exe[k] != '"',
    ensures
        exe_of_command(open_command_text(exe)) == exe,
{
    let c = open_command_text(exe);
    assert(c[0] == '"');
    assert(!is_white(c[0]));
    assert(trim_start(c) == c);
    assert(c.last() == '"');
    assert(!is_white(c.last()));
    assert(trim_end(c) == c);
    assert(trim(c) == c);
    let r = c.drop_first();
    assert forall|m: int| 0 <= m < exe.len() implies #[trigger] r[m] != '"' by {
        assert(r[m] == exe[m]);
    }
    assert(r[exe.len() as int] == '"');
    lemma_until_quote_found(r, exe.len() as int);
    assert(r.take(exe.len() as int) =~= exe);
}

/// One registry value to write: the subkey under `HKCU`, the value's name
/// (empty for the default value) and its data.
#[derive(Clone, Debug)]
pub struct RegistryValue {
    pub key: String,
    pub name: String,
    pub data: String,
}

/// Whether `v` writes `data` to value `name` of subkey `key`.
pub open spec fn writes(v: RegistryValue, key: Seq<char>, name: Seq<char>, data: Seq<char>) -> bool {
    v.key@ == key && v.name@ == name && v.data@ == data
}

fn value(key: &str, name: &str, data: String) -> (v: RegistryValue)
    ensures
        writes(v, key@, name@, data@),
{
    RegistryValue { key: key.to_owned(), name: name.to_owned(), data }
}

/// The values that registration writes, in order: the client entry, its
/// icon and command; its capabilities (name, description, icon, the http and
/// https associations and the Start Menu entry); the ProgID with its icon
/// and command; and the pointer from `RegisteredApplications`.
pub fn registration_values(exe: &str) -> (r: Vec<RegistryValue>)
    ensures
        r@.len() == 13,
        writes(r@[0], CLIENT_KEY@, ""@, PRODUCT_NAME@),
        writes(r@[1], CLIENT_ICON_KEY@, ""@, icon_text(exe@)),
        writes(r@[2], CLIENT_COMMAND_KEY@, ""@, open_command_text(exe@)),
        writes(r@[3], CAPABILITIES_KEY@, "ApplicationName"@, PRODUCT_NAME@),
        writes(r@[4], CAPABILITIES_KEY@, "ApplicationDescription"@, "Choose which browser opens each link."@),
        writes(r@[5], CAPABILITIES_KEY@, "ApplicationIcon"@, icon_text(exe@)),
        writes(r@[6], URL_ASSOCIATIONS_KEY@, "http"@, PROG_ID@),
        writes(r@[7], URL_ASSOCIATIONS_KEY@, "https"@, PROG_ID@),
        writes(r@[8], START_MENU_KEY@, "StartMenuInternet"@, PROG_KEY@),
        writes(r@[9], PROG_ID_KEY@, ""@, PRODUCT_NAME@),
        writes(r@[10], PROG_ID_ICON_KEY@, ""@, icon_text(exe@)),
        writes(r@[11], PROG_ID_COMMAND_KEY@, ""@, open_command_text(exe@)),
        writes(r@[12], REGISTERED_APPLICATIONS_KEY@, PRODUCT_NAME@, CAPABILITIES_KEY@),
{
    let mut r: Vec<RegistryValue> = Vec::new();
    r.push(value(CLIENT_KEY, "", PRODUCT_NAME.to_owned()));
    r.push(value(CLIENT_ICON_KEY, "", icon_value(exe)));
    r.push(value(CLIENT_COMMAND_KEY, "", open_command(exe)));
    r.push(value(CAPABILITIES_KEY, "ApplicationName", PRODUCT_NAME.to_owned()));
    r.push(value(CAPABILITIES_KEY, "ApplicationDescription", "Choose which browser opens each link.".to_owned()));
    r.push(value(CAPABILITIES_KEY, "ApplicationIcon", icon_value(exe)));
    r.push(value(URL_ASSOCIATIONS_KEY, "http", PROG_ID.to_owned()));
    r.push(value(URL_ASSOCIATIONS_KEY, "https", PROG_ID.to_owned()));
    r.push(value(START_MENU_KEY, "StartMenuInternet", PROG_KEY.to_owned()));
    r.push(value(PROG_ID_KEY, "", PRODUCT_NAME.to_owned()));
    r.push(value(PROG_ID_ICON_KEY, "", icon_value(exe)));
    r.push(value(PROG_ID_COMMAND_KEY, "", open_command(exe)));
    r.push(value(REGISTERED_APPLICATIONS_KEY, PRODUCT_NAME, CAPABILITIES_KEY.to_owned()));
    r
}

} // verus!
