//! Browser Picker: the decision logic of a small Windows browser chooser.
//!
//! The library holds what the program computes: parsing registry values into
//! browsers, de-duplicating and ordering them, reading and writing the user's
//! settings, resolving shortcut letters, the layout and hit tests of the
//! windows, and command-line handling. Registry access, process launching and
//! drawing live in the program around it.
use vstd::prelude::*;

pub mod browsers;
pub mod cli;
pub mod config;
pub mod letters;
pub mod register;
pub mod settings;
pub mod sort;
pub mod text;
pub mod ui;

verus! {

/// Display name shown to the user and in Windows "Default apps".
pub const PRODUCT_NAME: &'static str = "Browser Picker";

/// `StartMenuInternet` subkey name and `RegisteredApplications` value name.
pub const PROG_KEY: &'static str = "BrowserPicker";

/// ProgID used for http/https URL associations.
pub const PROG_ID: &'static str = "BrowserPicker.Url";

} // verus!
