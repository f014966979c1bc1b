//! The rules behind the window: how fast a download goes, where the file is
//! saved, what the button does, and what the user is told.
use vstd::prelude::*;

use crate::functions::saved_path;
use crate::text::{after_last, after_last_exec, str_eq, trim, trim_str};

verus! {

/// How many parts run in parallel for a speed setting (surrounding
/// whitespace ignored): Normal 1, Fast0 5, Fast1 10, Fast2 15, Super 30, and
/// 60 for anything else (Ultra).
pub open spec fn parallels_for(choice: Seq<char>) -> usize {
    let t = trim(choice);
    if t == "Normal"@ {
        1
    } else if t == "Fast0"@ {
        5
    } else if t == "Fast1"@ {
        10
    } else if t == "Fast2"@ {
        15
    } else if t == "Super"@ {
        30
    } else {
        60
    }
}

/// How many parts run in parallel for the chosen speed.
pub fn speed_parallels(choice: &str) -> (r: usize)
    ensures
        r == parallels_for(choice@),
        r >= 1,
{
    let t = trim_str(choice);
    if str_eq(t, "Normal") {
        1
    } else if str_eq(t, "Fast0") {
        5
    } else if str_eq(t, "Fast1") {
        10
    } else if str_eq(t, "Fast2") {
        15
    } else if str_eq(t, "Super") {
        30
    } else {
        60
    }
}

/// The name of the downloaded file: what follows the last `/` of its address.
pub fn file_name_of<'a>(url: &'a str) -> (r: &'a str)
    ensures
        r@ == after_last(url@, '/'),
{
    after_last_exec(url, '/')
}

/// Where the download of `url` is saved inside the chosen `folder`.
pub fn destination(folder: &str, url: &str) -> (r: String)
    ensures
        r@ == folder@ + "/"@ + after_last(url@, '/'),
{
    let name = file_name_of(url);
    saved_path(folder, name)
}

/// What a press of the button does, and how the button reads afterwards.
#[derive(Debug, Clone, Copy, PartialEq, Eq)]
pub struct ButtonStep {
    /// Whether the press starts a download (otherwise it stops one).
    pub starts: bool,
    /// The button's new label.
    pub label: &'static str,
    /// The button's new tooltip.
    pub tooltip: &'static str,
}

/// A press on the button labelled `label`: on `Download` it starts and turns
/// into `STOP`; on anything else it stops and turns back into `Download`.
pub fn button_press(label: &str) -> (r: ButtonStep)
    ensures
        r.starts == (label@ == "Download"@),
        r.starts ==> r.label@ == "STOP"@ && r.tooltip@ == "Stop download!!!"@,
        !r.starts ==> r.label@ == "Download"@ && r.tooltip@ == "Select destine and begin to download!!!"@,
{
    if str_eq(label, "Download") {
        ButtonStep { starts: true, label: "STOP", tooltip: "Stop download!!!" }
    } else {
        ButtonStep {
            starts: false,
            label: "Download",
            tooltip: "Select destine and begin to download!!!",
        }
    }
}

/// The folder the user picked: `None` when the dialog gave back nothing.
pub fn folder_choice(shown: String) -> (r: Option<String>)
    ensures
        shown@.len() > 0 ==> r == Some(shown),
        shown@.len() == 0 ==> r is None,
{
    if shown.as_str().is_empty() {
        None
    } else {
        Some(shown)
    }
}

/// The message shown when a download has been saved as `name`.
pub fn finished_message(name: &str) -> (r: String)
    ensures
        r@ == "Download Finished\n"@ + name@,
{
    let mut r = String::from_str("Download Finished\n");
    r.append(name);
    r
}

/// The message shown when a download failed with `err`.
pub fn error_message(err: &str) -> (r: String)
    ensures
        r@ == "Error Download\n"@ + err@,
{
    let mut r = String::from_str("Error Download\n");
    r.append(err);
    r
}

} // verus!
