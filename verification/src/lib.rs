//! A downloader that fetches one file in parallel ranged requests: the
//! verified rules for addresses, requests, answers, pieces and the window.
use vstd::prelude::*;

pub mod text;
pub mod structs;
pub mod functions;
pub mod download;
pub mod reqwest;
pub mod list_page_urls;
pub mod ui;

verus! {

/// An entry point for manual experiments; it does nothing.
pub fn test_me() {
}

} // verus!
