//! Splitting the staged changes of a git repository into commits.
use vstd::prelude::*;

pub mod app;
pub mod assign_laws;
pub mod backend;
pub mod command_laws;
pub mod committing;
pub mod content_laws;
pub mod count_laws;
pub mod diff;
pub mod diff_laws;
pub mod headless;
pub mod key_laws;
pub mod model;
pub mod parse_laws;
pub mod plan_laws;
pub mod reading;
pub mod reading_laws;
pub mod report;
pub mod report_laws;
pub mod request_laws;
pub mod screen_laws;
pub mod session_laws;
pub mod steps;
pub mod text;
pub mod text_laws;
pub mod ui;

verus! {

} // verus!
