//! Core of a command-line client for short command-usage pages.
//!
//! Two subsystems live here, both free of I/O: the page pipeline, which turns
//! the text of a page into tokens and tokens into output lines, and the cache
//! rules, which decide where a page is found, when the cache is stale and how
//! an update may replace it. A front end reads files, talks to the network and
//! prints; it hands this crate plain values and acts on what it gets back.

use vstd::prelude::*;

pub mod cache;
pub mod error;
pub mod formatter;
pub mod notice;
pub mod page;
pub mod pager;
pub mod platform;
pub mod request;
pub mod span;
pub mod style;
pub mod text;
pub mod tokenizer;
pub mod update;

pub use crate::platform::get_os;

verus! {

/// Prepares diagnostics. The core writes none, so there is nothing to
/// prepare; a front end calls this first, and stays as it is should that
/// change.
pub fn init_log() {
}

} // verus!
