//! Finds the git repositories nested under a root directory and prepares
//! their status and diff for display.
//!
//! The crate holds the rules of that work as verified functions on plain
//! values. Reading directories, running `git` and drawing the terminal are
//! left to the program that links it.

pub mod cache;
pub mod diff;
pub mod git_data;
pub mod path;
pub mod status;
pub mod text;
pub mod walker;
