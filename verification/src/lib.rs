//! Core of a personal time-tracking application: a hierarchical set of
//! projects, immutable work sessions attributed to them, recursive roll-up of
//! recorded duration from descendants to ancestors, an in-memory tree cache
//! kept consistent with the store, and a countdown-session recorder.

pub mod db;
pub mod hierarchy;
pub mod pomo;
pub mod projects;
pub mod stats;
pub mod todo_tasks;
pub mod util;
