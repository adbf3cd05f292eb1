//! Core of a desktop quick-launcher: a ranked, capped search over a catalog of
//! launchable items, a selection launcher, the window-visibility state machine,
//! a last-query-wins coordinator for concurrent searches, and a resource
//! resolver for the embedded UI's static assets.
//!
//! Queries, item names and asset paths are handled as UTF-8 byte strings;
//! matching is case-insensitive over ASCII letters.

pub mod launcher;
pub mod resolver;
pub mod search;
pub mod session;
pub mod text;
pub mod visibility;
