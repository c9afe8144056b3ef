//! Queries, selectors and locators on the accessibility elements of macOS.
//!
//! The elements come as a snapshot, an [`tree::AXTree`]: their attributes, and
//! which of them are children of which. On it work
//!
//! - [`query`], [`dom_selector`] and [`selector`]: which elements match, and
//!   [`matching`]: what each form of a selector asks for,
//! - [`resolve`] and [`generate`]: what a locator string leads to, and a locator
//!   string for an element,
//! - [`node`] and [`locator`]: handles on elements, and chains of steps that are
//!   searched on demand,
//! - [`validate`], [`commands`], [`steps`], [`content`], [`screenshot`], [`apps`],
//!   [`windows`], [`web`] and [`watch`]: what the command line tool decides and
//!   writes.
//!
//! What changes elements is returned as a request, for the caller to carry out.

pub mod apps;
pub mod commands;
pub mod content;
pub mod dom_selector;
pub mod error;
pub mod generate;
pub mod locator;
pub mod matching;
pub mod node;
pub mod number;
pub mod pattern;
pub mod query;
pub mod resolve;
pub mod screenshot;
pub mod selector;
pub mod steps;
pub mod text;
pub mod tree;
pub mod unicode;
pub mod validate;
pub mod watch;
pub mod web;
pub mod windows;
