//! Inventory stock alerting core.
//!
//! The library implements the poll-evaluate-diff-notify loop of a stock
//! watcher: a small rule language classifies a fetched page body as in or out
//! of stock, a poll cycle applies the rules to every tracked item and detects
//! state changes, a line-based codec persists the item list, and a message
//! renderer formats the digest that is sent through a messaging sink.
//! Fetching, file handling and the messaging client live outside the library.

pub mod model;
pub mod notify;
pub mod poll;
pub mod rules;
pub mod store;
pub mod text;

use vstd::prelude::*;

verus! {

} // verus!
