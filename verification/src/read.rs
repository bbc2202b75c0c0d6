//! Requests that read items.

pub mod batch_get_item;
pub mod common;
pub mod get_item;
pub mod query;
pub mod scan;
