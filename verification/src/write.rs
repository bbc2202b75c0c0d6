//! Requests that change items.

pub mod batch_write_item;
pub mod cloning;
pub mod common;
pub mod delete_item;
pub mod encode;
pub mod put_item;
pub mod update_item;
