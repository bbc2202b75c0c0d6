//! Writing many items in one request.

use crate::common::key::Keys;
use aws_sdk_dynamodb::types::{ReturnConsumedCapacity, ReturnItemCollectionMetrics};
use std::collections::HashMap;
use vstd::prelude::*;

verus! {

/// An item to put, within a batch.
#[derive(Clone, Debug, PartialEq)]
pub struct BatchWriteItemRequestPutItem<T> {
    /// The item.
    pub item: T,
}

impl<T: Default> Default for BatchWriteItemRequestPutItem<T> {
    /// The default item of its type.
    fn default() -> (request: Self)
        ensures
            call_ensures(T::default, (), request.item),
    {
        BatchWriteItemRequestPutItem { item: T::default() }
    }
}

/// An item to delete, within a batch.
#[derive(Clone, Debug, PartialEq)]
pub struct BatchWriteItemRequestDeleteItem<T> {
    /// The primary key of the item.
    pub keys: Keys<T>,
}

impl<T: Default> Default for BatchWriteItemRequestDeleteItem<T> {
    /// The default key, without a sort key.
    fn default() -> (request: Self)
        ensures
            request.keys.partition_key.name@ == Seq::<char>::empty(),
            call_ensures(T::default, (), request.keys.partition_key.value),
            request.keys.sort_key is None,
    {
        BatchWriteItemRequestDeleteItem { keys: Keys::default() }
    }
}

/// One write of a batch.
#[derive(Clone, Debug, PartialEq)]
pub enum BatchWriteItemRequest<T> {
    /// Puts an item.
    PutItem(BatchWriteItemRequestPutItem<T>),
    /// Deletes an item.
    DeleteItem(BatchWriteItemRequestDeleteItem<T>),
}

/// A batch of writes.
#[derive(Clone, Debug, PartialEq)]
pub struct BatchWriteItem<T> {
    /// The writes of each table, under the name of the table.
    pub request_items: HashMap<String, Vec<BatchWriteItemRequest<T>>>,
    /// Whether the response tells the capacity consumed.
    pub return_consumed_capacity: Option<ReturnConsumedCapacity>,
    /// Whether the response tells the metrics of item collections.
    pub return_item_collection_metrics: Option<ReturnItemCollectionMetrics>,
}

impl<T> Default for BatchWriteItem<T> {
    /// A batch without writes and without options.
    fn default() -> (batch: Self)
        ensures
            batch.request_items@ == Map::<String, Vec<BatchWriteItemRequest<T>>>::empty(),
            batch.return_consumed_capacity is None,
            batch.return_item_collection_metrics is None,
    {
        BatchWriteItem {
            request_items: HashMap::new(),
            return_consumed_capacity: None,
            return_item_collection_metrics: None,
        }
    }
}

} // verus!
