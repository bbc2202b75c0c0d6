//! Reading one item by its primary key.

use crate::common::attribute_map::AttributeMap;
use crate::common::key::Keys;
use crate::read::common::{SingleReadArgs, SingleReadInput};
use aws_sdk_dynamodb::types::{AttributeValue, ReturnConsumedCapacity};
use vstd::prelude::*;

verus! {

/// A request for one item.
#[derive(Clone, Debug, PartialEq)]
pub struct GetItem<T> {
    /// The primary key of the item.
    pub keys: Keys<T>,
    /// Whether the response tells the capacity consumed.
    pub return_consumed_capacity: Option<ReturnConsumedCapacity>,
    /// The table, the consistency and the selection.
    pub single_read_args: SingleReadArgs,
}

impl<T: Default> Default for GetItem<T> {
    /// A request for the item with the default key in the table with the
    /// empty name, without a selection or options.
    fn default() -> (get_item: Self)
        ensures
            get_item.keys.partition_key.name@ == Seq::<char>::empty(),
            call_ensures(T::default, (), get_item.keys.partition_key.value),
            get_item.keys.sort_key is None,
            get_item.return_consumed_capacity is None,
            get_item.single_read_args.consistent_read is None,
            get_item.single_read_args.selection is None,
            get_item.single_read_args.table_name@ == Seq::<char>::empty(),
    {
        GetItem {
            keys: Keys::default(),
            return_consumed_capacity: None,
            single_read_args: SingleReadArgs::default(),
        }
    }
}

/// A request for one item as it is sent.
#[derive(Debug)]
pub struct GetItemInput {
    /// The primary key, each component under the name of its attribute.
    pub keys: AttributeMap<AttributeValue>,
    /// Whether the response tells the capacity consumed.
    pub return_consumed_capacity: Option<ReturnConsumedCapacity>,
    /// The table, the consistency and the compiled selection.
    pub single_read_operation: SingleReadInput,
}

impl GetItemInput {
    /// Puts the request together: the key as a table, the selection
    /// compiled.
    pub fn new(get_item: GetItem<AttributeValue>) -> (input: Self)
        ensures
            input.keys@ == get_item.keys@.attributes(),
            input.return_consumed_capacity == get_item.return_consumed_capacity,
            input.single_read_operation.holds(get_item.single_read_args),
    {
        let single_read_operation = SingleReadInput::new(get_item.single_read_args);
        let keys = get_item.keys.into_attributes();
        GetItemInput {
            keys,
            return_consumed_capacity: get_item.return_consumed_capacity,
            single_read_operation,
        }
    }
}

} // verus!
