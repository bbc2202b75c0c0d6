//! Deleting an item by its primary key.

use crate::common::attribute_map::AttributeMap;
use crate::common::key::Keys;
use crate::common::{optional_names, optional_values};
use crate::read::common::{countable, filter, names_of, values_of};
use crate::write::common::{WriteArgs, WriteInput};
use aws_sdk_dynamodb::types::AttributeValue;
use vstd::prelude::*;

verus! {

/// A request that deletes an item.
#[derive(Debug, PartialEq)]
pub struct DeleteItem<T> {
    /// The primary key of the item.
    pub keys: Keys<T>,
    /// The table, the condition and what the response holds.
    pub write_args: WriteArgs<T>,
}

/// A request that deletes an item, as it is sent.
#[derive(Debug)]
pub struct DeleteItemInput {
    /// The primary key, each component under the name of its attribute.
    pub keys: AttributeMap<AttributeValue>,
    /// The table, the compiled condition and what the response holds.
    pub write_operation: WriteInput,
}

impl DeleteItemInput {
    /// Puts the request together: the key as a table, the condition
    /// compiled.
    pub fn new(delete_item: DeleteItem<AttributeValue>) -> (input: Self)
        requires
            countable(delete_item.write_args.condition),
        ensures
            input.keys@ == delete_item.keys@.attributes(),
            input.write_operation.holds(delete_item.write_args),
            optional_names(input.write_operation.expression_attribute_names) == names_of(
                filter(delete_item.write_args.condition),
            ),
            optional_values(input.write_operation.expression_attribute_values) == values_of(
                filter(delete_item.write_args.condition),
            ),
    {
        let keys = delete_item.keys.into_attributes();
        let write_operation = WriteInput::new(delete_item.write_args);
        DeleteItemInput { keys, write_operation }
    }
}

} // verus!
