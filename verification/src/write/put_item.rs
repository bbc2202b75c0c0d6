//! Putting an item into a table.

use crate::common::{optional_names, optional_values};
use crate::read::common::{countable, filter, names_of, values_of};
use crate::write::common::{WriteArgs, WriteInput};
use aws_sdk_dynamodb::types::AttributeValue;
use std::collections::HashMap;
use vstd::prelude::*;

verus! {

/// A request that puts an item.
#[derive(Debug, PartialEq)]
pub struct PutItem<T> {
    /// The item.
    pub item: T,
    /// The table, the condition and what the response holds.
    pub write_args: WriteArgs<T>,
}

/// A request that puts an item, as it is sent.
#[derive(Debug)]
pub struct PutItemInput {
    /// The attributes of the item.
    pub item: HashMap<String, AttributeValue>,
    /// The table, the compiled condition and what the response holds.
    pub write_operation: WriteInput,
}

impl PutItemInput {
    /// Puts the request together from the attributes of the item and the
    /// arguments of the write: the condition compiled.
    pub fn new(
        item: HashMap<String, AttributeValue>,
        write_args: WriteArgs<AttributeValue>,
    ) -> (input: Self)
        requires
            countable(write_args.condition),
        ensures
            input.item == item,
            input.write_operation.holds(write_args),
            optional_names(input.write_operation.expression_attribute_names) == names_of(
                filter(write_args.condition),
            ),
            optional_values(input.write_operation.expression_attribute_values) == values_of(
                filter(write_args.condition),
            ),
    {
        let write_operation = WriteInput::new(write_args);
        PutItemInput { item, write_operation }
    }
}

} // verus!
