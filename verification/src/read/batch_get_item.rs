//! Reading many items in one request.

use crate::common::attribute_map::AttributeMap;
use crate::common::key::Keys;
use crate::read::common::{SingleReadArgs, SingleReadInput};
use aws_sdk_dynamodb::types::{AttributeValue, ReturnConsumedCapacity};
use vstd::prelude::*;

verus! {

/// A batch of reads: for each table its arguments and the primary keys of the
/// items to read, in the order given.
#[derive(Debug, PartialEq)]
pub struct BatchGetItem<T> {
    /// The reads, table by table.
    pub items: Vec<(SingleReadArgs, Vec<Keys<T>>)>,
    /// Whether the response tells the capacity consumed.
    pub return_consumed_capacity: Option<ReturnConsumedCapacity>,
}

impl<T> Default for BatchGetItem<T> {
    /// A batch without reads and without options.
    fn default() -> (batch: Self)
        ensures
            batch.items@.len() == 0,
            batch.return_consumed_capacity is None,
    {
        BatchGetItem { items: Vec::new(), return_consumed_capacity: None }
    }
}

/// The reads of one table as a request holds them.
#[derive(Debug)]
pub struct TableReads {
    /// The table, the consistency and the compiled selection.
    pub single_read_operation: SingleReadInput,
    /// The primary keys to read, each component under the name of its
    /// attribute.
    pub keys: Vec<AttributeMap<AttributeValue>>,
}

impl TableReads {
    /// Puts the reads of one table together: the selection compiled, each
    /// key as a table.
    pub fn new(args: SingleReadArgs, keys: Vec<Keys<AttributeValue>>) -> (reads: Self)
        ensures
            reads.single_read_operation.holds(args),
            reads.keys.len() == keys.len(),
            forall|i: int|
                0 <= i < keys.len() ==> (#[trigger] reads.keys[i])@ == keys[i]@.attributes(),
    {
        let single_read_operation = SingleReadInput::new(args);
        let mut serialized_keys: Vec<AttributeMap<AttributeValue>> = Vec::new();
        let ghost all = keys@;
        for key in it: keys.into_iter()
            invariant
                it.seq() == all,
                serialized_keys.len() == it.index(),
                forall|i: int|
                    0 <= i < it.index() ==> (#[trigger] serialized_keys[i])@
                        == all[i]@.attributes(),
        {
            serialized_keys.push(key.into_attributes());
        }
        TableReads { single_read_operation, keys: serialized_keys }
    }
}

} // verus!
