//! Reading all items of a table.

use crate::common::{optional_names, optional_values};
use crate::read::common::{
    countable, filter, projection, read_names, values_of, MultipleReadArgs, MultipleReadInput,
};
use aws_sdk_dynamodb::types::{AttributeValue, ReturnConsumedCapacity};
use vstd::prelude::*;

verus! {

/// A scan of a table.
#[derive(Clone, Debug, PartialEq)]
pub struct Scan<T> {
    /// The table, the filter, the selection and the paging of the read.
    pub multiple_read_args: MultipleReadArgs<T>,
    /// Whether the response tells the capacity consumed.
    pub return_consumed_capacity: Option<ReturnConsumedCapacity>,
    /// The segment that this scan reads, of a parallel scan.
    pub segment: Option<i32>,
    /// The number of segments of a parallel scan.
    pub total_segments: Option<i32>,
}

impl<T> Default for Scan<T> {
    /// A scan of the table with the empty name, without a filter, a
    /// selection or options.
    fn default() -> (scan: Self)
        ensures
            scan.multiple_read_args.condition is None,
            scan.multiple_read_args.consistent_read is None,
            scan.multiple_read_args.exclusive_start_key is None,
            scan.multiple_read_args.index_name is None,
            scan.multiple_read_args.limit is None,
            scan.multiple_read_args.select is None,
            scan.multiple_read_args.selection is None,
            scan.multiple_read_args.table_name@ == Seq::<char>::empty(),
            scan.return_consumed_capacity is None,
            scan.segment is None,
            scan.total_segments is None,
    {
        Scan {
            multiple_read_args: MultipleReadArgs::default(),
            return_consumed_capacity: None,
            segment: None,
            total_segments: None,
        }
    }
}

/// A scan as it is sent.
#[derive(Debug)]
pub struct ScanInput {
    /// The table, the compiled filter and selection, and the paging.
    pub multiple_read_operation: MultipleReadInput,
    /// Whether the response tells the capacity consumed.
    pub return_consumed_capacity: Option<ReturnConsumedCapacity>,
    /// The segment that this scan reads, of a parallel scan.
    pub segment: Option<i32>,
    /// The number of segments of a parallel scan.
    pub total_segments: Option<i32>,
}

impl ScanInput {
    /// Puts the request together: the filter and the selection compiled.
    pub fn new(scan: Scan<AttributeValue>) -> (input: Self)
        requires
            countable(scan.multiple_read_args.condition),
        ensures
            input.return_consumed_capacity == scan.return_consumed_capacity,
            input.segment == scan.segment,
            input.total_segments == scan.total_segments,
            input.multiple_read_operation.holds(scan.multiple_read_args),
            optional_names(input.multiple_read_operation.expression_attribute_names)
                == read_names(
                filter(scan.multiple_read_args.condition),
                projection(scan.multiple_read_args.selection),
            ),
            optional_values(input.multiple_read_operation.expression_attribute_values)
                == values_of(filter(scan.multiple_read_args.condition)),
    {
        let multiple_read_operation = MultipleReadInput::new(scan.multiple_read_args);
        ScanInput {
            multiple_read_operation,
            return_consumed_capacity: scan.return_consumed_capacity,
            segment: scan.segment,
            total_segments: scan.total_segments,
        }
    }
}

} // verus!
