//! What the writing requests share: their arguments, and how the compiled
//! expressions of the arguments enter a request.

use crate::common::attribute_map::AttributeMap;
use crate::common::condition::ConditionMap;
use crate::common::{optional_names, optional_text, optional_values, spliced, ExpressionInput};
use crate::read::common::{countable, expression_of, filter, names_of, values_of};
use aws_sdk_dynamodb::types::{
    AttributeValue, ReturnConsumedCapacity, ReturnItemCollectionMetrics, ReturnValue,
    ReturnValuesOnConditionCheckFailure,
};
use vstd::prelude::*;

verus! {

/// The arguments of a request that writes an item.
#[derive(Clone, Debug, PartialEq)]
pub struct WriteArgs<T> {
    /// The condition that must hold for the write to happen.
    pub condition: Option<ConditionMap<T>>,
    /// Whether the response tells the capacity consumed.
    pub return_consumed_capacity: Option<ReturnConsumedCapacity>,
    /// Whether the response tells the metrics of item collections.
    pub return_item_collection_metrics: Option<ReturnItemCollectionMetrics>,
    /// Which attributes of the item the response holds.
    pub return_values: Option<ReturnValue>,
    /// Which attributes the response holds where the condition fails.
    pub return_values_on_condition_check_failure: Option<ReturnValuesOnConditionCheckFailure>,
    /// The table to write to.
    pub table_name: String,
}

impl<T> Default for WriteArgs<T> {
    /// Arguments without a condition and without options, for the table with
    /// the empty name.
    fn default() -> (args: Self)
        ensures
            args.condition is None,
            args.return_consumed_capacity is None,
            args.return_item_collection_metrics is None,
            args.return_values is None,
            args.return_values_on_condition_check_failure is None,
            args.table_name@ == Seq::<char>::empty(),
    {
        WriteArgs {
            condition: None,
            return_consumed_capacity: None,
            return_item_collection_metrics: None,
            return_values: None,
            return_values_on_condition_check_failure: None,
            table_name: String::new(),
        }
    }
}

/// The arguments of a write as a request holds them.
#[derive(Debug)]
pub struct WriteInput {
    /// The compiled condition.
    pub condition_expression: Option<String>,
    /// The attribute names behind the name placeholders of the expressions.
    pub expression_attribute_names: Option<AttributeMap<String>>,
    /// The values behind the value placeholders of the expressions.
    pub expression_attribute_values: Option<AttributeMap<AttributeValue>>,
    /// Whether the response tells the capacity consumed.
    pub return_consumed_capacity: Option<ReturnConsumedCapacity>,
    /// Whether the response tells the metrics of item collections.
    pub return_item_collection_metrics: Option<ReturnItemCollectionMetrics>,
    /// Which attributes of the item the response holds.
    pub return_values: Option<ReturnValue>,
    /// Which attributes the response holds where the condition fails.
    pub return_values_on_condition_check_failure: Option<ReturnValuesOnConditionCheckFailure>,
    /// The table to write to.
    pub table_name: String,
}

impl WriteInput {
    /// Whether this request holds the arguments `args` but for its two
    /// tables: the options as they are, the condition compiled to the
    /// condition expression, absent where the arguments have none.
    pub open spec fn holds(self, args: WriteArgs<AttributeValue>) -> bool {
        &&& optional_text(self.condition_expression) == expression_of(filter(args.condition))
        &&& self.return_consumed_capacity == args.return_consumed_capacity
        &&& self.return_item_collection_metrics == args.return_item_collection_metrics
        &&& self.return_values == args.return_values
        &&& self.return_values_on_condition_check_failure
            == args.return_values_on_condition_check_failure
        &&& self.table_name@ == args.table_name@
    }

    /// Compiles the condition of the arguments, where there is one, in a
    /// pass of its own, to the condition expression and the tables of the
    /// request.
    pub fn new(write_args: WriteArgs<AttributeValue>) -> (input: Self)
        requires
            countable(write_args.condition),
        ensures
            input.holds(write_args),
            optional_names(input.expression_attribute_names) == names_of(
                filter(write_args.condition),
            ),
            optional_values(input.expression_attribute_values) == values_of(
                filter(write_args.condition),
            ),
    {
        let (condition_expression, expression_attribute_names, expression_attribute_values) =
            match write_args.condition {
            Some(condition) => {
                let condition_operation = condition.compile();
                (
                    Some(condition_operation.expression),
                    Some(condition_operation.expression_attribute_names),
                    Some(condition_operation.expression_attribute_values),
                )
            },
            None => (None, None, None),
        };
        WriteInput {
            condition_expression,
            expression_attribute_names,
            expression_attribute_values,
            return_consumed_capacity: write_args.return_consumed_capacity,
            return_item_collection_metrics: write_args.return_item_collection_metrics,
            return_values: write_args.return_values,
            return_values_on_condition_check_failure: write_args
                .return_values_on_condition_check_failure,
            table_name: write_args.table_name,
        }
    }

    /// Splices the tables of a compiled expression into the tables of this
    /// request, and hands back the expression text. Only the two tables of
    /// the request change.
    pub fn merge_expression(&mut self, operation: ExpressionInput) -> (expression: String)
        ensures
            expression@ == operation@.expression,
            optional_names(final(self).expression_attribute_names) == Some(
                spliced(optional_names(old(self).expression_attribute_names), operation@.names),
            ),
            optional_values(final(self).expression_attribute_values) == Some(
                spliced(optional_values(old(self).expression_attribute_values), operation@.values),
            ),
            optional_text(final(self).condition_expression) == optional_text(
                old(self).condition_expression,
            ),
            final(self).return_consumed_capacity == old(self).return_consumed_capacity,
            final(self).return_item_collection_metrics == old(self).return_item_collection_metrics,
            final(self).return_values == old(self).return_values,
            final(self).return_values_on_condition_check_failure
                == old(self).return_values_on_condition_check_failure,
            final(self).table_name@ == old(self).table_name@,
    {
        operation.merge_into(
            &mut self.expression_attribute_names,
            &mut self.expression_attribute_values,
        )
    }
}

} // verus!
