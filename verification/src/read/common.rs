//! What the reading requests share: their arguments, and how the compiled
//! expressions of the arguments enter a request.

use crate::common::attribute_map::AttributeMap;
use crate::common::condition::ConditionMap;
use crate::common::selection::SelectionMap;
use crate::common::{
    name_table, optional_names, optional_text, optional_values, Atom, ExpressionInput,
};
use aws_sdk_dynamodb::types::{AttributeValue, Select};
use std::collections::HashMap;
use vstd::prelude::*;

verus! {

/// The arguments of a request that reads a single item.
#[derive(Clone, Debug, Eq, Hash, PartialEq)]
pub struct SingleReadArgs {
    /// Whether the read is strongly consistent.
    pub consistent_read: Option<bool>,
    /// The attributes to retrieve; all where there is no selection.
    pub selection: Option<SelectionMap>,
    /// The table to read from.
    pub table_name: String,
}

impl Default for SingleReadArgs {
    /// Arguments without a selection or options, for the table with the
    /// empty name.
    fn default() -> (args: Self)
        ensures
            args.consistent_read is None,
            args.selection is None,
            args.table_name@ == Seq::<char>::empty(),
    {
        SingleReadArgs { consistent_read: None, selection: None, table_name: String::new() }
    }
}

/// The arguments of a single read as a request holds them.
#[derive(Debug)]
pub struct SingleReadInput {
    /// Whether the read is strongly consistent.
    pub consistent_read: Option<bool>,
    /// The attribute names behind the name placeholders of the projection.
    pub expression_attribute_names: Option<AttributeMap<String>>,
    /// The compiled selection.
    pub projection_expression: Option<String>,
    /// The table to read from.
    pub table_name: String,
}

/// What an optional selection compiles to.
pub open spec fn projection(selection: Option<SelectionMap>) -> Option<Atom> {
    match selection {
        Some(selection) => Some(selection@.compiled(Seq::empty())),
        None => None,
    }
}

/// What an optional condition compiles to in a pass of its own.
pub open spec fn filter(condition: Option<ConditionMap<AttributeValue>>) -> Option<Atom> {
    match condition {
        Some(condition) => Some(condition@.compiled(Seq::empty(), 0, false)),
        None => None,
    }
}

/// Whether a counter can count the value placeholders of an optional
/// condition.
pub open spec fn countable(condition: Option<ConditionMap<AttributeValue>>) -> bool {
    match condition {
        Some(condition) => condition@.operand_count() <= usize::MAX,
        None => true,
    }
}

/// How many value placeholders an optional condition takes.
pub open spec fn filter_count(condition: Option<ConditionMap<AttributeValue>>) -> nat {
    match condition {
        Some(condition) => condition@.operand_count(),
        None => 0,
    }
}

/// The expression text of an optional atom.
pub open spec fn expression_of(atom: Option<Atom>) -> Option<Seq<char>> {
    match atom {
        Some(atom) => Some(atom.expression),
        None => None,
    }
}

/// The names table of an optional atom.
pub open spec fn names_of(atom: Option<Atom>) -> Option<Map<Seq<char>, Seq<char>>> {
    match atom {
        Some(atom) => Some(atom.names),
        None => None,
    }
}

/// The values table of an optional atom.
pub open spec fn values_of(atom: Option<Atom>) -> Option<Map<Seq<char>, AttributeValue>> {
    match atom {
        Some(atom) => Some(atom.values),
        None => None,
    }
}

impl SingleReadInput {
    /// Whether this request holds the arguments `args`: the table and the
    /// consistency as they are, the selection compiled to the projection
    /// expression and the names table, both absent where there is no
    /// selection.
    pub open spec fn holds(self, args: SingleReadArgs) -> bool {
        &&& self.consistent_read == args.consistent_read
        &&& self.table_name@ == args.table_name@
        &&& optional_text(self.projection_expression) == expression_of(projection(args.selection))
        &&& optional_names(self.expression_attribute_names) == names_of(
            projection(args.selection),
        )
    }

    /// Compiles the selection of the arguments, where there is one, to the
    /// projection expression and the names table of the request.
    pub fn new(single_read_args: SingleReadArgs) -> (input: Self)
        ensures
            input.holds(single_read_args),
    {
        let (expression_attribute_names, projection_expression) =
            match single_read_args.selection {
            Some(selection) => {
                let selection_operation = selection.compile();
                (
                    Some(selection_operation.expression_attribute_names),
                    Some(selection_operation.expression),
                )
            },
            None => (None, None),
        };
        SingleReadInput {
            consistent_read: single_read_args.consistent_read,
            expression_attribute_names,
            projection_expression,
            table_name: single_read_args.table_name,
        }
    }
}

/// The arguments of a request that reads many items.
#[derive(Clone, Debug, PartialEq)]
pub struct MultipleReadArgs<T> {
    /// The filter on the items read.
    pub condition: Option<ConditionMap<T>>,
    /// Whether the read is strongly consistent.
    pub consistent_read: Option<bool>,
    /// The key after which the read goes on.
    pub exclusive_start_key: Option<HashMap<String, T>>,
    /// The index to read from, in place of the table.
    pub index_name: Option<String>,
    /// The number of items to evaluate at most.
    pub limit: Option<i32>,
    /// Which attributes the response holds.
    pub select: Option<Select>,
    /// The attributes to retrieve.
    pub selection: Option<SelectionMap>,
    /// The table to read from.
    pub table_name: String,
}

impl<T> Default for MultipleReadArgs<T> {
    /// Arguments without a filter, a selection or options, for the table
    /// with the empty name.
    fn default() -> (args: Self)
        ensures
            args.condition is None,
            args.consistent_read is None,
            args.exclusive_start_key is None,
            args.index_name is None,
            args.limit is None,
            args.select is None,
            args.selection is None,
            args.table_name@ == Seq::<char>::empty(),
    {
        MultipleReadArgs {
            condition: None,
            consistent_read: None,
            exclusive_start_key: None,
            index_name: None,
            limit: None,
            select: None,
            selection: None,
            table_name: String::new(),
        }
    }
}

/// The arguments of a multiple read as a request holds them.
#[derive(Debug)]
pub struct MultipleReadInput {
    /// Whether the read is strongly consistent.
    pub consistent_read: Option<bool>,
    /// The key after which the read goes on.
    pub exclusive_start_key: Option<HashMap<String, AttributeValue>>,
    /// The attribute names behind the name placeholders of the expressions.
    pub expression_attribute_names: Option<AttributeMap<String>>,
    /// The values behind the value placeholders of the expressions.
    pub expression_attribute_values: Option<AttributeMap<AttributeValue>>,
    /// The compiled condition.
    pub filter_expression: Option<String>,
    /// The index to read from, in place of the table.
    pub index_name: Option<String>,
    /// The number of items to evaluate at most.
    pub limit: Option<i32>,
    /// The compiled selection.
    pub projection_expression: Option<String>,
    /// Which attributes the response holds.
    pub select: Option<Select>,
    /// The table to read from.
    pub table_name: String,
}

/// The names table of a request with a filter and a projection: the names of
/// both, those of the projection staying where both hold a placeholder; none
/// where the request has neither.
pub open spec fn read_names(filter: Option<Atom>, projection: Option<Atom>) -> Option<
    Map<Seq<char>, Seq<char>>,
> {
    match (filter, projection) {
        (Some(filter), Some(projection)) => Some(
            filter.names.union_prefer_right(projection.names),
        ),
        (Some(filter), None) => Some(filter.names),
        (None, Some(projection)) => Some(projection.names),
        (None, None) => None,
    }
}

impl MultipleReadInput {
    /// Whether this request holds the arguments `args` but for its two
    /// tables: the options as they are, the condition compiled to the filter
    /// expression and the selection to the projection expression, each
    /// absent where the arguments have none.
    pub open spec fn holds(self, args: MultipleReadArgs<AttributeValue>) -> bool {
        &&& self.consistent_read == args.consistent_read
        &&& self.exclusive_start_key == args.exclusive_start_key
        &&& optional_text(self.index_name) == optional_text(args.index_name)
        &&& self.limit == args.limit
        &&& self.select == args.select
        &&& self.table_name@ == args.table_name@
        &&& optional_text(self.filter_expression) == expression_of(filter(args.condition))
        &&& optional_text(self.projection_expression) == expression_of(
            projection(args.selection),
        )
    }

    /// Compiles the condition and the selection of the arguments, each where
    /// there is one, to the filter expression, the projection expression and
    /// the tables of the request. Each is compiled in a pass of its own.
    pub fn new(multiple_read_args: MultipleReadArgs<AttributeValue>) -> (input: Self)
        requires
            countable(multiple_read_args.condition),
        ensures
            input.holds(multiple_read_args),
            optional_names(input.expression_attribute_names) == read_names(
                filter(multiple_read_args.condition),
                projection(multiple_read_args.selection),
            ),
            optional_values(input.expression_attribute_values) == values_of(
                filter(multiple_read_args.condition),
            ),
    {
        let condition_operation: Option<ExpressionInput> = match multiple_read_args.condition {
            Some(condition) => Some(condition.compile()),
            None => None,
        };
        let selection_operation: Option<ExpressionInput> = match multiple_read_args.selection {
            Some(selection) => Some(selection.compile()),
            None => None,
        };
        let (
            expression_attribute_names,
            expression_attribute_values,
            filter_expression,
            projection_expression,
        ) = match (condition_operation, selection_operation) {
            (Some(condition_operation), Some(selection_operation)) => {
                let mut names = condition_operation.expression_attribute_names;
                proof {
                    assert(name_table(
                        names@.union_prefer_right(selection_operation.expression_attribute_names@),
                    ) =~= condition_operation@.names.union_prefer_right(
                        selection_operation@.names,
                    ));
                }
                names.extend(selection_operation.expression_attribute_names);
                (
                    Some(names),
                    Some(condition_operation.expression_attribute_values),
                    Some(condition_operation.expression),
                    Some(selection_operation.expression),
                )
            },
            (Some(condition_operation), None) => (
                Some(condition_operation.expression_attribute_names),
                Some(condition_operation.expression_attribute_values),
                Some(condition_operation.expression),
                None,
            ),
            (None, Some(selection_operation)) => (
                Some(selection_operation.expression_attribute_names),
                None,
                None,
                Some(selection_operation.expression),
            ),
            (None, None) => (None, None, None, None),
        };
        MultipleReadInput {
            consistent_read: multiple_read_args.consistent_read,
            exclusive_start_key: multiple_read_args.exclusive_start_key,
            expression_attribute_names,
            expression_attribute_values,
            filter_expression,
            index_name: multiple_read_args.index_name,
            limit: multiple_read_args.limit,
            projection_expression,
            select: multiple_read_args.select,
            table_name: multiple_read_args.table_name,
        }
    }
}

} // verus!
