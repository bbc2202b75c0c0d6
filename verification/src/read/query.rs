//! Reading the items of one partition.

use crate::common::condition::{
    all_of, key_conditions, lemma_condition_values_unique, Condition, ConditionMap,
    ConditionView, KeyCondition, KeyConditionView,
};
use crate::common::key::{Key, KeyView};
use crate::common::placeholder::lemma_union_allocated;
use crate::common::{optional_names, optional_values, spliced, Atom, ExpressionInput};
use crate::read::common::{
    filter, filter_count, projection, read_names, values_of, MultipleReadArgs,
    MultipleReadInput,
};
use aws_sdk_dynamodb::types::{AttributeValue, ReturnConsumedCapacity};
use vstd::prelude::*;

verus! {

/// A query of one partition.
#[derive(Clone, Debug, PartialEq)]
pub struct Query<T> {
    /// The table, the filter, the selection and the paging of the read.
    pub multiple_read_args: MultipleReadArgs<T>,
    /// The partition to read.
    pub partition_key: Key<T>,
    /// Whether the response tells the capacity consumed.
    pub return_consumed_capacity: Option<ReturnConsumedCapacity>,
    /// Whether the items come in ascending order of the sort key.
    pub scan_index_forward: Option<bool>,
    /// The condition on the sort key.
    pub sort_key_condition: Option<KeyCondition<T>>,
}

impl<T: Default> Default for Query<T> {
    /// A query of the table with the empty name for the default partition
    /// key, without a condition on the sort key, a filter, a selection or
    /// options.
    fn default() -> (query: Self)
        ensures
            query.multiple_read_args.condition is None,
            query.multiple_read_args.consistent_read is None,
            query.multiple_read_args.exclusive_start_key is None,
            query.multiple_read_args.index_name is None,
            query.multiple_read_args.limit is None,
            query.multiple_read_args.select is None,
            query.multiple_read_args.selection is None,
            query.multiple_read_args.table_name@ == Seq::<char>::empty(),
            query.partition_key.name@ == Seq::<char>::empty(),
            call_ensures(T::default, (), query.partition_key.value),
            query.return_consumed_capacity is None,
            query.scan_index_forward is None,
            query.sort_key_condition is None,
    {
        Query {
            multiple_read_args: MultipleReadArgs::default(),
            partition_key: Key::default(),
            return_consumed_capacity: None,
            scan_index_forward: None,
            sort_key_condition: None,
        }
    }
}

/// A query as it is sent.
#[derive(Debug)]
pub struct QueryInput {
    /// The compiled conditions on the key.
    pub key_condition_expression: String,
    /// The table, the compiled filter and selection, and the paging.
    pub multiple_read_operation: MultipleReadInput,
    /// Whether the response tells the capacity consumed.
    pub return_consumed_capacity: Option<ReturnConsumedCapacity>,
    /// Whether the items come in ascending order of the sort key.
    pub scan_index_forward: Option<bool>,
}

/// The conditions on the key of a query: the partition key equals its value,
/// and the condition on the sort key where there is one.
pub open spec fn key_condition<T>(
    partition_key: KeyView<T>,
    sort_key: Option<KeyConditionView<T>>,
) -> Seq<KeyConditionView<T>> {
    let partition = KeyConditionView {
        condition: ConditionView::Equals(partition_key.value),
        name: partition_key.name,
    };
    match sort_key {
        Some(sort_key) => seq![partition, sort_key],
        None => seq![partition],
    }
}

/// What the conditions on the key of a query compile to from the counter
/// `start` on.
pub open spec fn key_condition_atom(
    partition_key: KeyView<AttributeValue>,
    sort_key: Option<KeyConditionView<AttributeValue>>,
    start: nat,
) -> Atom {
    all_of(key_condition(partition_key, sort_key)).compiled(Seq::empty(), start, false)
}

/// How many value placeholders the conditions on the key of a query take.
pub open spec fn key_condition_count<T>(
    partition_key: KeyView<T>,
    sort_key: Option<KeyConditionView<T>>,
) -> nat {
    all_of(key_condition(partition_key, sort_key)).operand_count()
}

/// The condition on a sort key, as a value.
pub open spec fn sort_condition<T>(sort_key: Option<KeyCondition<T>>) -> Option<
    KeyConditionView<T>,
> {
    match sort_key {
        Some(sort_key) => Some(sort_key@),
        None => None,
    }
}

/// The values of a filter and of the conditions on the key stay apart in one
/// request: the filter is compiled from counter 0 and the conditions on the
/// key from the counter at which the filter ended, so no value placeholder
/// of the one is a value placeholder of the other, even where both test the
/// same attribute with the same operator. The table of the request holds
/// one value for each operand of both.
pub proof fn lemma_query_values_apart(
    condition: Option<ConditionMap<AttributeValue>>,
    partition_key: KeyView<AttributeValue>,
    sort_key: Option<KeyConditionView<AttributeValue>>,
)
    ensures
        ({
            let held = values_of(filter(condition));
            let added = key_condition_atom(partition_key, sort_key, filter_count(condition)).values;
            let both = spliced(held, added);
            &&& held matches Some(table) ==> table.dom().disjoint(added.dom())
            &&& both.dom().finite()
            &&& both.dom().len() == filter_count(condition) + key_condition_count(
                partition_key,
                sort_key,
            )
            &&& held matches Some(table) ==> forall|placeholder: Seq<char>| #[trigger]
                table.dom().contains(placeholder) ==> both[placeholder] == table[placeholder]
        }),
{
    let keys = all_of(key_condition(partition_key, sort_key));
    let start = filter_count(condition);
    lemma_condition_values_unique(keys, Seq::empty(), start, false);
    match condition {
        Some(tree) => {
            lemma_condition_values_unique(tree@, Seq::empty(), 0, false);
            lemma_union_allocated(
                tree@.compiled(Seq::empty(), 0, false).values,
                keys.compiled(Seq::empty(), start, false).values,
                0,
                start,
                keys.operand_count(),
            );
        },
        None => {},
    }
}

impl Query<AttributeValue> {
    /// Compiles the conditions on the key of a query. The counter `index`
    /// runs on from where the caller left it.
    pub fn get_key_condition_expression(
        partition_key: Key<AttributeValue>,
        sort_key: Option<KeyCondition<AttributeValue>>,
        index: &mut usize,
    ) -> (atom: ExpressionInput)
        requires
            *old(index) + key_condition_count(partition_key@, sort_condition(sort_key))
                <= usize::MAX,
        ensures
            atom@ == key_condition_atom(
                partition_key@,
                sort_condition(sort_key),
                *old(index) as nat,
            ),
            *final(index) == *old(index) + key_condition_count(
                partition_key@,
                sort_condition(sort_key),
            ),
    {
        let condition = Condition::Equals(partition_key.value);
        let partition = KeyCondition { condition, name: partition_key.name };
        let mut keys: Vec<KeyCondition<AttributeValue>> = Vec::new();
        keys.push(partition);
        if let Some(sort_key) = sort_key {
            keys.push(sort_key);
        }
        proof {
            assert(key_conditions(keys@) =~= key_condition(
                partition_key@,
                sort_condition(sort_key),
            ));
        }
        KeyCondition::get_expression_operation(keys, index)
    }
}

impl QueryInput {
    /// Puts the request together in one pass: the filter compiled from
    /// counter 0 and the selection compiled, then the conditions on the key
    /// compiled from the counter at which the filter ended, and their tables
    /// spliced into those of the request. No value of the filter is replaced:
    /// the table holds one value for each operand of the filter and of the
    /// conditions on the key.
    pub fn new(query: Query<AttributeValue>) -> (input: Self)
        requires
            filter_count(query.multiple_read_args.condition) + key_condition_count(
                query.partition_key@,
                sort_condition(query.sort_key_condition),
            ) <= usize::MAX,
        ensures
            input.key_condition_expression@ == key_condition_atom(
                query.partition_key@,
                sort_condition(query.sort_key_condition),
                filter_count(query.multiple_read_args.condition),
            ).expression,
            input.return_consumed_capacity == query.return_consumed_capacity,
            input.scan_index_forward == query.scan_index_forward,
            input.multiple_read_operation.holds(query.multiple_read_args),
            optional_names(input.multiple_read_operation.expression_attribute_names) == Some(
                spliced(
                    read_names(
                        filter(query.multiple_read_args.condition),
                        projection(query.multiple_read_args.selection),
                    ),
                    key_condition_atom(
                        query.partition_key@,
                        sort_condition(query.sort_key_condition),
                        filter_count(query.multiple_read_args.condition),
                    ).names,
                ),
            ),
            optional_values(input.multiple_read_operation.expression_attribute_values) == Some(
                spliced(
                    values_of(filter(query.multiple_read_args.condition)),
                    key_condition_atom(
                        query.partition_key@,
                        sort_condition(query.sort_key_condition),
                        filter_count(query.multiple_read_args.condition),
                    ).values,
                ),
            ),
            values_of(filter(query.multiple_read_args.condition)) matches Some(held)
                ==> held.dom().disjoint(
                key_condition_atom(
                    query.partition_key@,
                    sort_condition(query.sort_key_condition),
                    filter_count(query.multiple_read_args.condition),
                ).values.dom(),
            ),
            optional_values(input.multiple_read_operation.expression_attribute_values)
                matches Some(table) && table.dom().finite() && table.dom().len() == filter_count(
                query.multiple_read_args.condition,
            ) + key_condition_count(
                query.partition_key@,
                sort_condition(query.sort_key_condition),
            ),
    {
        proof {
            lemma_query_values_apart(
                query.multiple_read_args.condition,
                query.partition_key@,
                sort_condition(query.sort_key_condition),
            );
        }
        let mut index: usize = match &query.multiple_read_args.condition {
            Some(condition) => match condition.operand_count() {
                Some(count) => count,
                None => 0,
            },
            None => 0,
        };
        let mut multiple_read_operation = MultipleReadInput::new(query.multiple_read_args);
        let key_condition_operation = Query::get_key_condition_expression(
            query.partition_key,
            query.sort_key_condition,
            &mut index,
        );
        let key_condition_expression = key_condition_operation.merge_into(
            &mut multiple_read_operation.expression_attribute_names,
            &mut multiple_read_operation.expression_attribute_values,
        );
        QueryInput {
            key_condition_expression,
            multiple_read_operation,
            return_consumed_capacity: query.return_consumed_capacity,
            scan_index_forward: query.scan_index_forward,
        }
    }
}

} // verus!
