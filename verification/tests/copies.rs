use aws_sdk_dynamodb::types::AttributeValue;
use dynamodb_crud::common::condition::{Condition, ConditionMap, KeyCondition, LogicalOperator};
use dynamodb_crud::common::key::{Key, Keys};
use dynamodb_crud::common::selection::SelectionMap;
use dynamodb_crud::read::batch_get_item::BatchGetItem;
use dynamodb_crud::read::common::{MultipleReadArgs, SingleReadArgs};
use dynamodb_crud::read::get_item::GetItem;
use dynamodb_crud::read::query::Query;
use dynamodb_crud::read::scan::Scan;
use dynamodb_crud::write::batch_write_item::{
    BatchWriteItem, BatchWriteItemRequestDeleteItem, BatchWriteItemRequestPutItem,
};
use dynamodb_crud::write::common::WriteArgs;
use dynamodb_crud::write::update_item::{
    AddOrDeleteInputsMap, SetInput, SetInputsMap, UpdateExpressionMap, UpdateItem,
};

fn condition_tree() -> ConditionMap<String> {
    ConditionMap::Node(
        LogicalOperator::Or,
        vec![
            (
                "a".to_string(),
                ConditionMap::Leaves(
                    LogicalOperator::And,
                    vec![
                        KeyCondition {
                            name: "b".to_string(),
                            condition: Condition::Between("1".to_string(), "2".to_string()),
                        },
                        KeyCondition {
                            name: "c".to_string(),
                            condition: Condition::In(vec!["x".to_string(), "y".to_string()]),
                        },
                        KeyCondition {
                            name: "d".to_string(),
                            condition: Condition::BeginsWith("p".to_string()),
                        },
                        KeyCondition { name: "e".to_string(), condition: Condition::Null },
                    ],
                ),
            ),
            ("f".to_string(), ConditionMap::Leaves(LogicalOperator::And, vec![])),
        ],
    )
}

fn update_tree() -> UpdateExpressionMap<String> {
    UpdateExpressionMap::Combined(vec![
        UpdateExpressionMap::SetValues(SetInputsMap::Node(vec![(
            "u".to_string(),
            SetInputsMap::Leaves(vec![
                ("a".to_string(), SetInput::Increment("1".to_string())),
                ("b".to_string(), SetInput::IfNotExists("2".to_string())),
            ]),
        )])),
        UpdateExpressionMap::Remove(SelectionMap::Leaves(vec!["old".to_string()])),
        UpdateExpressionMap::Add(AddOrDeleteInputsMap::Node(vec![(
            "n".to_string(),
            AddOrDeleteInputsMap::Leaves(vec![("c".to_string(), "3".to_string())]),
        )])),
        UpdateExpressionMap::Delete(AddOrDeleteInputsMap::Leaves(vec![(
            "d".to_string(),
            "4".to_string(),
        )])),
    ])
}

#[test]
fn clone_of_a_condition_is_the_same_condition() {
    let conditions = vec![
        Condition::BeginsWith("p".to_string()),
        Condition::Between(1, 2),
        Condition::Contains(3),
        Condition::Equals(4),
        Condition::GreaterThan(5),
        Condition::GreaterThanOrEqual(6),
        Condition::In(vec![7, 8]),
        Condition::In(vec![]),
        Condition::LessThan(9),
        Condition::LessThanOrEqual(10),
        Condition::NotContains(11),
        Condition::NotEqual(12),
        Condition::NotNull,
        Condition::Null,
    ];
    for condition in conditions {
        assert_eq!(condition.clone(), condition);
    }
}

#[test]
fn clone_of_a_condition_tree_is_the_same_tree() {
    let tree = condition_tree();
    let copy = tree.clone();
    assert_eq!(copy, tree);
    assert_eq!(copy.operand_count(), tree.operand_count());
}

#[test]
fn clone_of_a_set_input_is_the_same_action() {
    let inputs = vec![
        SetInput::Assign(1),
        SetInput::Increment(2),
        SetInput::Decrement(3),
        SetInput::ListAppend(4),
        SetInput::ListPrepend(5),
        SetInput::IfNotExists(6),
    ];
    for input in inputs {
        assert_eq!(input.clone(), input);
    }
}

#[test]
fn clone_of_an_update_expression_is_the_same_expression() {
    let tree = update_tree();
    let copy = tree.clone();
    assert_eq!(copy, tree);
}

#[test]
fn clone_of_a_compiled_tree_compiles_alike() {
    let wire = |value: String| -> Result<AttributeValue, String> { Ok(AttributeValue::S(value)) };
    let tree = condition_tree();
    let copy = tree.clone();
    assert_eq!(
        copy.try_compile(&wire).unwrap().expression,
        tree.try_compile(&wire).unwrap().expression
    );
    let update = update_tree();
    let copy = update.clone();
    assert_eq!(
        copy.try_compile(&wire).unwrap().expression,
        update.try_compile(&wire).unwrap().expression
    );
}

#[test]
fn clone_of_request_arguments() {
    let update_item = UpdateItem {
        keys: Keys {
            partition_key: Key { name: "id".to_string(), value: "1".to_string() },
            sort_key: None,
        },
        update_expression: update_tree(),
        write_args: WriteArgs {
            condition: Some(condition_tree()),
            table_name: "t".to_string(),
            ..Default::default()
        },
    };
    assert_eq!(update_item.clone(), update_item);
    let query = Query {
        multiple_read_args: MultipleReadArgs {
            condition: Some(condition_tree()),
            table_name: "t".to_string(),
            ..Default::default()
        },
        partition_key: Key { name: "id".to_string(), value: "1".to_string() },
        ..Default::default()
    };
    assert_eq!(query.clone(), query);
    let scan: Scan<String> = Scan { segment: Some(2), ..Default::default() };
    assert_eq!(scan.clone(), scan);
    let get_item: GetItem<String> = GetItem::default();
    assert_eq!(get_item.clone(), get_item);
}

#[test]
fn default_requests_are_empty() {
    let query: Query<String> = Query::default();
    assert_eq!(query.partition_key, Key { name: String::new(), value: String::new() });
    assert_eq!(query.sort_key_condition, None);
    assert_eq!(query.scan_index_forward, None);
    assert_eq!(query.return_consumed_capacity, None);
    assert_eq!(query.multiple_read_args, MultipleReadArgs::default());
    let scan: Scan<AttributeValue> = Scan::default();
    assert_eq!(scan.segment, None);
    assert_eq!(scan.total_segments, None);
    assert_eq!(scan.return_consumed_capacity, None);
    assert_eq!(scan.multiple_read_args.table_name, "");
    assert_eq!(scan.multiple_read_args.condition, None);
    let get_item: GetItem<i64> = GetItem::default();
    assert_eq!(get_item.keys.partition_key, Key { name: String::new(), value: 0 });
    assert_eq!(get_item.keys.sort_key, None);
    assert_eq!(get_item.single_read_args, SingleReadArgs::default());
    let batch: BatchGetItem<AttributeValue> = BatchGetItem::default();
    assert!(batch.items.is_empty());
    assert_eq!(batch.return_consumed_capacity, None);
    let keys: Keys<u8> = Keys::default();
    assert_eq!(keys, Keys { partition_key: Key { name: String::new(), value: 0 }, sort_key: None });
    let writes: BatchWriteItem<AttributeValue> = BatchWriteItem::default();
    assert!(writes.request_items.is_empty());
    let put: BatchWriteItemRequestPutItem<u8> = BatchWriteItemRequestPutItem::default();
    assert_eq!(put.item, 0);
    let delete: BatchWriteItemRequestDeleteItem<u8> = BatchWriteItemRequestDeleteItem::default();
    assert_eq!(delete.keys, Keys::default());
}

#[test]
fn default_query_fills_the_rest_of_a_query() {
    let query = Query {
        partition_key: Key { name: "id".to_string(), value: "1".to_string() },
        multiple_read_args: MultipleReadArgs { table_name: "users".to_string(), ..Default::default() },
        ..Default::default()
    };
    assert_eq!(query.multiple_read_args.table_name, "users");
    assert_eq!(query.sort_key_condition, None);
}
