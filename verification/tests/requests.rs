use aws_sdk_dynamodb::types::{AttributeValue, ReturnConsumedCapacity, ReturnValue, Select};
use dynamodb_crud::common::condition::{Condition, ConditionMap, KeyCondition, LogicalOperator};
use dynamodb_crud::common::key::{Key, Keys};
use dynamodb_crud::common::selection::SelectionMap;
use dynamodb_crud::common::ExpressionInput;
use dynamodb_crud::read::batch_get_item::TableReads;
use dynamodb_crud::read::common::{
    MultipleReadArgs, MultipleReadInput, SingleReadArgs, SingleReadInput,
};
use dynamodb_crud::read::get_item::{GetItem, GetItemInput};
use dynamodb_crud::read::query::{Query, QueryInput};
use dynamodb_crud::read::scan::{Scan, ScanInput};
use dynamodb_crud::write::common::{WriteArgs, WriteInput};
use dynamodb_crud::write::delete_item::{DeleteItem, DeleteItemInput};
use dynamodb_crud::write::put_item::PutItemInput;
use std::collections::HashMap;

fn s(value: &str) -> AttributeValue {
    AttributeValue::S(value.to_string())
}

fn n(value: &str) -> AttributeValue {
    AttributeValue::N(value.to_string())
}

fn equals(name: &str, value: AttributeValue) -> ConditionMap<AttributeValue> {
    ConditionMap::Leaves(
        LogicalOperator::And,
        vec![KeyCondition { name: name.to_string(), condition: Condition::Equals(value) }],
    )
}

fn select(names: &[&str]) -> SelectionMap {
    SelectionMap::Leaves(names.iter().map(|name| name.to_string()).collect())
}

#[test]
fn keys_partition_key_only_string() {
    let keys = Keys {
        partition_key: Key { name: "a".to_string(), value: s("b") },
        sort_key: None,
    };
    let attributes = keys.into_attributes();
    assert_eq!(attributes.len(), 1);
    assert_eq!(attributes.get("a"), Some(&s("b")));
}

#[test]
fn keys_partition_key_only_number() {
    let keys = Keys {
        partition_key: Key { name: "a".to_string(), value: n("42") },
        sort_key: None,
    };
    let attributes = keys.into_attributes();
    assert_eq!(attributes.len(), 1);
    assert_eq!(attributes.get("a"), Some(&n("42")));
}

#[test]
fn keys_partition_key_and_sort_key_strings() {
    let keys = Keys {
        partition_key: Key { name: "a".to_string(), value: s("b") },
        sort_key: Some(Key { name: "c".to_string(), value: s("d") }),
    };
    let attributes = keys.into_attributes();
    assert_eq!(attributes.len(), 2);
    assert_eq!(attributes.get("a"), Some(&s("b")));
    assert_eq!(attributes.get("c"), Some(&s("d")));
}

#[test]
fn keys_partition_key_string_sort_key_number() {
    let keys = Keys {
        partition_key: Key { name: "a".to_string(), value: s("b") },
        sort_key: Some(Key { name: "c".to_string(), value: n("100") }),
    };
    let attributes = keys.into_attributes();
    assert_eq!(attributes.len(), 2);
    assert_eq!(attributes.get("c"), Some(&n("100")));
}

#[test]
fn keys_with_the_same_name_keep_the_sort_key() {
    let keys = Keys {
        partition_key: Key { name: "a".to_string(), value: s("b") },
        sort_key: Some(Key { name: "a".to_string(), value: s("c") }),
    };
    let attributes = keys.into_attributes();
    assert_eq!(attributes.len(), 1);
    assert_eq!(attributes.get("a"), Some(&s("c")));
}

#[test]
fn single_read_without_selection() {
    let input = SingleReadInput::new(SingleReadArgs {
        consistent_read: Some(true),
        selection: None,
        table_name: "t".to_string(),
    });
    assert_eq!(input.consistent_read, Some(true));
    assert_eq!(input.table_name, "t");
    assert_eq!(input.projection_expression, None);
    assert!(input.expression_attribute_names.is_none());
}

#[test]
fn single_read_with_selection() {
    let input = SingleReadInput::new(SingleReadArgs {
        consistent_read: None,
        selection: Some(select(&["b", "c"])),
        table_name: "t".to_string(),
    });
    assert_eq!(input.consistent_read, None);
    assert_eq!(input.projection_expression, Some("#b, #c".to_string()));
    let names = input.expression_attribute_names.unwrap();
    assert_eq!(names.len(), 2);
    assert_eq!(names.get("#b"), Some(&"b".to_string()));
    assert_eq!(names.get("#c"), Some(&"c".to_string()));
}

#[test]
fn single_read_args_default() {
    let args = SingleReadArgs::default();
    assert_eq!(args.consistent_read, None);
    assert_eq!(args.selection, None);
    assert_eq!(args.table_name, "");
}

#[test]
fn multiple_read_without_condition_or_selection() {
    let input = MultipleReadInput::new(MultipleReadArgs {
        table_name: "a".to_string(),
        ..Default::default()
    });
    assert_eq!(input.table_name, "a");
    assert_eq!(input.filter_expression, None);
    assert_eq!(input.projection_expression, None);
    assert!(input.expression_attribute_names.is_none());
    assert!(input.expression_attribute_values.is_none());
    assert_eq!(input.exclusive_start_key, None);
    assert_eq!(input.index_name, None);
    assert_eq!(input.limit, None);
    assert_eq!(input.select, None);
    assert_eq!(input.consistent_read, None);
}

#[test]
fn multiple_read_with_condition_only() {
    let input = MultipleReadInput::new(MultipleReadArgs {
        condition: Some(equals("b", s("x"))),
        table_name: "a".to_string(),
        ..Default::default()
    });
    assert_eq!(input.filter_expression, Some("#b = :b_eq0".to_string()));
    assert_eq!(input.projection_expression, None);
    assert_eq!(input.expression_attribute_names.unwrap().len(), 1);
    let values = input.expression_attribute_values.unwrap();
    assert_eq!(values.len(), 1);
    assert_eq!(values.get(":b_eq0"), Some(&s("x")));
}

#[test]
fn multiple_read_with_selection_only() {
    let input = MultipleReadInput::new(MultipleReadArgs {
        selection: Some(select(&["c"])),
        table_name: "a".to_string(),
        ..Default::default()
    });
    assert_eq!(input.filter_expression, None);
    assert_eq!(input.projection_expression, Some("#c".to_string()));
    assert_eq!(input.expression_attribute_names.unwrap().len(), 1);
    assert!(input.expression_attribute_values.is_none());
}

#[test]
fn multiple_read_with_condition_and_selection() {
    let start = HashMap::from([("k".to_string(), s("v"))]);
    let input = MultipleReadInput::new(MultipleReadArgs {
        condition: Some(equals("b", s("x"))),
        consistent_read: Some(false),
        exclusive_start_key: Some(start.clone()),
        index_name: Some("i".to_string()),
        limit: Some(5),
        select: Some(Select::SpecificAttributes),
        selection: Some(select(&["b", "c"])),
        table_name: "a".to_string(),
    });
    assert_eq!(input.filter_expression, Some("#b = :b_eq0".to_string()));
    assert_eq!(input.projection_expression, Some("#b, #c".to_string()));
    let names = input.expression_attribute_names.unwrap();
    assert_eq!(names.len(), 2);
    assert_eq!(names.get("#b"), Some(&"b".to_string()));
    assert_eq!(names.get("#c"), Some(&"c".to_string()));
    assert_eq!(input.expression_attribute_values.unwrap().len(), 1);
    assert_eq!(input.consistent_read, Some(false));
    assert_eq!(input.exclusive_start_key, Some(start));
    assert_eq!(input.index_name, Some("i".to_string()));
    assert_eq!(input.limit, Some(5));
    assert_eq!(input.select, Some(Select::SpecificAttributes));
}

#[test]
fn write_input_without_condition() {
    let input = WriteInput::new(WriteArgs {
        table_name: "t".to_string(),
        return_values: Some(ReturnValue::AllOld),
        ..Default::default()
    });
    assert_eq!(input.condition_expression, None);
    assert!(input.expression_attribute_names.is_none());
    assert!(input.expression_attribute_values.is_none());
    assert_eq!(input.return_values, Some(ReturnValue::AllOld));
    assert_eq!(input.return_consumed_capacity, None);
    assert_eq!(input.table_name, "t");
}

#[test]
fn write_input_with_condition() {
    let input = WriteInput::new(WriteArgs {
        condition: Some(equals("a", n("1"))),
        return_consumed_capacity: Some(ReturnConsumedCapacity::Total),
        table_name: "t".to_string(),
        ..Default::default()
    });
    assert_eq!(input.condition_expression, Some("#a = :a_eq0".to_string()));
    assert_eq!(input.expression_attribute_names.unwrap().get("#a"), Some(&"a".to_string()));
    assert_eq!(input.expression_attribute_values.unwrap().get(":a_eq0"), Some(&n("1")));
    assert_eq!(input.return_consumed_capacity, Some(ReturnConsumedCapacity::Total));
}

#[test]
fn write_input_merge_expression_splices_the_tables() {
    let mut input = WriteInput::new(WriteArgs {
        condition: Some(equals("a", n("1"))),
        table_name: "t".to_string(),
        ..Default::default()
    });
    let operation: ExpressionInput = equals("b", n("2")).compile();
    let expression = input.merge_expression(operation);
    assert_eq!(expression, "#b = :b_eq0");
    assert_eq!(input.condition_expression, Some("#a = :a_eq0".to_string()));
    assert_eq!(input.table_name, "t");
    assert_eq!(input.expression_attribute_names.unwrap().len(), 2);
    let values = input.expression_attribute_values.unwrap();
    assert_eq!(values.len(), 2);
    assert_eq!(values.get(":a_eq0"), Some(&n("1")));
    assert_eq!(values.get(":b_eq0"), Some(&n("2")));
}

#[test]
fn get_item_input_holds_key_and_selection() {
    let input = GetItemInput::new(GetItem {
        keys: Keys {
            partition_key: Key { name: "id".to_string(), value: s("1") },
            sort_key: None,
        },
        return_consumed_capacity: Some(ReturnConsumedCapacity::Indexes),
        single_read_args: SingleReadArgs {
            consistent_read: Some(true),
            selection: Some(select(&["name"])),
            table_name: "users".to_string(),
        },
    });
    assert_eq!(input.keys.get("id"), Some(&s("1")));
    assert_eq!(input.return_consumed_capacity, Some(ReturnConsumedCapacity::Indexes));
    assert_eq!(input.single_read_operation.table_name, "users");
    assert_eq!(input.single_read_operation.projection_expression, Some("#name".to_string()));
}

#[test]
fn scan_input_holds_filter() {
    let input = ScanInput::new(Scan {
        multiple_read_args: MultipleReadArgs {
            condition: Some(equals("b", s("x"))),
            table_name: "a".to_string(),
            ..Default::default()
        },
        return_consumed_capacity: None,
        segment: Some(1),
        total_segments: Some(4),
    });
    assert_eq!(input.segment, Some(1));
    assert_eq!(input.total_segments, Some(4));
    assert_eq!(
        input.multiple_read_operation.filter_expression,
        Some("#b = :b_eq0".to_string())
    );
}

#[test]
fn query_key_condition_of_partition_key_alone() {
    let mut index = 0;
    let atom = Query::get_key_condition_expression(
        Key { name: "id".to_string(), value: s("1") },
        None,
        &mut index,
    );
    assert_eq!(index, 1);
    assert_eq!(atom.expression, "#id = :id_eq0");
    assert_eq!(atom.expression_attribute_names.get("#id"), Some(&"id".to_string()));
    assert_eq!(atom.expression_attribute_values.get(":id_eq0"), Some(&s("1")));
}

#[test]
fn query_key_condition_with_sort_key() {
    let mut index = 4;
    let atom = Query::get_key_condition_expression(
        Key { name: "id".to_string(), value: s("1") },
        Some(KeyCondition {
            name: "at".to_string(),
            condition: Condition::Between(n("1"), n("9")),
        }),
        &mut index,
    );
    assert_eq!(index, 7);
    assert_eq!(
        atom.expression,
        "#id = :id_eq4 AND #at BETWEEN :at_between5 AND :at_between6"
    );
    assert_eq!(atom.expression_attribute_names.len(), 2);
    assert_eq!(atom.expression_attribute_values.len(), 3);
}

#[test]
fn key_conditions_are_joined_by_and() {
    let mut index = 0;
    let atom = KeyCondition::get_expression_operation(
        vec![
            KeyCondition { name: "a".to_string(), condition: Condition::Equals(n("1")) },
            KeyCondition {
                name: "b".to_string(),
                condition: Condition::BeginsWith("x".to_string()),
            },
            KeyCondition { name: "c".to_string(), condition: Condition::NotNull },
        ],
        &mut index,
    );
    assert_eq!(index, 2);
    assert_eq!(
        atom.expression,
        "#a = :a_eq0 AND begins_with(#b, :b_begins_with1) AND attribute_exists(#c)"
    );
    assert_eq!(atom.expression_attribute_values.len(), 2);
}

#[test]
fn query_input_splices_key_condition_into_the_read() {
    let input = QueryInput::new(Query {
        multiple_read_args: MultipleReadArgs {
            condition: Some(equals("b", s("x"))),
            selection: Some(select(&["c"])),
            table_name: "a".to_string(),
            ..Default::default()
        },
        partition_key: Key { name: "id".to_string(), value: s("1") },
        return_consumed_capacity: None,
        scan_index_forward: Some(false),
        sort_key_condition: None,
    });
    assert_eq!(input.key_condition_expression, "#id = :id_eq1");
    assert_eq!(input.scan_index_forward, Some(false));
    let read = input.multiple_read_operation;
    assert_eq!(read.filter_expression, Some("#b = :b_eq0".to_string()));
    assert_eq!(read.projection_expression, Some("#c".to_string()));
    assert_eq!(read.expression_attribute_names.unwrap().len(), 3);
    let values = read.expression_attribute_values.unwrap();
    assert_eq!(values.len(), 2);
    assert_eq!(values.get(":id_eq1"), Some(&s("1")));
    assert_eq!(values.get(":b_eq0"), Some(&s("x")));
}

#[test]
fn query_input_without_filter_makes_the_tables() {
    let input = QueryInput::new(Query {
        multiple_read_args: MultipleReadArgs { table_name: "a".to_string(), ..Default::default() },
        partition_key: Key { name: "id".to_string(), value: s("1") },
        return_consumed_capacity: None,
        scan_index_forward: None,
        sort_key_condition: None,
    });
    let read = input.multiple_read_operation;
    assert_eq!(read.filter_expression, None);
    assert_eq!(read.expression_attribute_names.unwrap().len(), 1);
    assert_eq!(read.expression_attribute_values.unwrap().len(), 1);
}

#[test]
fn query_key_condition_and_filter_on_the_same_attribute_keep_both_values() {
    let input = QueryInput::new(Query {
        multiple_read_args: MultipleReadArgs {
            condition: Some(equals("a", n("2"))),
            table_name: "t".to_string(),
            ..Default::default()
        },
        partition_key: Key { name: "a".to_string(), value: n("1") },
        return_consumed_capacity: None,
        scan_index_forward: None,
        sort_key_condition: None,
    });
    assert_eq!(input.key_condition_expression, "#a = :a_eq1");
    let read = input.multiple_read_operation;
    assert_eq!(read.filter_expression, Some("#a = :a_eq0".to_string()));
    let values = read.expression_attribute_values.unwrap();
    assert_eq!(values.len(), 2);
    assert_eq!(values.get(":a_eq1"), Some(&n("1")));
    assert_eq!(values.get(":a_eq0"), Some(&n("2")));
    let names = read.expression_attribute_names.unwrap();
    assert_eq!(names.len(), 1);
    assert_eq!(names.get("#a"), Some(&"a".to_string()));
}

#[test]
fn query_counter_runs_on_from_the_filter_through_the_sort_key() {
    let input = QueryInput::new(Query {
        multiple_read_args: MultipleReadArgs {
            condition: Some(ConditionMap::Leaves(
                LogicalOperator::Or,
                vec![
                    KeyCondition {
                        name: "id".to_string(),
                        condition: Condition::In(vec![s("x"), s("y")]),
                    },
                    KeyCondition {
                        name: "at".to_string(),
                        condition: Condition::Between(n("0"), n("5")),
                    },
                ],
            )),
            table_name: "t".to_string(),
            ..Default::default()
        },
        partition_key: Key { name: "id".to_string(), value: s("k") },
        return_consumed_capacity: None,
        scan_index_forward: None,
        sort_key_condition: Some(KeyCondition {
            name: "at".to_string(),
            condition: Condition::Between(n("1"), n("9")),
        }),
    });
    assert_eq!(
        input.key_condition_expression,
        "#id = :id_eq4 AND #at BETWEEN :at_between5 AND :at_between6"
    );
    let read = input.multiple_read_operation;
    assert_eq!(
        read.filter_expression,
        Some("#id IN (:id_in0_0, :id_in1_1) OR #at BETWEEN :at_between2 AND :at_between3".to_string())
    );
    let values = read.expression_attribute_values.unwrap();
    assert_eq!(values.len(), 7);
    assert_eq!(values.get(":at_between2"), Some(&n("0")));
    assert_eq!(values.get(":at_between5"), Some(&n("1")));
    assert_eq!(values.get(":id_eq4"), Some(&s("k")));
}

#[test]
fn put_item_input_keeps_the_item() {
    let item = HashMap::from([("id".to_string(), s("1"))]);
    let input = PutItemInput::new(
        item.clone(),
        WriteArgs {
            condition: Some(equals("a", n("1"))),
            table_name: "t".to_string(),
            ..Default::default()
        },
    );
    assert_eq!(input.item, item);
    assert_eq!(input.write_operation.condition_expression, Some("#a = :a_eq0".to_string()));
    assert_eq!(input.write_operation.table_name, "t");
}

#[test]
fn delete_item_input_holds_key_and_condition() {
    let input = DeleteItemInput::new(DeleteItem {
        keys: Keys {
            partition_key: Key { name: "id".to_string(), value: s("1") },
            sort_key: Some(Key { name: "at".to_string(), value: n("2") }),
        },
        write_args: WriteArgs { table_name: "t".to_string(), ..Default::default() },
    });
    assert_eq!(input.keys.len(), 2);
    assert_eq!(input.keys.get("at"), Some(&n("2")));
    assert_eq!(input.write_operation.condition_expression, None);
    assert_eq!(input.write_operation.table_name, "t");
}

#[test]
fn table_reads_lay_out_each_key() {
    let reads = TableReads::new(
        SingleReadArgs {
            consistent_read: None,
            selection: Some(select(&["a"])),
            table_name: "t".to_string(),
        },
        vec![
            Keys { partition_key: Key { name: "id".to_string(), value: s("1") }, sort_key: None },
            Keys {
                partition_key: Key { name: "id".to_string(), value: s("2") },
                sort_key: Some(Key { name: "at".to_string(), value: n("3") }),
            },
        ],
    );
    assert_eq!(reads.single_read_operation.projection_expression, Some("#a".to_string()));
    assert_eq!(reads.keys.len(), 2);
    assert_eq!(reads.keys[0].len(), 1);
    assert_eq!(reads.keys[0].get("id"), Some(&s("1")));
    assert_eq!(reads.keys[1].len(), 2);
    assert_eq!(reads.keys[1].get("at"), Some(&n("3")));
}
