use aws_sdk_dynamodb::types::AttributeValue;
use dynamodb_crud::common::condition::{Condition, ConditionMap, KeyCondition, LogicalOperator};
use dynamodb_crud::common::key::{Key, Keys};
use dynamodb_crud::common::selection::SelectionMap;
use dynamodb_crud::write::update_item::{
    AddOrDeleteInputsMap, SetInput, SetInputsMap, UpdateExpressionMap,
};
use std::cell::RefCell;

fn double(value: i64) -> Result<String, String> {
    if value < 0 {
        Err(format!("negative: {value}"))
    } else {
        Ok((2 * value).to_string())
    }
}

fn on(name: &str, condition: Condition<i64>) -> KeyCondition<i64> {
    KeyCondition { condition, name: name.to_string() }
}

#[test]
fn encode_condition_keeps_the_test_and_encodes_the_operands() {
    assert_eq!(
        Condition::Between(1, 2).encode(&double),
        Ok(Condition::Between("2".to_string(), "4".to_string()))
    );
    assert_eq!(
        Condition::In(vec![1, 2, 3]).encode(&double),
        Ok(Condition::In(vec!["2".to_string(), "4".to_string(), "6".to_string()]))
    );
    assert_eq!(Condition::Equals(5).encode(&double), Ok(Condition::Equals("10".to_string())));
    assert_eq!(
        Condition::NotContains(5).encode(&double),
        Ok(Condition::NotContains("10".to_string()))
    );
    assert_eq!(Condition::<i64>::NotNull.encode(&double), Ok(Condition::NotNull));
    assert_eq!(Condition::<i64>::Null.encode(&double), Ok(Condition::Null));
    assert_eq!(
        Condition::<i64>::BeginsWith("p".to_string()).encode(&double),
        Ok(Condition::BeginsWith("p".to_string()))
    );
}

#[test]
fn encode_condition_hands_back_the_first_refusal() {
    assert_eq!(
        Condition::Between(-1, -2).encode(&double),
        Err("negative: -1".to_string())
    );
    assert_eq!(
        Condition::In(vec![1, -7, -8]).encode(&double),
        Err("negative: -7".to_string())
    );
    assert_eq!(Condition::LessThan(-3).encode(&double), Err("negative: -3".to_string()));
}

#[test]
fn encode_condition_tree_keeps_its_shape() {
    let tree = ConditionMap::Node(
        LogicalOperator::Or,
        vec![
            (
                "a".to_string(),
                ConditionMap::Leaves(
                    LogicalOperator::And,
                    vec![on("b", Condition::Equals(1)), on("c", Condition::Null)],
                ),
            ),
            (
                "d".to_string(),
                ConditionMap::Leaves(LogicalOperator::Or, vec![on("e", Condition::GreaterThan(4))]),
            ),
        ],
    );
    let expected = ConditionMap::Node(
        LogicalOperator::Or,
        vec![
            (
                "a".to_string(),
                ConditionMap::Leaves(
                    LogicalOperator::And,
                    vec![
                        KeyCondition {
                            name: "b".to_string(),
                            condition: Condition::Equals("2".to_string()),
                        },
                        KeyCondition { name: "c".to_string(), condition: Condition::Null },
                    ],
                ),
            ),
            (
                "d".to_string(),
                ConditionMap::Leaves(
                    LogicalOperator::Or,
                    vec![KeyCondition {
                        name: "e".to_string(),
                        condition: Condition::GreaterThan("8".to_string()),
                    }],
                ),
            ),
        ],
    );
    assert_eq!(tree.encode(&double), Ok(expected));
}

#[test]
fn encode_condition_tree_stops_at_the_first_refusal() {
    let asked = RefCell::new(Vec::new());
    let recording = |value: i64| {
        asked.borrow_mut().push(value);
        double(value)
    };
    let tree = ConditionMap::Node(
        LogicalOperator::And,
        vec![
            (
                "a".to_string(),
                ConditionMap::Leaves(
                    LogicalOperator::And,
                    vec![on("b", Condition::Equals(1)), on("c", Condition::Between(2, -3))],
                ),
            ),
            (
                "d".to_string(),
                ConditionMap::Leaves(LogicalOperator::And, vec![on("e", Condition::Equals(-4))]),
            ),
        ],
    );
    assert_eq!(tree.encode(&recording), Err("negative: -3".to_string()));
    assert_eq!(*asked.borrow(), vec![1, 2, -3]);
}

#[test]
fn encode_keys_encodes_both_components() {
    let keys = Keys {
        partition_key: Key { name: "p".to_string(), value: 1 },
        sort_key: Some(Key { name: "s".to_string(), value: 2 }),
    };
    assert_eq!(
        keys.encode(&double),
        Ok(Keys {
            partition_key: Key { name: "p".to_string(), value: "2".to_string() },
            sort_key: Some(Key { name: "s".to_string(), value: "4".to_string() }),
        })
    );
    let lone = Keys { partition_key: Key { name: "p".to_string(), value: 3 }, sort_key: None };
    assert_eq!(
        lone.encode(&double),
        Ok(Keys {
            partition_key: Key { name: "p".to_string(), value: "6".to_string() },
            sort_key: None,
        })
    );
}

#[test]
fn encode_keys_hands_back_a_refusal() {
    let keys = Keys {
        partition_key: Key { name: "p".to_string(), value: 1 },
        sort_key: Some(Key { name: "s".to_string(), value: -2 }),
    };
    assert_eq!(keys.encode(&double), Err("negative: -2".to_string()));
    let keys = Keys {
        partition_key: Key { name: "p".to_string(), value: -1 },
        sort_key: Some(Key { name: "s".to_string(), value: -2 }),
    };
    assert_eq!(keys.encode(&double), Err("negative: -1".to_string()));
}

#[test]
fn encode_set_input_keeps_the_action() {
    assert_eq!(SetInput::Assign(1).encode(&double), Ok(SetInput::Assign("2".to_string())));
    assert_eq!(SetInput::Increment(1).encode(&double), Ok(SetInput::Increment("2".to_string())));
    assert_eq!(SetInput::Decrement(1).encode(&double), Ok(SetInput::Decrement("2".to_string())));
    assert_eq!(SetInput::ListAppend(1).encode(&double), Ok(SetInput::ListAppend("2".to_string())));
    assert_eq!(
        SetInput::ListPrepend(1).encode(&double),
        Ok(SetInput::ListPrepend("2".to_string()))
    );
    assert_eq!(
        SetInput::IfNotExists(1).encode(&double),
        Ok(SetInput::IfNotExists("2".to_string()))
    );
    assert_eq!(SetInput::Assign(-1).encode(&double), Err("negative: -1".to_string()));
}

#[test]
fn encode_update_expression_keeps_clauses_and_order() {
    let tree = UpdateExpressionMap::Combined(vec![
        UpdateExpressionMap::SetValues(SetInputsMap::Node(vec![(
            "u".to_string(),
            SetInputsMap::Leaves(vec![("a".to_string(), SetInput::Increment(1))]),
        )])),
        UpdateExpressionMap::Remove(SelectionMap::Leaves(vec!["old".to_string()])),
        UpdateExpressionMap::Add(AddOrDeleteInputsMap::Leaves(vec![("c".to_string(), 5)])),
        UpdateExpressionMap::Delete(AddOrDeleteInputsMap::Node(vec![(
            "n".to_string(),
            AddOrDeleteInputsMap::Leaves(vec![("d".to_string(), 6)]),
        )])),
    ]);
    let expected = UpdateExpressionMap::Combined(vec![
        UpdateExpressionMap::SetValues(SetInputsMap::Node(vec![(
            "u".to_string(),
            SetInputsMap::Leaves(vec![("a".to_string(), SetInput::Increment("2".to_string()))]),
        )])),
        UpdateExpressionMap::Remove(SelectionMap::Leaves(vec!["old".to_string()])),
        UpdateExpressionMap::Add(AddOrDeleteInputsMap::Leaves(vec![(
            "c".to_string(),
            "10".to_string(),
        )])),
        UpdateExpressionMap::Delete(AddOrDeleteInputsMap::Node(vec![(
            "n".to_string(),
            AddOrDeleteInputsMap::Leaves(vec![("d".to_string(), "12".to_string())]),
        )])),
    ]);
    assert_eq!(tree.encode(&double), Ok(expected));
}

#[test]
fn encode_update_expression_stops_at_the_first_refusal() {
    let tree = UpdateExpressionMap::Combined(vec![
        UpdateExpressionMap::SetValues(SetInputsMap::Leaves(vec![
            ("a".to_string(), SetInput::Assign(1)),
            ("b".to_string(), SetInput::Assign(-2)),
        ])),
        UpdateExpressionMap::Add(AddOrDeleteInputsMap::Leaves(vec![("c".to_string(), -3)])),
    ]);
    assert_eq!(tree.encode(&double), Err("negative: -2".to_string()));
    let tree = UpdateExpressionMap::Delete(AddOrDeleteInputsMap::Leaves(vec![
        ("c".to_string(), 3),
        ("d".to_string(), -4),
    ]));
    assert_eq!(tree.encode(&double), Err("negative: -4".to_string()));
}

#[test]
fn encode_remove_clause_asks_nothing() {
    let tree: UpdateExpressionMap<i64> =
        UpdateExpressionMap::Remove(SelectionMap::Leaves(vec!["a".to_string()]));
    let refuse_all = |_: i64| -> Result<String, String> { Err("asked".to_string()) };
    assert_eq!(
        tree.encode(&refuse_all),
        Ok(UpdateExpressionMap::Remove(SelectionMap::Leaves(vec!["a".to_string()])))
    );
}

fn wire(value: i64) -> Result<AttributeValue, String> {
    if value < 0 {
        Err(format!("negative: {value}"))
    } else {
        Ok(AttributeValue::N(value.to_string()))
    }
}

#[test]
fn try_compile_condition_encodes_then_compiles() {
    let tree = ConditionMap::Node(
        LogicalOperator::And,
        vec![
            (
                "a".to_string(),
                ConditionMap::Leaves(
                    LogicalOperator::Or,
                    vec![on("b", Condition::Equals(1)), on("c", Condition::In(vec![2, 3]))],
                ),
            ),
            (
                "d".to_string(),
                ConditionMap::Leaves(
                    LogicalOperator::And,
                    vec![on("e", Condition::BeginsWith("p".to_string()))],
                ),
            ),
        ],
    );
    let atom = tree.try_compile(&wire).unwrap();
    assert_eq!(
        atom.expression,
        "(#a.#b = :b_eq0 OR #a.#c IN (:c_in1_0, :c_in2_1)) AND begins_with(#d.#e, :e_begins_with3)"
    );
    assert_eq!(atom.expression_attribute_values.len(), 4);
    assert_eq!(
        atom.expression_attribute_values.get(":c_in2_1"),
        Some(&AttributeValue::N("3".to_string()))
    );
    assert_eq!(
        atom.expression_attribute_values.get(":e_begins_with3"),
        Some(&AttributeValue::S("p".to_string()))
    );
    assert_eq!(atom.expression_attribute_names.len(), 5);
}

#[test]
fn try_compile_condition_hands_back_a_refusal() {
    let tree = ConditionMap::Leaves(
        LogicalOperator::And,
        vec![on("a", Condition::Equals(1)), on("b", Condition::Equals(-1))],
    );
    assert_eq!(tree.try_compile(&wire).unwrap_err(), "negative: -1");
}

#[test]
fn try_compile_update_encodes_then_compiles() {
    let tree = UpdateExpressionMap::Combined(vec![
        UpdateExpressionMap::SetValues(SetInputsMap::Leaves(vec![(
            "attr1".to_string(),
            SetInput::Assign(1),
        )])),
        UpdateExpressionMap::Remove(SelectionMap::Leaves(vec!["oldAttr".to_string()])),
        UpdateExpressionMap::Add(AddOrDeleteInputsMap::Leaves(vec![("count".to_string(), 5)])),
    ]);
    let atom = tree.try_compile(&wire).unwrap();
    assert_eq!(
        atom.expression,
        "SET #attr1 = :set0 REMOVE #oldAttr ADD #count :add_or_delete1"
    );
    assert_eq!(
        atom.expression_attribute_values.get(":add_or_delete1"),
        Some(&AttributeValue::N("5".to_string()))
    );
}

#[test]
fn try_compile_update_hands_back_a_refusal() {
    let tree = UpdateExpressionMap::Add(AddOrDeleteInputsMap::Leaves(vec![
        ("a".to_string(), 1),
        ("b".to_string(), -9),
    ]));
    assert_eq!(tree.try_compile(&wire).unwrap_err(), "negative: -9");
}

#[test]
fn encode_keeps_the_operand_count() {
    let tree = ConditionMap::Leaves(
        LogicalOperator::And,
        vec![
            on("a", Condition::Between(1, 2)),
            on("b", Condition::In(vec![3, 4, 5])),
            on("c", Condition::Null),
        ],
    );
    assert_eq!(tree.operand_count(), Some(5));
    assert_eq!(tree.encode(&wire).unwrap().operand_count(), Some(5));
}
