use aws_sdk_dynamodb::types::AttributeValue;
use dynamodb_crud::common::condition::{Condition, ConditionMap, KeyCondition, LogicalOperator};
use dynamodb_crud::common::ExpressionInput;
use dynamodb_crud::common::key::{Key, Keys};
use dynamodb_crud::common::selection::SelectionMap;
use dynamodb_crud::write::common::WriteArgs;
use dynamodb_crud::write::update_item::{
    AddOrDeleteInputsMap, SetInput, SetInputsMap, UpdateExpressionMap, UpdateItem, UpdateItemInput,
};

fn n(value: &str) -> AttributeValue {
    AttributeValue::N(value.to_string())
}

fn on(name: &str, condition: Condition<AttributeValue>) -> KeyCondition<AttributeValue> {
    KeyCondition { condition, name: name.to_string() }
}

fn sample() -> ConditionMap<AttributeValue> {
    ConditionMap::Node(
        LogicalOperator::And,
        vec![
            (
                "a".to_string(),
                ConditionMap::Leaves(
                    LogicalOperator::Or,
                    vec![
                        on("x", Condition::Equals(n("1"))),
                        on("x", Condition::Equals(n("2"))),
                        on("x", Condition::GreaterThan(n("3"))),
                        on("x", Condition::In(vec![n("4"), n("5")])),
                    ],
                ),
            ),
            (
                "b".to_string(),
                ConditionMap::Leaves(
                    LogicalOperator::Or,
                    vec![
                        on("x", Condition::Equals(n("6"))),
                        on("x", Condition::Between(n("7"), n("8"))),
                    ],
                ),
            ),
        ],
    )
}

fn sorted<V: Clone + PartialOrd>(
    map: dynamodb_crud::common::attribute_map::AttributeMap<V>,
) -> Vec<(String, V)> {
    let mut entries = map.into_entries();
    entries.sort_by(|left, right| left.0.cmp(&right.0));
    entries
}

fn same(first: ExpressionInput, second: ExpressionInput) {
    assert_eq!(first.expression, second.expression);
    let first_names = sorted(first.expression_attribute_names);
    let second_names = sorted(second.expression_attribute_names);
    assert_eq!(first_names, second_names);
    let first_values = first.expression_attribute_values.into_entries();
    let second_values = second.expression_attribute_values;
    assert_eq!(first_values.len(), second_values.len());
    for (placeholder, value) in first_values {
        assert_eq!(second_values.get(&placeholder), Some(&value));
    }
}

#[test]
fn pass_condition_compiles_the_same_twice() {
    same(sample().compile(), sample().compile());
}

#[test]
fn pass_update_compiles_the_same_twice() {
    let tree = || {
        UpdateExpressionMap::Combined(vec![
            UpdateExpressionMap::SetValues(SetInputsMap::Leaves(vec![
                ("a".to_string(), SetInput::Assign(n("1"))),
                ("b".to_string(), SetInput::ListAppend(n("2"))),
            ])),
            UpdateExpressionMap::Add(AddOrDeleteInputsMap::Leaves(vec![("c".to_string(), n("3"))])),
        ])
    };
    same(tree().compile(), tree().compile());
}

#[test]
fn pass_value_placeholders_are_one_for_each_operand() {
    let tree = sample();
    assert_eq!(tree.operand_count(), Some(8));
    let atom = tree.compile();
    assert_eq!(
        atom.expression,
        "(#a.#x = :x_eq0 OR #a.#x = :x_eq1 OR #a.#x > :x_gt2 OR #a.#x IN (:x_in3_0, :x_in4_1)) AND (#b.#x = :x_eq5 OR #b.#x BETWEEN :x_between6 AND :x_between7)"
    );
    assert_eq!(atom.expression_attribute_values.len(), 8);
    let mut placeholders = atom
        .expression_attribute_values
        .into_entries()
        .into_iter()
        .map(|(placeholder, _)| placeholder)
        .collect::<Vec<_>>();
    placeholders.sort();
    placeholders.dedup();
    assert_eq!(placeholders.len(), 8);
    assert_eq!(atom.expression_attribute_names.len(), 3);
}

#[test]
fn pass_value_placeholders_stay_apart_for_numbered_segments() {
    let tree = ConditionMap::Leaves(
        LogicalOperator::And,
        vec![
            on("a", Condition::In((0..12).map(|i| n(&i.to_string())).collect())),
            on("a_in1", Condition::In(vec![n("x"), n("y")])),
            on("a", Condition::Equals(n("z"))),
            on("a_eq1", Condition::Equals(n("w"))),
        ],
    );
    assert_eq!(tree.operand_count(), Some(16));
    let atom = tree.compile();
    assert_eq!(atom.expression_attribute_values.len(), 16);
}

#[test]
fn pass_update_value_placeholders_are_one_for_each_value() {
    let tree = UpdateExpressionMap::Combined(vec![
        UpdateExpressionMap::SetValues(SetInputsMap::Leaves(
            (0..11).map(|i| (format!("s{i}"), SetInput::Assign(n("1")))).collect(),
        )),
        UpdateExpressionMap::Add(AddOrDeleteInputsMap::Leaves(
            (0..11).map(|i| (format!("a{i}"), n("2"))).collect(),
        )),
        UpdateExpressionMap::Delete(AddOrDeleteInputsMap::Leaves(vec![("d".to_string(), n("3"))])),
    ]);
    assert_eq!(tree.operand_count(), Some(23));
    let atom = tree.compile();
    assert_eq!(atom.expression_attribute_values.len(), 23);
    assert_eq!(atom.expression_attribute_values.get(":set10"), Some(&n("1")));
    assert_eq!(atom.expression_attribute_values.get(":add_or_delete11"), Some(&n("2")));
    assert_eq!(atom.expression_attribute_values.get(":add_or_delete22"), Some(&n("3")));
}

#[test]
fn pass_single_child_node_is_the_child_under_a_longer_path() {
    let child = || {
        ConditionMap::Leaves(
            LogicalOperator::Or,
            vec![
                on("b", Condition::Equals(n("1"))),
                on("c", Condition::LessThanOrEqual(n("2"))),
            ],
        )
    };
    for nested in [false, true] {
        let mut through_index = 4;
        let through_node = ConditionMap::Node(LogicalOperator::And, vec![("a".to_string(), child())])
            .get_expression_operation_recursive(&[], &mut through_index, nested);
        let mut direct_index = 4;
        let direct = child().get_expression_operation_recursive(
            &["#a".to_string()],
            &mut direct_index,
            nested,
        );
        assert_eq!(through_node.expression, direct.expression);
        assert_eq!(through_index, direct_index);
        assert_eq!(
            through_node.expression_attribute_values.len(),
            direct.expression_attribute_values.len()
        );
        assert_eq!(through_node.expression_attribute_names.len(), 3);
        assert_eq!(direct.expression_attribute_names.len(), 2);
        assert_eq!(
            through_node.expression_attribute_names.get("#a"),
            Some(&"a".to_string())
        );
    }
    let flat = ConditionMap::Node(LogicalOperator::And, vec![("a".to_string(), child())]).compile();
    assert_eq!(flat.expression, "#a.#b = :b_eq0 OR #a.#c <= :c_lte1");
}

#[test]
fn pass_name_placeholders_stand_for_their_names() {
    let update = UpdateExpressionMap::Combined(vec![
        UpdateExpressionMap::SetValues(SetInputsMap::Node(vec![(
            "a".to_string(),
            SetInputsMap::Leaves(vec![("b".to_string(), SetInput::Assign(n("1")))]),
        )])),
        UpdateExpressionMap::Remove(SelectionMap::Leaves(vec!["a".to_string(), "c".to_string()])),
    ]);
    let atoms = vec![sample().compile(), update.compile()];
    for atom in atoms {
        let names = atom.expression_attribute_names.into_entries();
        assert!(!names.is_empty());
        for (placeholder, name) in names {
            assert_eq!(placeholder, format!("#{name}"));
        }
    }
}

#[test]
fn pass_condition_and_update_values_stay_apart() {
    let condition = ConditionMap::Leaves(
        LogicalOperator::And,
        vec![
            on("set", Condition::Equals(n("1"))),
            on("add_or", Condition::In(vec![n("2"), n("3")])),
            on("add_or_delete", Condition::GreaterThan(n("4"))),
        ],
    );
    let update = UpdateExpressionMap::Combined(vec![
        UpdateExpressionMap::SetValues(SetInputsMap::Leaves(vec![
            ("set".to_string(), SetInput::Assign(n("5"))),
            ("x".to_string(), SetInput::Assign(n("6"))),
        ])),
        UpdateExpressionMap::Delete(AddOrDeleteInputsMap::Leaves(vec![(
            "add_or_delete".to_string(),
            n("7"),
        )])),
    ]);
    let input = UpdateItemInput::new(UpdateItem {
        keys: Keys { partition_key: Key { name: "id".to_string(), value: n("0") }, sort_key: None },
        update_expression: update,
        write_args: WriteArgs {
            condition: Some(condition),
            table_name: "t".to_string(),
            ..Default::default()
        },
    });
    assert_eq!(
        input.write_operation.condition_expression,
        Some(
            "#set = :set_eq0 AND #add_or IN (:add_or_in1_0, :add_or_in2_1) AND #add_or_delete > :add_or_delete_gt3"
                .to_string()
        )
    );
    assert_eq!(
        input.update_expression,
        "SET #set = :set0, #x = :set1 DELETE #add_or_delete :add_or_delete2"
    );
    let values = input.write_operation.expression_attribute_values.unwrap();
    assert_eq!(values.len(), 7);
    assert_eq!(values.get(":set_eq0"), Some(&n("1")));
    assert_eq!(values.get(":add_or_in1_0"), Some(&n("2")));
    assert_eq!(values.get(":add_or_in2_1"), Some(&n("3")));
    assert_eq!(values.get(":add_or_delete_gt3"), Some(&n("4")));
    assert_eq!(values.get(":set0"), Some(&n("5")));
    assert_eq!(values.get(":set1"), Some(&n("6")));
    assert_eq!(values.get(":add_or_delete2"), Some(&n("7")));
    let names = input.write_operation.expression_attribute_names.unwrap();
    assert_eq!(names.len(), 4);
}

#[test]
fn pass_value_placeholders_begin_with_a_colon_and_stand_in_the_text() {
    let update = UpdateExpressionMap::Combined(vec![
        UpdateExpressionMap::SetValues(SetInputsMap::Leaves(vec![
            ("a".to_string(), SetInput::Assign(n("1"))),
            ("b".to_string(), SetInput::Increment(n("2"))),
            ("c".to_string(), SetInput::Decrement(n("3"))),
            ("d".to_string(), SetInput::ListAppend(n("4"))),
            ("e".to_string(), SetInput::ListPrepend(n("5"))),
            ("f".to_string(), SetInput::IfNotExists(n("6"))),
        ])),
        UpdateExpressionMap::Remove(SelectionMap::Leaves(vec!["g".to_string()])),
        UpdateExpressionMap::Add(AddOrDeleteInputsMap::Leaves(vec![("h".to_string(), n("7"))])),
        UpdateExpressionMap::Delete(AddOrDeleteInputsMap::Leaves(vec![("i".to_string(), n("8"))])),
    ]);
    let every = ConditionMap::Node(
        LogicalOperator::And,
        vec![
            (
                "p".to_string(),
                ConditionMap::Leaves(
                    LogicalOperator::Or,
                    vec![
                        on("a", Condition::BeginsWith("x".to_string())),
                        on("b", Condition::Between(n("1"), n("2"))),
                        on("c", Condition::Contains(n("3"))),
                        on("d", Condition::Equals(n("4"))),
                        on("e", Condition::GreaterThan(n("5"))),
                        on("f", Condition::GreaterThanOrEqual(n("6"))),
                        on("g", Condition::In(vec![n("7"), n("8"), n("9")])),
                    ],
                ),
            ),
            (
                "q".to_string(),
                ConditionMap::Leaves(
                    LogicalOperator::Or,
                    vec![
                        on("h", Condition::LessThan(n("10"))),
                        on("i", Condition::LessThanOrEqual(n("11"))),
                        on("j", Condition::NotContains(n("12"))),
                        on("k", Condition::NotEqual(n("13"))),
                        on("l", Condition::NotNull),
                        on("m", Condition::Null),
                    ],
                ),
            ),
        ],
    );
    let mut checked = 0;
    for atom in [sample().compile(), every.compile(), update.compile()] {
        let text = atom.expression;
        for (placeholder, _) in atom.expression_attribute_values.into_entries() {
            assert!(placeholder.starts_with(':'));
            assert!(text.contains(&placeholder));
            checked += 1;
        }
    }
    assert_eq!(checked, 8 + 14 + 8);
}

#[test]
fn pass_combined_clauses_continue_the_counter() {
    let clause = |name: &str| {
        UpdateExpressionMap::SetValues(SetInputsMap::Leaves(vec![
            (name.to_string(), SetInput::Assign(n("1"))),
            (format!("{name}2"), SetInput::Assign(n("2"))),
        ]))
    };
    let remove =
        || UpdateExpressionMap::Remove(SelectionMap::Leaves(vec!["gone".to_string()]));
    let mut index = 6;
    let whole = UpdateExpressionMap::Combined(vec![clause("a"), remove(), clause("b")])
        .get_update_expression_recursive(&[], &mut index);
    assert_eq!(index, 10);
    assert_eq!(
        whole.expression,
        "SET #a = :set6, #a2 = :set7 REMOVE #gone SET #b = :set8, #b2 = :set9"
    );
    let mut counter = 6;
    let first = clause("a").get_update_expression_recursive(&[], &mut counter);
    assert_eq!(counter, 8);
    let second = remove().get_update_expression_recursive(&[], &mut counter);
    assert_eq!(counter, 8);
    let third = clause("b").get_update_expression_recursive(&[], &mut counter);
    assert_eq!(counter, 10);
    assert_eq!(
        whole.expression,
        format!("{} {} {}", first.expression, second.expression, third.expression)
    );
}

#[test]
fn pass_compiles_the_same_under_the_same_path_and_counter() {
    let keys = vec!["#x".to_string()];
    for nested in [false, true] {
        let mut first_index = 17;
        let first = sample().get_expression_operation_recursive(&keys, &mut first_index, nested);
        let mut second_index = 17;
        let second = sample().get_expression_operation_recursive(&keys, &mut second_index, nested);
        assert_eq!(first_index, second_index);
        assert_eq!(first_index, 25);
        same(first, second);
    }
}

#[test]
fn pass_checked_compile_compiles_what_a_counter_can_count() {
    same(sample().checked_compile().unwrap(), sample().compile());
    let update = || {
        UpdateExpressionMap::SetValues(SetInputsMap::Leaves(vec![(
            "a".to_string(),
            SetInput::Assign(n("1")),
        )]))
    };
    same(update().checked_compile().unwrap(), update().compile());
}
