use aws_sdk_dynamodb::types::AttributeValue;
use dynamodb_crud::common::condition::{Condition, ConditionMap, KeyCondition, LogicalOperator};
use dynamodb_crud::common::ExpressionInput;

fn text(value: &str) -> AttributeValue {
    AttributeValue::S(value.to_string())
}

fn number(value: &str) -> AttributeValue {
    AttributeValue::N(value.to_string())
}

fn on(name: &str, condition: Condition<AttributeValue>) -> KeyCondition<AttributeValue> {
    KeyCondition { condition, name: name.to_string() }
}

fn check_condition(
    atom: ExpressionInput,
    expression: &str,
    names: &[(&str, &str)],
    values: &[(&str, AttributeValue)],
) {
    assert_eq!(atom.expression, expression);
    assert_eq!(atom.expression_attribute_names.len(), names.len());
    for (placeholder, name) in names {
        assert_eq!(
            atom.expression_attribute_names.get(placeholder),
            Some(&name.to_string())
        );
    }
    assert_eq!(atom.expression_attribute_values.len(), values.len());
    for (placeholder, value) in values {
        assert_eq!(atom.expression_attribute_values.get(placeholder), Some(value));
    }
}

#[test]
fn condition_leaves_single_condition() {
    let tree = ConditionMap::Leaves(
        LogicalOperator::And,
        vec![on("a", Condition::Equals(number("1")))],
    );
    check_condition(
        tree.compile(),
        "#a = :a_eq0",
        &[("#a", "a")],
        &[(":a_eq0", number("1"))],
    );
}

#[test]
fn condition_leaves_multiple_conditions_and() {
    let tree = ConditionMap::Leaves(
        LogicalOperator::And,
        vec![
            on("a", Condition::Equals(text("b"))),
            on("c", Condition::Equals(number("1"))),
        ],
    );
    check_condition(
        tree.compile(),
        "#a = :a_eq0 AND #c = :c_eq1",
        &[("#a", "a"), ("#c", "c")],
        &[(":a_eq0", text("b")), (":c_eq1", number("1"))],
    );
}

#[test]
fn condition_leaves_multiple_conditions_or() {
    let tree = ConditionMap::Leaves(
        LogicalOperator::Or,
        vec![
            on("a", Condition::Between(number("1"), number("10"))),
            on("b", Condition::BeginsWith("c".to_string())),
        ],
    );
    check_condition(
        tree.compile(),
        "#a BETWEEN :a_between0 AND :a_between1 OR begins_with(#b, :b_begins_with2)",
        &[("#a", "a"), ("#b", "b")],
        &[
            (":a_between0", number("1")),
            (":a_between1", number("10")),
            (":b_begins_with2", text("c")),
        ],
    );
}

#[test]
fn condition_node_single_level() {
    let tree = ConditionMap::Node(
        LogicalOperator::And,
        vec![
            (
                "a".to_string(),
                ConditionMap::Leaves(
                    LogicalOperator::And,
                    vec![on("b", Condition::Equals(text("c")))],
                ),
            ),
            (
                "b".to_string(),
                ConditionMap::Leaves(
                    LogicalOperator::Or,
                    vec![on("d", Condition::Equals(text("e")))],
                ),
            ),
        ],
    );
    check_condition(
        tree.compile(),
        "#a.#b = :b_eq0 AND #b.#d = :d_eq1",
        &[("#a", "a"), ("#b", "b"), ("#d", "d")],
        &[(":b_eq0", text("c")), (":d_eq1", text("e"))],
    );
}

#[test]
fn condition_node_nested() {
    let tree = ConditionMap::Node(
        LogicalOperator::And,
        vec![
            (
                "a".to_string(),
                ConditionMap::Node(
                    LogicalOperator::And,
                    vec![(
                        "b".to_string(),
                        ConditionMap::Leaves(
                            LogicalOperator::And,
                            vec![
                                on("c", Condition::Equals(text("d"))),
                                on("e", Condition::Equals(text("f"))),
                            ],
                        ),
                    )],
                ),
            ),
            (
                "b".to_string(),
                ConditionMap::Leaves(
                    LogicalOperator::Or,
                    vec![
                        on("g", Condition::Equals(text("h"))),
                        on("i", Condition::Equals(text("j"))),
                    ],
                ),
            ),
        ],
    );
    check_condition(
        tree.compile(),
        "(#a.#b.#c = :c_eq0 AND #a.#b.#e = :e_eq1) AND (#b.#g = :g_eq2 OR #b.#i = :i_eq3)",
        &[
            ("#a", "a"),
            ("#b", "b"),
            ("#c", "c"),
            ("#e", "e"),
            ("#g", "g"),
            ("#i", "i"),
        ],
        &[
            (":c_eq0", text("d")),
            (":e_eq1", text("f")),
            (":g_eq2", text("h")),
            (":i_eq3", text("j")),
        ],
    );
}

#[test]
fn condition_leaves_same_key_or_equals() {
    let tree = ConditionMap::Leaves(
        LogicalOperator::Or,
        vec![
            on("a", Condition::Equals(number("1"))),
            on("a", Condition::Equals(number("2"))),
        ],
    );
    check_condition(
        tree.compile(),
        "#a = :a_eq0 OR #a = :a_eq1",
        &[("#a", "a")],
        &[(":a_eq0", number("1")), (":a_eq1", number("2"))],
    );
}

#[test]
fn condition_leaves_same_key_or_different_operators() {
    let tree = ConditionMap::Leaves(
        LogicalOperator::Or,
        vec![
            on("a", Condition::GreaterThan(number("5"))),
            on("a", Condition::LessThan(number("3"))),
        ],
    );
    check_condition(
        tree.compile(),
        "#a > :a_gt0 OR #a < :a_lt1",
        &[("#a", "a")],
        &[(":a_gt0", number("5")), (":a_lt1", number("3"))],
    );
}

#[test]
fn condition_node_nested_same_key_or() {
    let tree = ConditionMap::Node(
        LogicalOperator::And,
        vec![(
            "a".to_string(),
            ConditionMap::Leaves(
                LogicalOperator::Or,
                vec![
                    on("b", Condition::Equals(text("x"))),
                    on("b", Condition::Equals(text("y"))),
                ],
            ),
        )],
    );
    check_condition(
        tree.compile(),
        "#a.#b = :b_eq0 OR #a.#b = :b_eq1",
        &[("#a", "a"), ("#b", "b")],
        &[(":b_eq0", text("x")), (":b_eq1", text("y"))],
    );
}

#[test]
fn condition_inter_key_collision_across_leaves() {
    let tree = ConditionMap::Node(
        LogicalOperator::And,
        vec![
            (
                "x".to_string(),
                ConditionMap::Leaves(
                    LogicalOperator::And,
                    vec![on("a", Condition::Equals(number("1")))],
                ),
            ),
            (
                "y".to_string(),
                ConditionMap::Leaves(
                    LogicalOperator::And,
                    vec![on("a", Condition::Equals(number("2")))],
                ),
            ),
        ],
    );
    check_condition(
        tree.compile(),
        "#x.#a = :a_eq0 AND #y.#a = :a_eq1",
        &[("#x", "x"), ("#y", "y"), ("#a", "a")],
        &[(":a_eq0", number("1")), (":a_eq1", number("2"))],
    );
}

fn fragment_of(condition: Condition<AttributeValue>) -> String {
    let mut index = 7;
    let (expression, _) = condition.get_expression("k", "#p.#k", &mut index);
    expression
}

#[test]
fn condition_fragments_of_every_operator() {
    let v = || number("1");
    assert_eq!(
        fragment_of(Condition::BeginsWith("x".to_string())),
        "begins_with(#p.#k, :k_begins_with7)"
    );
    assert_eq!(
        fragment_of(Condition::Between(v(), v())),
        "#p.#k BETWEEN :k_between7 AND :k_between8"
    );
    assert_eq!(fragment_of(Condition::Contains(v())), "contains(#p.#k, :k_contains7)");
    assert_eq!(fragment_of(Condition::Equals(v())), "#p.#k = :k_eq7");
    assert_eq!(fragment_of(Condition::GreaterThan(v())), "#p.#k > :k_gt7");
    assert_eq!(fragment_of(Condition::GreaterThanOrEqual(v())), "#p.#k >= :k_gte7");
    assert_eq!(
        fragment_of(Condition::In(vec![v(), v(), v()])),
        "#p.#k IN (:k_in7_0, :k_in8_1, :k_in9_2)"
    );
    assert_eq!(fragment_of(Condition::LessThan(v())), "#p.#k < :k_lt7");
    assert_eq!(fragment_of(Condition::LessThanOrEqual(v())), "#p.#k <= :k_lte7");
    assert_eq!(
        fragment_of(Condition::NotContains(v())),
        "NOT contains(#p.#k, :k_not_contains7)"
    );
    assert_eq!(fragment_of(Condition::NotEqual(v())), "#p.#k <> :k_ne7");
    assert_eq!(fragment_of(Condition::NotNull), "attribute_exists(#p.#k)");
    assert_eq!(fragment_of(Condition::Null), "attribute_not_exists(#p.#k)");
}

#[test]
fn condition_counter_advances_by_the_operands() {
    let cases: Vec<(Condition<AttributeValue>, usize)> = vec![
        (Condition::BeginsWith("x".to_string()), 1),
        (Condition::Between(number("1"), number("2")), 2),
        (Condition::Equals(number("1")), 1),
        (Condition::In(vec![]), 0),
        (Condition::In(vec![number("1"), number("2"), number("3")]), 3),
        (Condition::NotNull, 0),
        (Condition::Null, 0),
    ];
    for (condition, operands) in cases {
        assert_eq!(condition.operand_count(), operands);
        let mut index = 40;
        let (_, values) = condition.get_expression("k", "#k", &mut index);
        assert_eq!(index, 40 + operands);
        assert_eq!(values.len(), operands);
    }
}

#[test]
fn condition_in_binds_each_member() {
    let mut index = 3;
    let condition = Condition::In(vec![text("x"), text("y")]);
    let (expression, values) = condition.get_expression("tag", "#tag", &mut index);
    assert_eq!(expression, "#tag IN (:tag_in3_0, :tag_in4_1)");
    assert_eq!(index, 5);
    assert_eq!(values.len(), 2);
    assert_eq!(values.get(":tag_in3_0"), Some(&text("x")));
    assert_eq!(values.get(":tag_in4_1"), Some(&text("y")));
}

#[test]
fn condition_in_without_members() {
    let mut index = 0;
    let condition: Condition<AttributeValue> = Condition::In(vec![]);
    let (expression, values) = condition.get_expression("a", "#a", &mut index);
    assert_eq!(expression, "#a IN ()");
    assert_eq!(index, 0);
    assert_eq!(values.len(), 0);
}

#[test]
fn condition_begins_with_binds_a_string_value() {
    let mut index = 0;
    let condition: Condition<AttributeValue> = Condition::BeginsWith("pre".to_string());
    let (_, values) = condition.get_expression("a", "#a", &mut index);
    assert_eq!(
        values.get(":a_begins_with0"),
        Some(&AttributeValue::S("pre".to_string()))
    );
}

#[test]
fn condition_counter_reaches_two_digits() {
    let conditions = (0..12)
        .map(|_| on("a", Condition::Equals(number("1"))))
        .collect::<Vec<_>>();
    let atom = ConditionMap::Leaves(LogicalOperator::Or, conditions).compile();
    assert!(atom.expression.ends_with("#a = :a_eq9 OR #a = :a_eq10 OR #a = :a_eq11"));
    assert_eq!(atom.expression_attribute_values.len(), 12);
}

#[test]
fn condition_empty_leaves_compile_to_nothing() {
    let tree: ConditionMap<AttributeValue> = ConditionMap::Leaves(LogicalOperator::And, vec![]);
    check_condition(tree.compile(), "", &[], &[]);
}

#[test]
fn condition_is_composite_follows_nesting() {
    let pair = || {
        ConditionMap::Leaves(
            LogicalOperator::Or,
            vec![
                on("g", Condition::Equals(text("h"))),
                on("i", Condition::Equals(text("j"))),
            ],
        )
    };
    let single = || {
        ConditionMap::Leaves(
            LogicalOperator::Or,
            vec![on("g", Condition::Equals(text("h")))],
        )
    };
    assert!(!pair().is_composite(false));
    assert!(pair().is_composite(true));
    assert!(!single().is_composite(true));
    let plain = ConditionMap::Node(
        LogicalOperator::And,
        vec![("a".to_string(), single()), ("b".to_string(), single())],
    );
    assert!(!plain.is_composite(false));
    assert!(plain.is_composite(true));
    let holding = ConditionMap::Node(
        LogicalOperator::And,
        vec![("a".to_string(), pair()), ("b".to_string(), single())],
    );
    assert!(!holding.is_composite(true));
    let lone = ConditionMap::Node(LogicalOperator::And, vec![("a".to_string(), single())]);
    assert!(!lone.is_composite(true));
}

#[test]
fn condition_nested_level_of_simple_children_is_wrapped() {
    let leaf = |name: &str| {
        ConditionMap::Leaves(
            LogicalOperator::And,
            vec![on(name, Condition::Equals(number("1")))],
        )
    };
    let inner = ConditionMap::Node(
        LogicalOperator::Or,
        vec![("p".to_string(), leaf("x")), ("q".to_string(), leaf("y"))],
    );
    let tree = ConditionMap::Node(
        LogicalOperator::And,
        vec![("a".to_string(), inner), ("b".to_string(), leaf("z"))],
    );
    let atom = tree.compile();
    assert_eq!(
        atom.expression,
        "(#a.#p.#x = :x_eq0 OR #a.#q.#y = :y_eq1) AND #b.#z = :z_eq2"
    );
}

#[test]
fn condition_operand_count_of_a_tree() {
    let tree = ConditionMap::Node(
        LogicalOperator::And,
        vec![
            (
                "a".to_string(),
                ConditionMap::Leaves(
                    LogicalOperator::And,
                    vec![
                        on("b", Condition::Between(number("1"), number("2"))),
                        on("c", Condition::Null),
                    ],
                ),
            ),
            (
                "d".to_string(),
                ConditionMap::Leaves(
                    LogicalOperator::And,
                    vec![on("e", Condition::In(vec![number("1"), number("2"), number("3")]))],
                ),
            ),
        ],
    );
    assert_eq!(tree.operand_count(), Some(5));
    let atom = tree.compile();
    assert_eq!(atom.expression_attribute_values.len(), 5);
    assert_eq!(
        atom.expression,
        "(#a.#b BETWEEN :b_between0 AND :b_between1 AND attribute_not_exists(#a.#c)) AND #d.#e IN (:e_in2_0, :e_in3_1, :e_in4_2)"
    );
}

#[test]
fn logical_operator_text() {
    assert_eq!(LogicalOperator::And.as_str(), " AND ");
    assert_eq!(LogicalOperator::Or.as_str(), " OR ");
    assert_eq!(&*LogicalOperator::And, " AND ");
    assert_eq!(&*LogicalOperator::Or, " OR ");
}
