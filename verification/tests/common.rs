use aws_sdk_dynamodb::types::AttributeValue;
use dynamodb_crud::common::attribute_map::AttributeMap;
use dynamodb_crud::common::placeholder::numbered_placeholder;
use dynamodb_crud::common::{add_placeholder, get_expression, join, join_path, ExpressionInput};
use dynamodb_crud::text::decimal_string;

fn atom(expression: &str, names: &[(&str, &str)], values: &[(&str, &str)]) -> ExpressionInput {
    let mut expression_attribute_names = AttributeMap::new();
    for (placeholder, name) in names {
        expression_attribute_names.insert(placeholder.to_string(), name.to_string());
    }
    let mut expression_attribute_values = AttributeMap::new();
    for (placeholder, value) in values {
        expression_attribute_values
            .insert(placeholder.to_string(), AttributeValue::S(value.to_string()));
    }
    ExpressionInput {
        expression: expression.to_string(),
        expression_attribute_names,
        expression_attribute_values,
    }
}

fn text_value(value: &str) -> AttributeValue {
    AttributeValue::S(value.to_string())
}

#[test]
fn decimal_string_of_small_and_large_numbers() {
    assert_eq!(decimal_string(0), "0");
    assert_eq!(decimal_string(7), "7");
    assert_eq!(decimal_string(10), "10");
    assert_eq!(decimal_string(109), "109");
    assert_eq!(decimal_string(1234567890), "1234567890");
    assert_eq!(decimal_string(usize::MAX), usize::MAX.to_string());
}

#[test]
fn numbered_placeholder_appends_the_counter() {
    assert_eq!(numbered_placeholder(":set".to_string(), 0), ":set0");
    assert_eq!(numbered_placeholder(":a_eq".to_string(), 305), ":a_eq305");
}

#[test]
fn add_placeholder_marks_the_segment_and_extends_the_path() {
    let (placeholder, path) = add_placeholder(&[], "user");
    assert_eq!(placeholder, "#user");
    assert_eq!(path, vec!["#user".to_string()]);
    let (placeholder, longer) = add_placeholder(&path, "name");
    assert_eq!(placeholder, "#name");
    assert_eq!(longer, vec!["#user".to_string(), "#name".to_string()]);
    assert_eq!(path, vec!["#user".to_string()]);
}

#[test]
fn add_placeholder_depends_on_the_segment_alone() {
    let (at_root, _) = add_placeholder(&[], "a");
    let (nested, _) = add_placeholder(&["#x".to_string(), "#y".to_string()], "a");
    assert_eq!(at_root, nested);
}

#[test]
fn add_placeholder_of_an_empty_segment() {
    let (placeholder, path) = add_placeholder(&["#a".to_string()], "");
    assert_eq!(placeholder, "#");
    assert_eq!(join_path(&path), "#a.#");
}

#[test]
fn join_path_puts_dots_between_placeholders() {
    assert_eq!(join_path(&vec![]), "");
    assert_eq!(join_path(&vec!["#a".to_string()]), "#a");
    assert_eq!(
        join_path(&vec!["#a".to_string(), "#b".to_string(), "#c".to_string()]),
        "#a.#b.#c"
    );
}

#[test]
fn join_keeps_empty_parts() {
    let parts = vec!["".to_string(), "x".to_string(), "".to_string()];
    assert_eq!(join(&parts, ", "), ", x, ");
}

#[test]
fn get_expression_skips_an_empty_side() {
    assert_eq!(get_expression("".to_string(), " AND ", "b".to_string()), "b");
    assert_eq!(get_expression("a".to_string(), " AND ", "".to_string()), "a");
    assert_eq!(get_expression("".to_string(), " AND ", "".to_string()), "");
    assert_eq!(get_expression("a".to_string(), " AND ", "b".to_string()), "a AND b");
    assert_eq!(get_expression("a".to_string(), "", "b".to_string()), "ab");
}

#[test]
fn merge_of_nothing_is_the_empty_atom() {
    let merged = ExpressionInput::merge(" AND ", vec![]);
    assert_eq!(merged.expression, "");
    assert_eq!(merged.expression_attribute_names.len(), 0);
    assert_eq!(merged.expression_attribute_values.len(), 0);
}

#[test]
fn default_atom_is_empty() {
    let empty = ExpressionInput::default();
    assert_eq!(empty.expression, "");
    assert_eq!(empty.expression_attribute_names.len(), 0);
    assert_eq!(empty.expression_attribute_values.len(), 0);
}

#[test]
fn merge_of_one_atom_is_that_atom() {
    let merged = ExpressionInput::merge(
        " OR ",
        vec![atom("#a = :a_eq0", &[("#a", "a")], &[(":a_eq0", "x")])],
    );
    assert_eq!(merged.expression, "#a = :a_eq0");
    assert_eq!(merged.expression_attribute_names.len(), 1);
    assert_eq!(merged.expression_attribute_names.get("#a"), Some(&"a".to_string()));
    assert_eq!(merged.expression_attribute_values.len(), 1);
    assert_eq!(merged.expression_attribute_values.get(":a_eq0"), Some(&text_value("x")));
}

#[test]
fn merge_joins_texts_and_unites_tables() {
    let merged = ExpressionInput::merge(
        " AND ",
        vec![
            atom("one", &[("#a", "a")], &[(":v0", "x")]),
            atom("", &[("#b", "b")], &[]),
            atom("two", &[("#a", "a"), ("#c", "c")], &[(":v1", "y")]),
        ],
    );
    assert_eq!(merged.expression, "one AND two");
    assert_eq!(merged.expression_attribute_names.len(), 3);
    assert_eq!(merged.expression_attribute_values.len(), 2);
    assert_eq!(merged.expression_attribute_values.get(":v1"), Some(&text_value("y")));
}

#[test]
fn merge_lets_the_later_atom_win_a_shared_placeholder() {
    let merged = ExpressionInput::merge(
        ", ",
        vec![
            atom("x", &[("#a", "first")], &[(":v", "old")]),
            atom("y", &[("#a", "second")], &[(":v", "new")]),
        ],
    );
    assert_eq!(merged.expression_attribute_names.get("#a"), Some(&"second".to_string()));
    assert_eq!(merged.expression_attribute_values.get(":v"), Some(&text_value("new")));
    assert_eq!(merged.expression_attribute_names.len(), 1);
    assert_eq!(merged.expression_attribute_values.len(), 1);
}

#[test]
fn merge_into_makes_the_tables_where_there_are_none() {
    let mut names = None;
    let mut values = None;
    let expression =
        atom("#a = :a_eq0", &[("#a", "a")], &[(":a_eq0", "x")]).merge_into(&mut names, &mut values);
    assert_eq!(expression, "#a = :a_eq0");
    let names = names.unwrap();
    let values = values.unwrap();
    assert_eq!(names.len(), 1);
    assert_eq!(names.get("#a"), Some(&"a".to_string()));
    assert_eq!(values.len(), 1);
    assert_eq!(values.get(":a_eq0"), Some(&text_value("x")));
}

#[test]
fn merge_into_extends_the_tables_that_are_there() {
    let held = atom("", &[("#a", "a"), ("#b", "old")], &[(":v0", "x")]);
    let mut names = Some(held.expression_attribute_names);
    let mut values = Some(held.expression_attribute_values);
    let expression =
        atom("e", &[("#b", "new"), ("#c", "c")], &[(":v1", "y")]).merge_into(&mut names, &mut values);
    assert_eq!(expression, "e");
    let names = names.unwrap();
    let values = values.unwrap();
    assert_eq!(names.len(), 3);
    assert_eq!(names.get("#a"), Some(&"a".to_string()));
    assert_eq!(names.get("#b"), Some(&"new".to_string()));
    assert_eq!(names.get("#c"), Some(&"c".to_string()));
    assert_eq!(values.len(), 2);
    assert_eq!(values.get(":v0"), Some(&text_value("x")));
    assert_eq!(values.get(":v1"), Some(&text_value("y")));
}

#[test]
fn merge_into_of_an_empty_atom_still_makes_tables() {
    let mut names = None;
    let mut values = None;
    let expression = ExpressionInput::default().merge_into(&mut names, &mut values);
    assert_eq!(expression, "");
    assert_eq!(names.unwrap().len(), 0);
    assert_eq!(values.unwrap().len(), 0);
}

#[test]
fn attribute_map_starts_empty() {
    let map: AttributeMap<u32> = AttributeMap::new();
    assert_eq!(map.len(), 0);
    assert_eq!(map.get("a"), None);
    assert!(!map.contains_key("a"));
    assert!(map.into_entries().is_empty());
}

#[test]
fn attribute_map_insert_replaces_the_value_of_a_key() {
    let mut map = AttributeMap::new();
    map.insert("a".to_string(), 1);
    map.insert("b".to_string(), 2);
    map.insert("a".to_string(), 3);
    assert_eq!(map.len(), 2);
    assert_eq!(map.get("a"), Some(&3));
    assert_eq!(map.get("b"), Some(&2));
    assert_eq!(map.get("ab"), None);
    assert_eq!(map.get(""), None);
    assert!(map.contains_key("b"));
    assert!(!map.contains_key("c"));
    let mut entries = map.into_entries();
    entries.sort();
    assert_eq!(entries, vec![("a".to_string(), 3), ("b".to_string(), 2)]);
}

#[test]
fn attribute_map_extend_prefers_the_incoming_entries() {
    let mut map = AttributeMap::new();
    map.insert("a".to_string(), 1);
    map.insert("b".to_string(), 2);
    let mut other = AttributeMap::new();
    other.insert("b".to_string(), 20);
    other.insert("c".to_string(), 30);
    map.extend(other);
    assert_eq!(map.len(), 3);
    assert_eq!(map.get("a"), Some(&1));
    assert_eq!(map.get("b"), Some(&20));
    assert_eq!(map.get("c"), Some(&30));
    map.extend(AttributeMap::new());
    assert_eq!(map.len(), 3);
}
