//! Condition trees: filters and conditions of writes.

use crate::common::attribute_map::AttributeMap;
use crate::common::placeholder::{
    add_count, allocated, bindings, counter_of, is_stem, lemma_bindings_allocated,
    lemma_bindings_dom,
    lemma_counter_of_member, lemma_counter_of_numbered, lemma_total_take, member, numbered,
    numbered_placeholder, total,
};
use crate::common::selection::segments_of;
use crate::common::wire::{text_attribute, text_value};
use crate::common::{
    add_placeholder, all_differ, atoms, join, join_path, joined, lemma_merged_allocated,
    lemma_merged_names_sound, lemma_merged_single, lemma_merged_values_in_text,
    lemma_occurs_between, lemma_occurs_joined, lemma_occurs_within, merged, name_placeholder,
    names_sound, occurs, path_text, segments, segments_differ, texts, values_in_text, Atom,
    ExpressionInput,
};
use crate::text::decimal_string;
use aws_sdk_dynamodb::types::AttributeValue;
use vstd::prelude::*;

verus! {

/// How the conditions of one level are combined.
#[derive(Clone, Copy, Debug, PartialEq, Eq, Structural)]
pub enum LogicalOperator {
    /// All conditions must hold.
    And,
    /// At least one condition must hold.
    Or,
}

impl LogicalOperator {
    /// The operator as it stands between two conditions in expression text.
    pub open spec fn text(self) -> Seq<char> {
        match self {
            LogicalOperator::And => " AND "@,
            LogicalOperator::Or => " OR "@,
        }
    }

    /// The operator as it stands between two conditions in expression text.
    pub fn as_str(&self) -> (text: &'static str)
        ensures
            text@ == self.text(),
    {
        match self {
            LogicalOperator::And => " AND ",
            LogicalOperator::Or => " OR ",
        }
    }
}

impl core::ops::Deref for LogicalOperator {
    type Target = str;

    fn deref(&self) -> (text: &str)
        ensures
            text@ == self.text(),
    {
        self.as_str()
    }
}

/// A test on one attribute.
#[derive(Debug, PartialEq)]
pub enum Condition<T> {
    /// The attribute begins with the given text.
    BeginsWith(String),
    /// The attribute lies between the two values, both included.
    Between(T, T),
    /// The attribute contains the value.
    Contains(T),
    /// The attribute equals the value.
    Equals(T),
    /// The attribute is greater than the value.
    GreaterThan(T),
    /// The attribute is greater than or equal to the value.
    GreaterThanOrEqual(T),
    /// The attribute is one of the values.
    In(Vec<T>),
    /// The attribute is less than the value.
    LessThan(T),
    /// The attribute is less than or equal to the value.
    LessThanOrEqual(T),
    /// The attribute does not contain the value.
    NotContains(T),
    /// The attribute differs from the value.
    NotEqual(T),
    /// The attribute exists.
    NotNull,
    /// The attribute does not exist.
    Null,
}

/// The mathematical value that a `Condition` stands for.
pub enum ConditionView<T> {
    BeginsWith(Seq<char>),
    Between(T, T),
    Contains(T),
    Equals(T),
    GreaterThan(T),
    GreaterThanOrEqual(T),
    In(Seq<T>),
    LessThan(T),
    LessThanOrEqual(T),
    NotContains(T),
    NotEqual(T),
    NotNull,
    Null,
}

impl<T> View for Condition<T> {
    type V = ConditionView<T>;

    open spec fn view(&self) -> ConditionView<T> {
        match self {
            Condition::BeginsWith(prefix) => ConditionView::BeginsWith(prefix@),
            Condition::Between(low, high) => ConditionView::Between(*low, *high),
            Condition::Contains(value) => ConditionView::Contains(*value),
            Condition::Equals(value) => ConditionView::Equals(*value),
            Condition::GreaterThan(value) => ConditionView::GreaterThan(*value),
            Condition::GreaterThanOrEqual(value) => ConditionView::GreaterThanOrEqual(*value),
            Condition::In(values) => ConditionView::In(values@),
            Condition::LessThan(value) => ConditionView::LessThan(*value),
            Condition::LessThanOrEqual(value) => ConditionView::LessThanOrEqual(*value),
            Condition::NotContains(value) => ConditionView::NotContains(*value),
            Condition::NotEqual(value) => ConditionView::NotEqual(*value),
            Condition::NotNull => ConditionView::NotNull,
            Condition::Null => ConditionView::Null,
        }
    }
}

/// The stem of the value placeholders of a condition on the attribute `key`:
/// a colon, the attribute, an underscore and the tag of the operator.
pub open spec fn condition_stem(key: Seq<char>, tag: Seq<char>) -> Seq<char> {
    ":"@ + key + "_"@ + tag
}

/// A comparison: the path, the comparison token with a space on either side,
/// the placeholder.
pub open spec fn comparison(path: Seq<char>, token: Seq<char>, placeholder: Seq<char>) -> Seq<
    char,
> {
    path + token + placeholder
}

/// A function call on a path and a placeholder; `opening` is the function
/// name with its opening bracket.
pub open spec fn call(opening: Seq<char>, path: Seq<char>, placeholder: Seq<char>) -> Seq<char> {
    opening + path + ", "@ + placeholder + ")"@
}

/// A function call on a path alone.
pub open spec fn call_on_path(opening: Seq<char>, path: Seq<char>) -> Seq<char> {
    opening + path + ")"@
}

impl<T> ConditionView<T> {
    /// How many value placeholders the condition takes: one for each
    /// operand.
    pub open spec fn operand_count(self) -> nat {
        match self {
            ConditionView::Between(_, _) => 2,
            ConditionView::In(values) => values.len(),
            ConditionView::NotNull => 0,
            ConditionView::Null => 0,
            _ => 1,
        }
    }
}

impl ConditionView<AttributeValue> {
    /// The tag that names the operator in value placeholders.
    pub open spec fn tag(self) -> Seq<char> {
        match self {
            ConditionView::BeginsWith(_) => "begins_with"@,
            ConditionView::Between(_, _) => "between"@,
            ConditionView::Contains(_) => "contains"@,
            ConditionView::Equals(_) => "eq"@,
            ConditionView::GreaterThan(_) => "gt"@,
            ConditionView::GreaterThanOrEqual(_) => "gte"@,
            ConditionView::In(_) => "in"@,
            ConditionView::LessThan(_) => "lt"@,
            ConditionView::LessThanOrEqual(_) => "lte"@,
            ConditionView::NotContains(_) => "not_contains"@,
            ConditionView::NotEqual(_) => "ne"@,
            ConditionView::NotNull => ""@,
            ConditionView::Null => ""@,
        }
    }

    /// The values that the condition compares the attribute with, in the
    /// order in which their placeholders are allocated.
    pub open spec fn operands(self) -> Seq<AttributeValue> {
        match self {
            ConditionView::BeginsWith(prefix) => seq![text_attribute(prefix)],
            ConditionView::Between(low, high) => seq![low, high],
            ConditionView::Contains(value) => seq![value],
            ConditionView::Equals(value) => seq![value],
            ConditionView::GreaterThan(value) => seq![value],
            ConditionView::GreaterThanOrEqual(value) => seq![value],
            ConditionView::In(values) => values,
            ConditionView::LessThan(value) => seq![value],
            ConditionView::LessThanOrEqual(value) => seq![value],
            ConditionView::NotContains(value) => seq![value],
            ConditionView::NotEqual(value) => seq![value],
            ConditionView::NotNull => Seq::empty(),
            ConditionView::Null => Seq::empty(),
        }
    }

    /// The value placeholders of the condition on the attribute `key`, the
    /// first of them allocated at counter `index`: one for each operand, each
    /// at the next counter. The members of a list carry their position too.
    pub open spec fn placeholders(self, key: Seq<char>, index: nat) -> Seq<Seq<char>> {
        let front = condition_stem(key, self.tag());
        match self {
            ConditionView::In(values) => Seq::new(
                values.len(),
                |j: int| member(front, (index + j) as nat, j as nat),
            ),
            _ => Seq::new(self.operand_count(), |j: int| numbered(front, (index + j) as nat)),
        }
    }

    /// The expression text of the condition on the attribute at `path`, with
    /// the given value placeholders.
    pub open spec fn fragment(self, path: Seq<char>, placeholders: Seq<Seq<char>>) -> Seq<char> {
        match self {
            ConditionView::BeginsWith(_) => call("begins_with("@, path, placeholders[0]),
            ConditionView::Between(_, _) => path + " BETWEEN "@ + placeholders[0] + " AND "@
                + placeholders[1],
            ConditionView::Contains(_) => call("contains("@, path, placeholders[0]),
            ConditionView::Equals(_) => comparison(path, " = "@, placeholders[0]),
            ConditionView::GreaterThan(_) => comparison(path, " > "@, placeholders[0]),
            ConditionView::GreaterThanOrEqual(_) => comparison(path, " >= "@, placeholders[0]),
            ConditionView::In(_) => path + " IN ("@ + joined(placeholders, ", "@) + ")"@,
            ConditionView::LessThan(_) => comparison(path, " < "@, placeholders[0]),
            ConditionView::LessThanOrEqual(_) => comparison(path, " <= "@, placeholders[0]),
            ConditionView::NotContains(_) => call("NOT contains("@, path, placeholders[0]),
            ConditionView::NotEqual(_) => comparison(path, " <> "@, placeholders[0]),
            ConditionView::NotNull => call_on_path("attribute_exists("@, path),
            ConditionView::Null => call_on_path("attribute_not_exists("@, path),
        }
    }

    /// The expression text of the condition on the attribute `key` at `path`,
    /// its first value placeholder allocated at counter `index`.
    pub open spec fn expression(self, key: Seq<char>, path: Seq<char>, index: nat) -> Seq<char> {
        self.fragment(path, self.placeholders(key, index))
    }

    /// The table that binds each value placeholder of the condition to its
    /// operand.
    pub open spec fn values(self, key: Seq<char>, index: nat) -> Map<Seq<char>, AttributeValue> {
        bindings(self.placeholders(key, index), self.operands())
    }
}

/// Writes the stem of the value placeholders of a condition.
fn stem_text(key: &str, tag: &str) -> (front: String)
    ensures
        front@ == condition_stem(key@, tag@),
{
    let mut front = String::from_str(":");
    front.append(key);
    front.append("_");
    front.append(tag);
    front
}

/// Writes a comparison.
fn comparison_text(path: &str, token: &str, placeholder: &str) -> (text: String)
    ensures
        text@ == comparison(path@, token@, placeholder@),
{
    let mut text = String::from_str(path);
    text.append(token);
    text.append(placeholder);
    text
}

/// Writes a function call on a path and a placeholder.
fn call_text(opening: &str, path: &str, placeholder: &str) -> (text: String)
    ensures
        text@ == call(opening@, path@, placeholder@),
{
    let mut text = String::from_str(opening);
    text.append(path);
    text.append(", ");
    text.append(placeholder);
    text.append(")");
    text
}

/// Writes a function call on a path alone.
fn call_on_path_text(opening: &str, path: &str) -> (text: String)
    ensures
        text@ == call_on_path(opening@, path@),
{
    let mut text = String::from_str(opening);
    text.append(path);
    text.append(")");
    text
}

/// Allocates the value placeholder of a single operand and binds the operand
/// to it.
fn bind_operand(key: &str, tag: &str, value: AttributeValue, index: &mut usize) -> (bound: (
    String,
    AttributeMap<AttributeValue>,
))
    requires
        *old(index) < usize::MAX,
    ensures
        bound.0@ == numbered(condition_stem(key@, tag@), *old(index) as nat),
        bound.1@ == bindings(seq![bound.0@], seq![value]),
        *final(index) == *old(index) + 1,
{
    let placeholder = numbered_placeholder(stem_text(key, tag), *index);
    *index = *index + 1;
    let mut values: AttributeMap<AttributeValue> = AttributeMap::new();
    values.insert(placeholder.clone(), value);
    proof {
        let keys = seq![placeholder@];
        let operands = seq![value];
        assert(bindings(keys.drop_last(), operands.drop_last()) == Map::<
            Seq<char>,
            AttributeValue,
        >::empty());
    }
    (placeholder, values)
}

impl Condition<AttributeValue> {
    /// Compiles the condition on the attribute `key`, which expression text
    /// addresses as `key_placeholder`: returns the expression text and the
    /// table of its value placeholders, and advances the counter `index` by
    /// one for each value placeholder.
    pub fn get_expression(self, key: &str, key_placeholder: &str, index: &mut usize) -> (compiled:
        (String, AttributeMap<AttributeValue>))
        requires
            *old(index) + self@.operand_count() <= usize::MAX,
        ensures
            compiled.0@ == self@.expression(key@, key_placeholder@, *old(index) as nat),
            compiled.1@ == self@.values(key@, *old(index) as nat),
            *final(index) == *old(index) + self@.operand_count(),
    {
        let ghost first = *index as nat;
        let ghost expected = self@.placeholders(key@, first);
        match self {
            Condition::BeginsWith(prefix) => {
                let value = text_value(prefix);
                let (placeholder, values) = bind_operand(key, "begins_with", value, index);
                proof {
                    assert(expected =~= seq![placeholder@]);
                }
                (call_text("begins_with(", key_placeholder, placeholder.as_str()), values)
            },
            Condition::Between(low, high) => {
                let (lower, mut values) = bind_operand(key, "between", low, index);
                let upper = numbered_placeholder(stem_text(key, "between"), *index);
                *index = *index + 1;
                values.insert(upper.clone(), high);
                let mut text = String::from_str(key_placeholder);
                text.append(" BETWEEN ");
                text.append(lower.as_str());
                text.append(" AND ");
                text.append(upper.as_str());
                proof {
                    assert(expected =~= seq![lower@, upper@]);
                    assert(seq![lower@, upper@].drop_last() =~= seq![lower@]);
                    assert(seq![low, high].drop_last() =~= seq![low]);
                }
                (text, values)
            },
            Condition::Contains(value) => {
                let (placeholder, values) = bind_operand(key, "contains", value, index);
                proof {
                    assert(expected =~= seq![placeholder@]);
                }
                (call_text("contains(", key_placeholder, placeholder.as_str()), values)
            },
            Condition::Equals(value) => {
                let (placeholder, values) = bind_operand(key, "eq", value, index);
                proof {
                    assert(expected =~= seq![placeholder@]);
                }
                (comparison_text(key_placeholder, " = ", placeholder.as_str()), values)
            },
            Condition::GreaterThan(value) => {
                let (placeholder, values) = bind_operand(key, "gt", value, index);
                proof {
                    assert(expected =~= seq![placeholder@]);
                }
                (comparison_text(key_placeholder, " > ", placeholder.as_str()), values)
            },
            Condition::GreaterThanOrEqual(value) => {
                let (placeholder, values) = bind_operand(key, "gte", value, index);
                proof {
                    assert(expected =~= seq![placeholder@]);
                }
                (comparison_text(key_placeholder, " >= ", placeholder.as_str()), values)
            },
            Condition::In(members) => {
                let front = stem_text(key, "in");
                let mut placeholders: Vec<String> = Vec::new();
                let mut values: AttributeMap<AttributeValue> = AttributeMap::new();
                let mut position: usize = 0;
                let ghost all = members@;
                for value in it: members.into_iter()
                    invariant
                        it.seq() == all,
                        expected.len() == all.len(),
                        forall|j: int|
                            0 <= j < all.len() ==> #[trigger] expected[j] == member(
                                front@,
                                (first + j) as nat,
                                j as nat,
                            ),
                        first + all.len() <= usize::MAX,
                        position == it.index(),
                        *index == first + it.index(),
                        placeholders.len() == it.index(),
                        texts(placeholders@) == expected.take(it.index() as int),
                        values@ == bindings(
                            expected.take(it.index() as int),
                            all.take(it.index() as int),
                        ),
                {
                    let mut placeholder = numbered_placeholder(front.clone(), *index);
                    placeholder.append("_");
                    let digits = decimal_string(position);
                    placeholder.append(digits.as_str());
                    *index = *index + 1;
                    position = position + 1;
                    proof {
                        let done = it.index() as int;
                        assert(placeholder@ == expected[done]);
                        assert(expected.take(done + 1).drop_last() =~= expected.take(done));
                        assert(all.take(done + 1).drop_last() =~= all.take(done));
                        assert(texts(placeholders@.push(placeholder)) =~= expected.take(
                            done + 1,
                        ));
                    }
                    values.insert(placeholder.clone(), value);
                    placeholders.push(placeholder);
                }
                proof {
                    assert(expected.take(all.len() as int) =~= expected);
                    assert(all.take(all.len() as int) =~= all);
                }
                let list = join(&placeholders, ", ");
                let mut text = String::from_str(key_placeholder);
                text.append(" IN (");
                text.append(list.as_str());
                text.append(")");
                (text, values)
            },
            Condition::LessThan(value) => {
                let (placeholder, values) = bind_operand(key, "lt", value, index);
                proof {
                    assert(expected =~= seq![placeholder@]);
                }
                (comparison_text(key_placeholder, " < ", placeholder.as_str()), values)
            },
            Condition::LessThanOrEqual(value) => {
                let (placeholder, values) = bind_operand(key, "lte", value, index);
                proof {
                    assert(expected =~= seq![placeholder@]);
                }
                (comparison_text(key_placeholder, " <= ", placeholder.as_str()), values)
            },
            Condition::NotContains(value) => {
                let (placeholder, values) = bind_operand(key, "not_contains", value, index);
                proof {
                    assert(expected =~= seq![placeholder@]);
                }
                (call_text("NOT contains(", key_placeholder, placeholder.as_str()), values)
            },
            Condition::NotEqual(value) => {
                let (placeholder, values) = bind_operand(key, "ne", value, index);
                proof {
                    assert(expected =~= seq![placeholder@]);
                }
                (comparison_text(key_placeholder, " <> ", placeholder.as_str()), values)
            },
            Condition::NotNull => {
                (call_on_path_text("attribute_exists(", key_placeholder), AttributeMap::new())
            },
            Condition::Null => {
                (call_on_path_text("attribute_not_exists(", key_placeholder), AttributeMap::new())
            },
        }
    }
}

/// A condition on a named attribute.
#[derive(Debug, PartialEq)]
pub struct KeyCondition<T> {
    /// The test.
    pub condition: Condition<T>,
    /// The attribute that is tested.
    pub name: String,
}

/// The mathematical value that a `KeyCondition` stands for.
pub struct KeyConditionView<T> {
    pub condition: ConditionView<T>,
    pub name: Seq<char>,
}

impl<T> View for KeyCondition<T> {
    type V = KeyConditionView<T>;

    open spec fn view(&self) -> KeyConditionView<T> {
        KeyConditionView { condition: self.condition@, name: self.name@ }
    }
}

impl KeyCondition<AttributeValue> {
    /// Compiles a flat list of conditions, all of which must hold: the same
    /// as the leaves of a tree under the operator AND at the root. The
    /// counter `index` runs on from where the caller left it, so that the
    /// list shares no value placeholder with what the caller compiled before
    /// in the same pass.
    pub fn get_expression_operation(keys: Vec<Self>, index: &mut usize) -> (atom: ExpressionInput)
        requires
            *old(index) + all_of(key_conditions(keys@)).operand_count() <= usize::MAX,
        ensures
            atom@ == all_of(key_conditions(keys@)).compiled(
                Seq::empty(),
                *old(index) as nat,
                false,
            ),
            *final(index) == *old(index) + all_of(key_conditions(keys@)).operand_count(),
    {
        let tree = ConditionMap::Leaves(LogicalOperator::And, keys);
        let path: Vec<String> = Vec::new();
        proof {
            assert(texts(path@) =~= Seq::<Seq<char>>::empty());
        }
        tree.get_expression_operation_recursive(path.as_slice(), index, false)
    }
}

/// The conditions that a list of key conditions stands for.
pub open spec fn key_conditions<T>(keys: Seq<KeyCondition<T>>) -> Seq<KeyConditionView<T>> {
    keys.map_values(|condition: KeyCondition<T>| condition@)
}

/// The tree of a flat list of conditions, all of which must hold.
pub open spec fn all_of<T>(conditions: Seq<KeyConditionView<T>>) -> ConditionTree<T> {
    ConditionTree::Leaves(LogicalOperator::And, conditions)
}

impl KeyConditionView<AttributeValue> {
    /// The atom of the condition on its attribute under `path`, its first
    /// value placeholder allocated at counter `index`.
    pub open spec fn compiled(self, path: Seq<Seq<char>>, index: nat) -> Atom {
        Atom {
            expression: self.condition.expression(
                self.name,
                path_text(path.push(name_placeholder(self.name))),
                index,
            ),
            names: map![name_placeholder(self.name) => self.name],
            values: self.condition.values(self.name, index),
        }
    }
}

/// A tree of conditions. A node holds its subtrees in the order given, each
/// under one more path segment.
#[derive(Debug, PartialEq)]
pub enum ConditionMap<T> {
    /// Conditions on attributes directly under the current path.
    Leaves(LogicalOperator, Vec<KeyCondition<T>>),
    /// Subtrees, each under one more path segment.
    Node(LogicalOperator, Vec<(String, ConditionMap<T>)>),
}

/// The mathematical tree that a `ConditionMap` stands for.
pub enum ConditionTree<T> {
    Leaves(LogicalOperator, Seq<KeyConditionView<T>>),
    Node(LogicalOperator, Seq<(Seq<char>, ConditionTree<T>)>),
}

/// The tree that `map` stands for.
pub open spec fn condition_tree<T>(map: ConditionMap<T>) -> ConditionTree<T>
    decreases map,
{
    match map {
        ConditionMap::Leaves(operator, conditions) => ConditionTree::Leaves(
            operator,
            key_conditions(conditions@),
        ),
        ConditionMap::Node(operator, children) => ConditionTree::Node(
            operator,
            Seq::new(
                children@.len(),
                |i: int|
                    if 0 <= i < children@.len() {
                        (children@[i].0@, condition_tree(children@[i].1))
                    } else {
                        (Seq::empty(), ConditionTree::Leaves(operator, Seq::empty()))
                    },
            ),
        ),
    }
}

impl<T> View for ConditionMap<T> {
    type V = ConditionTree<T>;

    open spec fn view(&self) -> ConditionTree<T> {
        condition_tree(*self)
    }
}

/// An atom with its expression text in round brackets.
pub open spec fn wrapped(atom: Atom) -> Atom {
    Atom { expression: "("@ + atom.expression + ")"@, ..atom }
}

impl<T> ConditionTree<T> {
    /// The operator that combines what stands directly under the root.
    pub open spec fn operator(self) -> LogicalOperator {
        match self {
            ConditionTree::Leaves(operator, _) => operator,
            ConditionTree::Node(operator, _) => operator,
        }
    }

    /// Whether no node of the tree holds two subtrees under the same path
    /// segment, as where each node was made from an ordered map. Compiling
    /// does not ask for it.
    pub open spec fn distinct_segments(self) -> bool
        decreases self,
    {
        match self {
            ConditionTree::Leaves(_, _) => true,
            ConditionTree::Node(_, children) => {
                &&& all_differ(segments_of(children))
                &&& forall|i: int|
                    0 <= i < children.len() ==> (#[trigger] children[i]).1.distinct_segments()
            },
        }
    }

    /// Whether the expression text of this tree is put in round brackets,
    /// given whether the tree stands inside a level of more than one part.
    /// Leaves are composite where they are nested and more than one. A node
    /// with a composite child is not composite, as that child brings its own
    /// brackets; otherwise it is composite where it is nested and has more
    /// than one child. A tree that is not nested is never composite.
    pub open spec fn is_composite(self, nested: bool) -> bool
        decreases self,
    {
        match self {
            ConditionTree::Leaves(_, conditions) => nested && conditions.len() > 1,
            ConditionTree::Node(_, children) => {
                let inner = nested || children.len() > 1;
                &&& nested
                &&& children.len() > 1
                &&& forall|i: int|
                    0 <= i < children.len() ==> !(#[trigger] children[i]).1.is_composite(inner)
            },
        }
    }
}

impl<T> ConditionTree<T> {
    /// How many value placeholders each part under the root takes.
    pub open spec fn counts(self) -> Seq<nat>
        decreases self, 0nat,
    {
        match self {
            ConditionTree::Leaves(_, conditions) => Seq::new(
                conditions.len(),
                |i: int| conditions[i].condition.operand_count(),
            ),
            ConditionTree::Node(_, children) => Seq::new(
                children.len(),
                |i: int|
                    if 0 <= i < children.len() {
                        children[i].1.operand_count()
                    } else {
                        0
                    },
            ),
        }
    }

    /// How many value placeholders the tree takes.
    pub open spec fn operand_count(self) -> nat
        decreases self, 1nat,
    {
        total(self.counts())
    }

    /// The counter at which the part at `position` under the root starts,
    /// where the tree starts at `index`: the parts before it have taken
    /// their placeholders.
    pub open spec fn counter_at(self, index: nat, position: int) -> nat {
        index + total(self.counts().take(position))
    }
}

impl ConditionTree<AttributeValue> {
    /// The atoms of the parts under the root, in their order. The tree is
    /// compiled under `path`, starts at counter `index`, and is `nested` where
    /// it stands inside a level of more than one part.
    pub open spec fn parts(self, path: Seq<Seq<char>>, index: nat, nested: bool) -> Seq<Atom>
        decreases self, 2nat,
    {
        match self {
            ConditionTree::Leaves(_, conditions) => Seq::new(
                conditions.len(),
                |i: int| conditions[i].compiled(path, self.counter_at(index, i)),
            ),
            ConditionTree::Node(_, children) => Seq::new(
                children.len(),
                |i: int|
                    if 0 <= i < children.len() {
                        children[i].1.compiled(
                            path.push(name_placeholder(children[i].0)),
                            self.counter_at(index, i),
                            nested || children.len() > 1,
                        ).with_name(name_placeholder(children[i].0), children[i].0)
                    } else {
                        Atom::empty()
                    },
            ),
        }
    }

    /// What the tree compiles to: the atoms of its parts merged with its
    /// operator, the text in round brackets where the tree is composite.
    pub open spec fn compiled(self, path: Seq<Seq<char>>, index: nat, nested: bool) -> Atom
        decreases self, 3nat,
    {
        let whole = merged(self.operator().text(), self.parts(path, index, nested));
        if self.is_composite(nested) {
            wrapped(whole)
        } else {
            whole
        }
    }
}

impl<T> ConditionMap<T> {
    /// Whether no node of the tree holds two subtrees under the same path
    /// segment.
    pub fn has_distinct_segments(&self) -> (distinct: bool)
        ensures
            distinct == self@.distinct_segments(),
        decreases self,
    {
        match self {
            ConditionMap::Leaves(_, _) => true,
            ConditionMap::Node(_, map) => {
                let ghost children = self@->Node_1;
                proof {
                    assert(segments(map@) =~= segments_of(children));
                }
                if !segments_differ(map) {
                    return false;
                }
                for i in 0..map.len()
                    invariant
                        decreases_to!(self => map),
                        self@ is Node,
                        self@->Node_1 == children,
                        all_differ(segments_of(children)),
                        children.len() == map.len(),
                        forall|j: int|
                            0 <= j < map.len() ==> (#[trigger] children[j]).1 == map[j].1@,
                        forall|j: int|
                            0 <= j < i ==> (#[trigger] children[j]).1.distinct_segments(),
                {
                    proof {
                        vstd::std_specs::vec::axiom_vec_index_decreases(*map, i as int);
                    }
                    if !map[i].1.has_distinct_segments() {
                        assert(!children[i as int].1.distinct_segments());
                        return false;
                    }
                }
                true
            },
        }
    }

    /// Whether the expression text of this tree is put in round brackets.
    pub fn is_composite(&self, is_nested: bool) -> (composite: bool)
        ensures
            composite == self@.is_composite(is_nested),
        decreases self,
    {
        match self {
            ConditionMap::Leaves(_, leaves) => is_nested && leaves.len() > 1,
            ConditionMap::Node(_, map) => {
                let has_multiple_keys = map.len() > 1;
                let child_is_nested = is_nested || has_multiple_keys;
                let ghost children = self@->Node_1;
                for i in 0..map.len()
                    invariant
                        decreases_to!(self => map),
                        self@ is Node,
                        self@->Node_1 == children,
                        children.len() == map.len(),
                        forall|j: int|
                            0 <= j < map.len() ==> (#[trigger] children[j]).1 == map[j].1@,
                        forall|j: int|
                            0 <= j < i ==> !(#[trigger] children[j]).1.is_composite(
                                child_is_nested,
                            ),
                {
                    proof {
                        vstd::std_specs::vec::axiom_vec_index_decreases(*map, i as int);
                    }
                    if map[i].1.is_composite(child_is_nested) {
                        assert(children[i as int].1.is_composite(child_is_nested));
                        return false;
                    }
                }
                is_nested && has_multiple_keys
            },
        }
    }
}

impl<T> Condition<T> {
    /// How many value placeholders the condition takes.
    pub fn operand_count(&self) -> (count: usize)
        ensures
            count == self@.operand_count(),
    {
        match self {
            Condition::Between(_, _) => 2,
            Condition::In(values) => values.len(),
            Condition::NotNull => 0,
            Condition::Null => 0,
            _ => 1,
        }
    }
}

impl<T> ConditionMap<T> {
    /// How many value placeholders the tree takes, if a counter can count
    /// them.
    pub fn operand_count(&self) -> (count: Option<usize>)
        ensures
            match count {
                Some(n) => n == self@.operand_count(),
                None => self@.operand_count() > usize::MAX,
            },
        decreases self,
    {
        let ghost counts = self@.counts();
        let mut sum: Option<usize> = Some(0);
        match self {
            ConditionMap::Leaves(_, conditions) => {
                for i in 0..conditions.len()
                    invariant
                        counts.len() == conditions.len(),
                        forall|j: int|
                            0 <= j < conditions.len() ==> #[trigger] counts[j]
                                == conditions[j]@.condition.operand_count(),
                        match sum {
                            Some(n) => n == total(counts.take(i as int)),
                            None => total(counts.take(i as int)) > usize::MAX,
                        },
                {
                    let count = conditions[i].condition.operand_count();
                    sum = add_count(sum, Some(count), Ghost(counts), Ghost(i as int));
                }
                proof {
                    assert(counts.take(conditions.len() as int) =~= counts);
                }
            },
            ConditionMap::Node(_, map) => {
                for i in 0..map.len()
                    invariant
                        decreases_to!(self => map),
                        counts.len() == map.len(),
                        forall|j: int|
                            0 <= j < map.len() ==> #[trigger] counts[j]
                                == map[j].1@.operand_count(),
                        match sum {
                            Some(n) => n == total(counts.take(i as int)),
                            None => total(counts.take(i as int)) > usize::MAX,
                        },
                {
                    proof {
                        vstd::std_specs::vec::axiom_vec_index_decreases(*map, i as int);
                    }
                    let count = map[i].1.operand_count();
                    sum = add_count(sum, count, Ghost(counts), Ghost(i as int));
                }
                proof {
                    assert(counts.take(map.len() as int) =~= counts);
                }
            },
        }
        sum
    }
}

impl ConditionMap<AttributeValue> {
    /// Compiles this tree in a pass of its own: under the empty path, the
    /// counter starting at 0, the root not nested, so that the whole
    /// expression is never put in round brackets.
    pub fn compile(self) -> (atom: ExpressionInput)
        requires
            self@.operand_count() <= usize::MAX,
        ensures
            atom@ == self@.compiled(Seq::empty(), 0, false),
    {
        let keys: Vec<String> = Vec::new();
        let mut index: usize = 0;
        proof {
            assert(texts(keys@) =~= Seq::<Seq<char>>::empty());
        }
        self.get_expression_operation_recursive(keys.as_slice(), &mut index, false)
    }

    /// Compiles this tree in a pass of its own where a counter can count its
    /// value placeholders, and says so where none can.
    pub fn checked_compile(self) -> (compiled: Option<ExpressionInput>)
        ensures
            match compiled {
                Some(atom) => self@.operand_count() <= usize::MAX && atom@ == self@.compiled(
                    Seq::empty(),
                    0,
                    false,
                ),
                None => self@.operand_count() > usize::MAX,
            },
    {
        match self.operand_count() {
            Some(_) => Some(self.compile()),
            None => None,
        }
    }

    /// Compiles this tree under the path `keys`. The counter `index` runs
    /// through the whole pass: it is advanced by one for each value
    /// placeholder. `is_nested` says whether the tree stands inside a level
    /// of more than one part.
    pub fn get_expression_operation_recursive(
        self,
        keys: &[String],
        index: &mut usize,
        is_nested: bool,
    ) -> (atom: ExpressionInput)
        requires
            *old(index) + self@.operand_count() <= usize::MAX,
        ensures
            atom@ == self@.compiled(texts(keys@), *old(index) as nat, is_nested),
            *final(index) == *old(index) + self@.operand_count(),
        decreases self,
    {
        let ghost path = texts(keys@);
        let ghost first = *index as nat;
        let ghost tree = self@;
        let ghost counts = tree.counts();
        let ghost parts = tree.parts(path, first, is_nested);
        let is_composite = self.is_composite(is_nested);
        let mut operations: Vec<ExpressionInput> = Vec::new();
        let operator = match self {
            ConditionMap::Leaves(operator, key_conditions) => {
                let ghost all = key_conditions@;
                for key_condition in it: key_conditions.into_iter()
                    invariant
                        it.seq() == all,
                        path == texts(keys@),
                        counts.len() == all.len(),
                        forall|j: int|
                            0 <= j < all.len() ==> #[trigger] counts[j]
                                == all[j]@.condition.operand_count(),
                        first + total(counts) <= usize::MAX,
                        *index == first + total(counts.take(it.index() as int)),
                        parts.len() == all.len(),
                        forall|j: int|
                            0 <= j < all.len() ==> #[trigger] parts[j] == all[j]@.compiled(
                                path,
                                first + total(counts.take(j)),
                            ),
                        operations.len() == it.index(),
                        forall|j: int|
                            0 <= j < it.index() ==> (#[trigger] operations[j])@ == parts[j],
                {
                    proof {
                        lemma_total_take(counts, it.index() as int);
                    }
                    let KeyCondition { condition, name } = key_condition;
                    let (placeholder, new_keys) = add_placeholder(keys, name.as_str());
                    let key_placeholder = join_path(&new_keys);
                    let (expression, expression_attribute_values) = condition.get_expression(
                        name.as_str(),
                        key_placeholder.as_str(),
                        index,
                    );
                    let mut expression_attribute_names: AttributeMap<String> = AttributeMap::new();
                    expression_attribute_names.insert(placeholder, name);
                    let operation = ExpressionInput {
                        expression,
                        expression_attribute_names,
                        expression_attribute_values,
                    };
                    proof {
                        assert(operation@.names =~= parts[it.index() as int].names);
                    }
                    operations.push(operation);
                }
                proof {
                    assert(counts.take(all.len() as int) =~= counts);
                }
                operator
            },
            ConditionMap::Node(operator, map) => {
                let ghost all = map@;
                let child_is_nested = is_nested || map.len() > 1;
                proof {
                    assert(decreases_to!(self => map));
                }
                for entry in it: map.into_iter()
                    invariant
                        it.seq() == all,
                        all == map@,
                        decreases_to!(self => map),
                        path == texts(keys@),
                        counts.len() == all.len(),
                        forall|j: int|
                            0 <= j < all.len() ==> #[trigger] counts[j]
                                == all[j].1@.operand_count(),
                        first + total(counts) <= usize::MAX,
                        *index == first + total(counts.take(it.index() as int)),
                        parts.len() == all.len(),
                        forall|j: int|
                            0 <= j < all.len() ==> #[trigger] parts[j] == all[j].1@.compiled(
                                path.push(name_placeholder(all[j].0@)),
                                first + total(counts.take(j)),
                                child_is_nested,
                            ).with_name(name_placeholder(all[j].0@), all[j].0@),
                        operations.len() == it.index(),
                        forall|j: int|
                            0 <= j < it.index() ==> (#[trigger] operations[j])@ == parts[j],
                {
                    proof {
                        lemma_total_take(counts, it.index() as int);
                        assert(entry == map[it.index() as int]);
                        vstd::std_specs::vec::axiom_vec_index_decreases(map, it.index() as int);
                    }
                    let (key, value) = entry;
                    let (placeholder, new_keys) = add_placeholder(keys, key.as_str());
                    let mut condition_operation = value.get_expression_operation_recursive(
                        new_keys.as_slice(),
                        index,
                        child_is_nested,
                    );
                    let ghost inner = condition_operation@;
                    condition_operation.expression_attribute_names.insert(placeholder, key);
                    proof {
                        assert(condition_operation@.names =~= inner.names.insert(
                            name_placeholder(key@),
                            key@,
                        ));
                    }
                    operations.push(condition_operation);
                }
                proof {
                    assert(counts.take(all.len() as int) =~= counts);
                }
                operator
            },
        };
        proof {
            assert(atoms(operations@) =~= parts);
        }
        let mut operation = ExpressionInput::merge(operator.as_str(), operations);
        if is_composite {
            let mut expression = String::from_str("(");
            expression.append(operation.expression.as_str());
            expression.append(")");
            operation.expression = expression;
        }
        operation
    }
}

/// The stem of the value placeholders of a condition with operands ends in
/// the last letter of the operator's tag.
pub proof fn lemma_condition_stem(condition: ConditionView<AttributeValue>, key: Seq<char>)
    requires
        condition.operand_count() > 0,
    ensures
        is_stem(condition_stem(key, condition.tag())),
{
    reveal_strlit("begins_with");
    reveal_strlit("between");
    reveal_strlit("contains");
    reveal_strlit("eq");
    reveal_strlit("gt");
    reveal_strlit("gte");
    reveal_strlit("in");
    reveal_strlit("lt");
    reveal_strlit("lte");
    reveal_strlit("not_contains");
    reveal_strlit("ne");
    let tag = condition.tag();
    assert(tag.len() > 0);
    assert(condition_stem(key, tag).last() == tag.last());
}

/// The value placeholders of one condition are as many as its operands, and
/// each carries the counter that it was allocated at.
pub proof fn lemma_condition_allocated(
    condition: ConditionView<AttributeValue>,
    key: Seq<char>,
    index: nat,
)
    ensures
        allocated(condition.values(key, index), index, condition.operand_count()),
{
    let placeholders = condition.placeholders(key, index);
    let front = condition_stem(key, condition.tag());
    if condition.operand_count() > 0 {
        lemma_condition_stem(condition, key);
    }
    assert forall|j: int| 0 <= j < placeholders.len() implies counter_of(
        #[trigger] placeholders[j],
    ) == index + j by {
        if condition is In {
            lemma_counter_of_member(front, (index + j) as nat, j as nat);
        } else {
            lemma_counter_of_numbered(front, (index + j) as nat);
        }
    }
    lemma_bindings_allocated(placeholders, condition.operands(), index);
}

/// Value-placeholder uniqueness. A compiled condition tree holds exactly one
/// value placeholder for each operand of the tree, and each placeholder
/// carries a counter of its own between the counter that the pass started at
/// and the counter that it ended at. So no two operands share a placeholder,
/// whether or not they belong to the same attribute, the same operator or
/// the same branch.
pub proof fn lemma_condition_values_unique(
    tree: ConditionTree<AttributeValue>,
    path: Seq<Seq<char>>,
    index: nat,
    nested: bool,
)
    ensures
        tree.compiled(path, index, nested).values.dom().finite(),
        tree.compiled(path, index, nested).values.dom().len() == tree.operand_count(),
        allocated(tree.compiled(path, index, nested).values, index, tree.operand_count()),
    decreases tree,
{
    let parts = tree.parts(path, index, nested);
    let counts = tree.counts();
    assert forall|i: int| 0 <= i < parts.len() implies allocated(
        (#[trigger] parts[i]).values,
        index + total(counts.take(i)),
        counts[i],
    ) by {
        match tree {
            ConditionTree::Leaves(_, conditions) => {
                lemma_condition_allocated(
                    conditions[i].condition,
                    conditions[i].name,
                    tree.counter_at(index, i),
                );
            },
            ConditionTree::Node(_, children) => {
                lemma_condition_values_unique(
                    children[i].1,
                    path.push(name_placeholder(children[i].0)),
                    tree.counter_at(index, i),
                    nested || children.len() > 1,
                );
            },
        }
    }
    lemma_merged_allocated(tree.operator().text(), parts, counts, index);
}

/// Each name placeholder of a compiled condition tree stands for the path
/// segment or attribute name that it was made from, wherever in the tree
/// that name occurs.
pub proof fn lemma_condition_names_sound(
    tree: ConditionTree<AttributeValue>,
    path: Seq<Seq<char>>,
    index: nat,
    nested: bool,
)
    ensures
        names_sound(tree.compiled(path, index, nested).names),
    decreases tree,
{
    let parts = tree.parts(path, index, nested);
    assert forall|i: int| 0 <= i < parts.len() implies names_sound((#[trigger] parts[i]).names) by {
        match tree {
            ConditionTree::Leaves(_, _) => {},
            ConditionTree::Node(_, children) => {
                lemma_condition_names_sound(
                    children[i].1,
                    path.push(name_placeholder(children[i].0)),
                    tree.counter_at(index, i),
                    nested || children.len() > 1,
                );
            },
        }
    }
    lemma_merged_names_sound(tree.operator().text(), parts);
}

/// Each value placeholder of one condition begins with a colon and stands in
/// the expression text of the condition.
pub proof fn lemma_condition_placeholders_in_text(
    condition: ConditionView<AttributeValue>,
    key: Seq<char>,
    path: Seq<char>,
    index: nat,
)
    ensures
        forall|placeholder: Seq<char>| #[trigger]
            condition.values(key, index).dom().contains(placeholder) ==> placeholder.len() > 0
                && placeholder[0] == ':' && occurs(
                placeholder,
                condition.expression(key, path, index),
            ),
{
    let placeholders = condition.placeholders(key, index);
    let text = condition.expression(key, path, index);
    assert forall|placeholder: Seq<char>| #[trigger]
        condition.values(key, index).dom().contains(placeholder) implies placeholder.len() > 0
        && placeholder[0] == ':' && occurs(placeholder, text) by {
        lemma_bindings_dom(placeholders, condition.operands(), placeholder);
        let j = choose|j: int|
            0 <= j < placeholders.len() && #[trigger] placeholders[j] == placeholder;
        reveal_strlit(":");
        assert(condition_stem(key, condition.tag())[0] == ':');
        match condition {
            ConditionView::BeginsWith(_) => {
                lemma_occurs_between(placeholder, "begins_with("@ + path + ", "@, ")"@);
                assert(text =~= ("begins_with("@ + path + ", "@) + placeholder + ")"@);
            },
            ConditionView::Between(_, _) => {
                let low = placeholders[0];
                let high = placeholders[1];
                if j == 0 {
                    lemma_occurs_between(low, path + " BETWEEN "@, " AND "@ + high);
                    assert(text =~= (path + " BETWEEN "@) + low + (" AND "@ + high));
                } else {
                    lemma_occurs_between(
                        high,
                        path + " BETWEEN "@ + low + " AND "@,
                        Seq::empty(),
                    );
                    assert(text =~= (path + " BETWEEN "@ + low + " AND "@) + high
                        + Seq::<char>::empty());
                }
            },
            ConditionView::Contains(_) => {
                lemma_occurs_between(placeholder, "contains("@ + path + ", "@, ")"@);
                assert(text =~= ("contains("@ + path + ", "@) + placeholder + ")"@);
            },
            ConditionView::Equals(_) => {
                lemma_occurs_between(placeholder, path + " = "@, Seq::empty());
                assert(text =~= (path + " = "@) + placeholder + Seq::<char>::empty());
            },
            ConditionView::GreaterThan(_) => {
                lemma_occurs_between(placeholder, path + " > "@, Seq::empty());
                assert(text =~= (path + " > "@) + placeholder + Seq::<char>::empty());
            },
            ConditionView::GreaterThanOrEqual(_) => {
                lemma_occurs_between(placeholder, path + " >= "@, Seq::empty());
                assert(text =~= (path + " >= "@) + placeholder + Seq::<char>::empty());
            },
            ConditionView::In(_) => {
                lemma_occurs_joined(placeholders, ", "@, j);
                lemma_occurs_within(
                    placeholder,
                    path + " IN ("@,
                    joined(placeholders, ", "@),
                    ")"@,
                );
                assert(text =~= (path + " IN ("@) + joined(placeholders, ", "@) + ")"@);
            },
            ConditionView::LessThan(_) => {
                lemma_occurs_between(placeholder, path + " < "@, Seq::empty());
                assert(text =~= (path + " < "@) + placeholder + Seq::<char>::empty());
            },
            ConditionView::LessThanOrEqual(_) => {
                lemma_occurs_between(placeholder, path + " <= "@, Seq::empty());
                assert(text =~= (path + " <= "@) + placeholder + Seq::<char>::empty());
            },
            ConditionView::NotContains(_) => {
                lemma_occurs_between(placeholder, "NOT contains("@ + path + ", "@, ")"@);
                assert(text =~= ("NOT contains("@ + path + ", "@) + placeholder + ")"@);
            },
            ConditionView::NotEqual(_) => {
                lemma_occurs_between(placeholder, path + " <> "@, Seq::empty());
                assert(text =~= (path + " <> "@) + placeholder + Seq::<char>::empty());
            },
            ConditionView::NotNull => {},
            ConditionView::Null => {},
        }
    }
}

/// Each value placeholder of a compiled condition tree begins with a colon
/// and stands in the expression text of the tree.
pub proof fn lemma_condition_values_in_text(
    tree: ConditionTree<AttributeValue>,
    path: Seq<Seq<char>>,
    index: nat,
    nested: bool,
)
    ensures
        values_in_text(tree.compiled(path, index, nested)),
    decreases tree,
{
    let parts = tree.parts(path, index, nested);
    assert forall|i: int| 0 <= i < parts.len() implies values_in_text(#[trigger] parts[i]) by {
        match tree {
            ConditionTree::Leaves(_, conditions) => {
                lemma_condition_placeholders_in_text(
                    conditions[i].condition,
                    conditions[i].name,
                    path_text(path.push(name_placeholder(conditions[i].name))),
                    tree.counter_at(index, i),
                );
            },
            ConditionTree::Node(_, children) => {
                lemma_condition_values_in_text(
                    children[i].1,
                    path.push(name_placeholder(children[i].0)),
                    tree.counter_at(index, i),
                    nested || children.len() > 1,
                );
            },
        }
    }
    lemma_merged_values_in_text(tree.operator().text(), parts);
    let whole = merged(tree.operator().text(), parts);
    if tree.is_composite(nested) {
        assert forall|placeholder: Seq<char>| #[trigger]
            whole.values.dom().contains(placeholder) implies occurs(
            placeholder,
            wrapped(whole).expression,
        ) by {
            lemma_occurs_within(placeholder, "("@, whole.expression, ")"@);
        }
    }
}

/// Determinism. Nothing but the tree, the path, the counter and the nesting
/// decides what a pass compiles to: two condition maps that stand for the
/// same tree, compiled under the same path from the same counter, give the
/// same expression text and the same tables, list the conditions and the
/// subtrees in the order in which the tree holds them, and leave the counter
/// at the same place.
pub proof fn lemma_condition_deterministic(
    first: ConditionMap<AttributeValue>,
    second: ConditionMap<AttributeValue>,
    path: Seq<Seq<char>>,
    index: nat,
    nested: bool,
    first_atom: ExpressionInput,
    second_atom: ExpressionInput,
    first_end: nat,
    second_end: nat,
)
    requires
        first@ == second@,
        first_atom@ == first@.compiled(path, index, nested),
        first_end == index + first@.operand_count(),
        second_atom@ == second@.compiled(path, index, nested),
        second_end == index + second@.operand_count(),
    ensures
        first_atom@ == second_atom@,
        first_end == second_end,
{
}

/// A node with a single child compiles to what the child compiles to under
/// the path that the node's segment extends: the same expression text,
/// without brackets of its own and without its operator, and the same
/// values; the name placeholder of the segment is added; the counter ends
/// where the child leaves it.
pub proof fn lemma_condition_single_child(
    operator: LogicalOperator,
    segment: Seq<char>,
    child: ConditionTree<AttributeValue>,
    path: Seq<Seq<char>>,
    index: nat,
    nested: bool,
)
    ensures
        ConditionTree::Node(operator, seq![(segment, child)]).compiled(path, index, nested)
            == child.compiled(path.push(name_placeholder(segment)), index, nested).with_name(
            name_placeholder(segment),
            segment,
        ),
        ConditionTree::Node(operator, seq![(segment, child)]).operand_count()
            == child.operand_count(),
{
    let node = ConditionTree::Node(operator, seq![(segment, child)]);
    let inner = child.compiled(path.push(name_placeholder(segment)), index, nested).with_name(
        name_placeholder(segment),
        segment,
    );
    assert(node.counts().take(0) =~= Seq::<nat>::empty());
    assert(node.counter_at(index, 0) == index);
    assert(node.parts(path, index, nested) =~= seq![inner]);
    lemma_merged_single(operator.text(), inner);
    assert(node.counts() =~= seq![child.operand_count()]);
    assert(seq![child.operand_count()].drop_last() =~= Seq::<nat>::empty());
    assert(total(seq![child.operand_count()].drop_last()) == 0);
}

} // verus!
