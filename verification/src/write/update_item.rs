//! Update expressions: SET, ADD, DELETE and REMOVE clauses and their
//! combination.

use crate::common::attribute_map::AttributeMap;
use crate::common::condition::{
    condition_stem, lemma_condition_stem, lemma_condition_values_unique, ConditionTree,
    ConditionView,
};
use crate::common::key::Keys;
use crate::common::placeholder::{
    add_count, allocated, counter_of, is_stem, lemma_bindings_dom, lemma_counter_of_numbered,
    lemma_total_take, member, numbered, numbered_placeholder, total,
};
use crate::common::selection::{
    lemma_selection_names_sound, lemma_selection_no_values, segments_of, SelectionMap,
    SelectionTree,
};
use crate::common::{
    add_placeholder, all_differ, all_placeholders, atoms, join_path, lemma_merged_allocated,
    lemma_merged_names_sound, lemma_merged_single, lemma_merged_values_all,
    lemma_merged_values_in_text, lemma_occurs_between, lemma_occurs_within, merged,
    name_placeholder, names_sound, occurs, optional_names, optional_values, path_text, segments,
    segments_differ, spliced, texts, values_in_text, Atom, ExpressionInput,
};
use crate::read::common::{countable, filter, filter_count, names_of, values_of};
use crate::text::{decimal, lemma_decimal_digits, lemma_digit_run, stem};
use crate::write::common::{WriteArgs, WriteInput};
use aws_sdk_dynamodb::types::AttributeValue;
use vstd::prelude::*;

verus! {

/// What a SET clause does to one attribute.
#[derive(Debug, PartialEq)]
pub enum SetInput<T> {
    /// Puts the value in place of what the attribute held.
    Assign(T),
    /// Adds the value to the number that the attribute holds.
    Increment(T),
    /// Subtracts the value from the number that the attribute holds.
    Decrement(T),
    /// Appends the value to the list that the attribute holds.
    ListAppend(T),
    /// Puts the value in front of the list that the attribute holds.
    ListPrepend(T),
    /// Puts the value only where the attribute does not exist.
    IfNotExists(T),
}

impl<T> SetInput<T> {
    /// The value that the action carries.
    pub open spec fn value(self) -> T {
        match self {
            SetInput::Assign(value) => value,
            SetInput::Increment(value) => value,
            SetInput::Decrement(value) => value,
            SetInput::ListAppend(value) => value,
            SetInput::ListPrepend(value) => value,
            SetInput::IfNotExists(value) => value,
        }
    }

    /// The expression text of the action on the attribute at `path`, its
    /// value standing behind `placeholder`.
    pub open spec fn expression(self, path: Seq<char>, placeholder: Seq<char>) -> Seq<char> {
        match self {
            SetInput::Assign(_) => path + " = "@ + placeholder,
            SetInput::Increment(_) => path + " = "@ + path + " + "@ + placeholder,
            SetInput::Decrement(_) => path + " = "@ + path + " - "@ + placeholder,
            SetInput::ListAppend(_) => path + " = list_append("@ + path + ", "@ + placeholder
                + ")"@,
            SetInput::ListPrepend(_) => path + " = list_append("@ + placeholder + ", "@ + path
                + ")"@,
            SetInput::IfNotExists(_) => path + " = if_not_exists("@ + path + ", "@ + placeholder
                + ")"@,
        }
    }

    /// Takes the action apart: returns its value and its expression text on
    /// the attribute at `path`, the value standing behind
    /// `value_placeholder`.
    pub fn get_set_expression(self, path: &str, value_placeholder: &str) -> (taken: (T, String))
        ensures
            taken.0 == self.value(),
            taken.1@ == self.expression(path@, value_placeholder@),
    {
        let mut expression = String::from_str(path);
        match self {
            SetInput::Assign(value) => {
                expression.append(" = ");
                expression.append(value_placeholder);
                (value, expression)
            },
            SetInput::Increment(value) => {
                expression.append(" = ");
                expression.append(path);
                expression.append(" + ");
                expression.append(value_placeholder);
                (value, expression)
            },
            SetInput::Decrement(value) => {
                expression.append(" = ");
                expression.append(path);
                expression.append(" - ");
                expression.append(value_placeholder);
                (value, expression)
            },
            SetInput::ListAppend(value) => {
                expression.append(" = list_append(");
                expression.append(path);
                expression.append(", ");
                expression.append(value_placeholder);
                expression.append(")");
                (value, expression)
            },
            SetInput::ListPrepend(value) => {
                expression.append(" = list_append(");
                expression.append(value_placeholder);
                expression.append(", ");
                expression.append(path);
                expression.append(")");
                (value, expression)
            },
            SetInput::IfNotExists(value) => {
                expression.append(" = if_not_exists(");
                expression.append(path);
                expression.append(", ");
                expression.append(value_placeholder);
                expression.append(")");
                (value, expression)
            },
        }
    }
}

/// A tree of values to add to, or to delete from, attributes.
#[derive(Debug, PartialEq)]
pub enum AddOrDeleteInputsMap<T> {
    /// Attributes directly under the current path, each with its value.
    Leaves(Vec<(String, T)>),
    /// Subtrees, each under one more path segment, in the order given.
    Node(Vec<(String, AddOrDeleteInputsMap<T>)>),
}

/// The mathematical tree that an `AddOrDeleteInputsMap` stands for.
pub enum AddOrDeleteTree<T> {
    Leaves(Seq<(Seq<char>, T)>),
    Node(Seq<(Seq<char>, AddOrDeleteTree<T>)>),
}

/// The tree that `map` stands for.
pub open spec fn add_or_delete_tree<T>(map: AddOrDeleteInputsMap<T>) -> AddOrDeleteTree<T>
    decreases map,
{
    match map {
        AddOrDeleteInputsMap::Leaves(leaves) => AddOrDeleteTree::Leaves(
            leaves@.map_values(|leaf: (String, T)| (leaf.0@, leaf.1)),
        ),
        AddOrDeleteInputsMap::Node(children) => AddOrDeleteTree::Node(
            Seq::new(
                children@.len(),
                |i: int|
                    if 0 <= i < children@.len() {
                        (children@[i].0@, add_or_delete_tree(children@[i].1))
                    } else {
                        (Seq::empty(), AddOrDeleteTree::Leaves(Seq::empty()))
                    },
            ),
        ),
    }
}

impl<T> View for AddOrDeleteInputsMap<T> {
    type V = AddOrDeleteTree<T>;

    open spec fn view(&self) -> AddOrDeleteTree<T> {
        add_or_delete_tree(*self)
    }
}

/// The value placeholder of an ADD or DELETE clause allocated at `index`.
pub open spec fn add_or_delete_placeholder(index: nat) -> Seq<char> {
    numbered(":add_or_delete"@, index)
}

/// The value placeholder of a SET clause allocated at `index`.
pub open spec fn set_placeholder(index: nat) -> Seq<char> {
    numbered(":set"@, index)
}

/// The atom that adds `value` to, or deletes it from, the attribute `name`
/// under `path`, its value placeholder allocated at counter `index`.
pub open spec fn add_or_delete_leaf(
    path: Seq<Seq<char>>,
    name: Seq<char>,
    value: AttributeValue,
    index: nat,
) -> Atom {
    Atom {
        expression: path_text(path.push(name_placeholder(name))) + " "@
            + add_or_delete_placeholder(index),
        names: map![name_placeholder(name) => name],
        values: map![add_or_delete_placeholder(index) => value],
    }
}

/// The atom that sets the attribute `name` under `path` as `input` says, its
/// value placeholder allocated at counter `index`.
pub open spec fn set_leaf(
    path: Seq<Seq<char>>,
    name: Seq<char>,
    input: SetInput<AttributeValue>,
    index: nat,
) -> Atom {
    Atom {
        expression: input.expression(
            path_text(path.push(name_placeholder(name))),
            set_placeholder(index),
        ),
        names: map![name_placeholder(name) => name],
        values: map![set_placeholder(index) => input.value()],
    }
}

impl<T> AddOrDeleteTree<T> {
    /// Whether no node of the tree holds two subtrees under the same path
    /// segment, as where each node was made from an ordered map. Compiling
    /// does not ask for it.
    pub open spec fn distinct_segments(self) -> bool
        decreases self,
    {
        match self {
            AddOrDeleteTree::Leaves(_) => true,
            AddOrDeleteTree::Node(children) => {
                &&& all_differ(segments_of(children))
                &&& forall|i: int|
                    0 <= i < children.len() ==> (#[trigger] children[i]).1.distinct_segments()
            },
        }
    }

    /// How many value placeholders each part under the root takes.
    pub open spec fn counts(self) -> Seq<nat>
        decreases self, 0nat,
    {
        match self {
            AddOrDeleteTree::Leaves(leaves) => Seq::new(leaves.len(), |i: int| 1nat),
            AddOrDeleteTree::Node(children) => Seq::new(
                children.len(),
                |i: int|
                    if 0 <= i < children.len() {
                        children[i].1.operand_count()
                    } else {
                        0
                    },
            ),
        }
    }

    /// How many value placeholders the tree takes: one for each leaf.
    pub open spec fn operand_count(self) -> nat
        decreases self, 1nat,
    {
        total(self.counts())
    }

    /// The counter at which the part at `position` under the root starts.
    pub open spec fn counter_at(self, index: nat, position: int) -> nat {
        index + total(self.counts().take(position))
    }
}

impl AddOrDeleteTree<AttributeValue> {
    /// The atoms of the parts under the root, in their order.
    pub open spec fn parts(self, path: Seq<Seq<char>>, index: nat) -> Seq<Atom>
        decreases self, 2nat,
    {
        match self {
            AddOrDeleteTree::Leaves(leaves) => Seq::new(
                leaves.len(),
                |i: int|
                    add_or_delete_leaf(path, leaves[i].0, leaves[i].1, self.counter_at(index, i)),
            ),
            AddOrDeleteTree::Node(children) => Seq::new(
                children.len(),
                |i: int|
                    if 0 <= i < children.len() {
                        children[i].1.compiled(
                            path.push(name_placeholder(children[i].0)),
                            self.counter_at(index, i),
                        ).with_name(name_placeholder(children[i].0), children[i].0)
                    } else {
                        Atom::empty()
                    },
            ),
        }
    }

    /// What the tree compiles to under `path` from counter `index` on: the
    /// atoms of its leaves, joined by a space.
    pub open spec fn compiled(self, path: Seq<Seq<char>>, index: nat) -> Atom
        decreases self, 3nat,
    {
        merged(" "@, self.parts(path, index))
    }
}

impl<T> AddOrDeleteInputsMap<T> {
    /// Whether no node of the tree holds two subtrees under the same path
    /// segment.
    pub fn has_distinct_segments(&self) -> (distinct: bool)
        ensures
            distinct == self@.distinct_segments(),
        decreases self,
    {
        match self {
            AddOrDeleteInputsMap::Leaves(_) => true,
            AddOrDeleteInputsMap::Node(map) => {
                let ghost children = self@->Node_0;
                proof {
                    assert(segments(map@) =~= segments_of(children));
                }
                if !segments_differ(map) {
                    return false;
                }
                for i in 0..map.len()
                    invariant
                        decreases_to!(self => map),
                        self@ is Node,
                        self@->Node_0 == children,
                        all_differ(segments_of(children)),
                        children.len() == map.len(),
                        forall|j: int|
                            0 <= j < map.len() ==> (#[trigger] children[j]).1 == map[j].1@,
                        forall|j: int|
                            0 <= j < i ==> (#[trigger] children[j]).1.distinct_segments(),
                {
                    proof {
                        vstd::std_specs::vec::axiom_vec_index_decreases(*map, i as int);
                    }
                    if !map[i].1.has_distinct_segments() {
                        assert(!children[i as int].1.distinct_segments());
                        return false;
                    }
                }
                true
            },
        }
    }

    /// How many value placeholders the tree takes, if a counter can count
    /// them.
    pub fn operand_count(&self) -> (count: Option<usize>)
        ensures
            match count {
                Some(n) => n == self@.operand_count(),
                None => self@.operand_count() > usize::MAX,
            },
        decreases self,
    {
        let ghost counts = self@.counts();
        let mut sum: Option<usize> = Some(0);
        match self {
            AddOrDeleteInputsMap::Leaves(leaves) => {
                for i in 0..leaves.len()
                    invariant
                        counts.len() == leaves.len(),
                        forall|j: int| 0 <= j < leaves.len() ==> #[trigger] counts[j] == 1,
                        match sum {
                            Some(n) => n == total(counts.take(i as int)),
                            None => total(counts.take(i as int)) > usize::MAX,
                        },
                {
                    sum = add_count(sum, Some(1), Ghost(counts), Ghost(i as int));
                }
                proof {
                    assert(counts.take(leaves.len() as int) =~= counts);
                }
            },
            AddOrDeleteInputsMap::Node(map) => {
                for i in 0..map.len()
                    invariant
                        decreases_to!(self => map),
                        counts.len() == map.len(),
                        forall|j: int|
                            0 <= j < map.len() ==> #[trigger] counts[j]
                                == map[j].1@.operand_count(),
                        match sum {
                            Some(n) => n == total(counts.take(i as int)),
                            None => total(counts.take(i as int)) > usize::MAX,
                        },
                {
                    proof {
                        vstd::std_specs::vec::axiom_vec_index_decreases(*map, i as int);
                    }
                    let count = map[i].1.operand_count();
                    sum = add_count(sum, count, Ghost(counts), Ghost(i as int));
                }
                proof {
                    assert(counts.take(map.len() as int) =~= counts);
                }
            },
        }
        sum
    }
}

impl AddOrDeleteInputsMap<AttributeValue> {
    /// Compiles this tree under the path `keys`, and advances the counter
    /// `index` by one for each leaf.
    pub fn get_add_or_delete_expression_recursive(
        self,
        keys: &[String],
        index: &mut usize,
    ) -> (atom: ExpressionInput)
        requires
            *old(index) + self@.operand_count() <= usize::MAX,
        ensures
            atom@ == self@.compiled(texts(keys@), *old(index) as nat),
            *final(index) == *old(index) + self@.operand_count(),
        decreases self,
    {
        let ghost path = texts(keys@);
        let ghost first = *index as nat;
        let ghost counts = self@.counts();
        let ghost parts = self@.parts(path, first);
        let mut operations: Vec<ExpressionInput> = Vec::new();
        match self {
            AddOrDeleteInputsMap::Leaves(leaves) => {
                let ghost all = leaves@;
                for leaf in it: leaves.into_iter()
                    invariant
                        it.seq() == all,
                        path == texts(keys@),
                        counts.len() == all.len(),
                        forall|j: int| 0 <= j < all.len() ==> #[trigger] counts[j] == 1,
                        first + total(counts) <= usize::MAX,
                        *index == first + total(counts.take(it.index() as int)),
                        parts.len() == all.len(),
                        forall|j: int|
                            0 <= j < all.len() ==> #[trigger] parts[j] == add_or_delete_leaf(
                                path,
                                all[j].0@,
                                all[j].1,
                                first + total(counts.take(j)),
                            ),
                        operations.len() == it.index(),
                        forall|j: int|
                            0 <= j < it.index() ==> (#[trigger] operations[j])@ == parts[j],
                {
                    proof {
                        lemma_total_take(counts, it.index() as int);
                    }
                    let (key, value) = leaf;
                    let (placeholder, new_keys) = add_placeholder(keys, key.as_str());
                    let mut expression = join_path(&new_keys);
                    let value_placeholder = numbered_placeholder(
                        String::from_str(":add_or_delete"),
                        *index,
                    );
                    *index = *index + 1;
                    expression.append(" ");
                    expression.append(value_placeholder.as_str());
                    let mut expression_attribute_names: AttributeMap<String> = AttributeMap::new();
                    expression_attribute_names.insert(placeholder, key);
                    let mut expression_attribute_values: AttributeMap<AttributeValue> =
                        AttributeMap::new();
                    expression_attribute_values.insert(value_placeholder, value);
                    let operation = ExpressionInput {
                        expression,
                        expression_attribute_names,
                        expression_attribute_values,
                    };
                    proof {
                        let expected = parts[it.index() as int];
                        assert(operation@.names =~= expected.names);
                        assert(operation@.values =~= expected.values);
                    }
                    operations.push(operation);
                }
                proof {
                    assert(counts.take(all.len() as int) =~= counts);
                }
            },
            AddOrDeleteInputsMap::Node(map) => {
                let ghost all = map@;
                proof {
                    assert(decreases_to!(self => map));
                }
                for entry in it: map.into_iter()
                    invariant
                        it.seq() == all,
                        all == map@,
                        decreases_to!(self => map),
                        path == texts(keys@),
                        counts.len() == all.len(),
                        forall|j: int|
                            0 <= j < all.len() ==> #[trigger] counts[j]
                                == all[j].1@.operand_count(),
                        first + total(counts) <= usize::MAX,
                        *index == first + total(counts.take(it.index() as int)),
                        parts.len() == all.len(),
                        forall|j: int|
                            0 <= j < all.len() ==> #[trigger] parts[j] == all[j].1@.compiled(
                                path.push(name_placeholder(all[j].0@)),
                                first + total(counts.take(j)),
                            ).with_name(name_placeholder(all[j].0@), all[j].0@),
                        operations.len() == it.index(),
                        forall|j: int|
                            0 <= j < it.index() ==> (#[trigger] operations[j])@ == parts[j],
                {
                    proof {
                        lemma_total_take(counts, it.index() as int);
                        assert(entry == map[it.index() as int]);
                        vstd::std_specs::vec::axiom_vec_index_decreases(map, it.index() as int);
                    }
                    let (key, value) = entry;
                    let (placeholder, new_keys) = add_placeholder(keys, key.as_str());
                    let mut operation = value.get_add_or_delete_expression_recursive(
                        new_keys.as_slice(),
                        index,
                    );
                    let ghost inner = operation@;
                    operation.expression_attribute_names.insert(placeholder, key);
                    proof {
                        assert(operation@.names =~= inner.names.insert(
                            name_placeholder(key@),
                            key@,
                        ));
                    }
                    operations.push(operation);
                }
                proof {
                    assert(counts.take(all.len() as int) =~= counts);
                }
            },
        }
        proof {
            assert(atoms(operations@) =~= parts);
        }
        ExpressionInput::merge(" ", operations)
    }
}

/// A tree of SET actions.
#[derive(Debug, PartialEq)]
pub enum SetInputsMap<T> {
    /// Attributes directly under the current path, each with its action.
    Leaves(Vec<(String, SetInput<T>)>),
    /// Subtrees, each under one more path segment, in the order given.
    Node(Vec<(String, SetInputsMap<T>)>),
}

/// The mathematical tree that a `SetInputsMap` stands for.
pub enum SetTree<T> {
    Leaves(Seq<(Seq<char>, SetInput<T>)>),
    Node(Seq<(Seq<char>, SetTree<T>)>),
}

/// The tree that `map` stands for.
pub open spec fn set_tree<T>(map: SetInputsMap<T>) -> SetTree<T>
    decreases map,
{
    match map {
        SetInputsMap::Leaves(leaves) => SetTree::Leaves(
            leaves@.map_values(|leaf: (String, SetInput<T>)| (leaf.0@, leaf.1)),
        ),
        SetInputsMap::Node(children) => SetTree::Node(
            Seq::new(
                children@.len(),
                |i: int|
                    if 0 <= i < children@.len() {
                        (children@[i].0@, set_tree(children@[i].1))
                    } else {
                        (Seq::empty(), SetTree::Leaves(Seq::empty()))
                    },
            ),
        ),
    }
}

impl<T> View for SetInputsMap<T> {
    type V = SetTree<T>;

    open spec fn view(&self) -> SetTree<T> {
        set_tree(*self)
    }
}

impl<T> SetTree<T> {
    /// Whether no node of the tree holds two subtrees under the same path
    /// segment, as where each node was made from an ordered map. Compiling
    /// does not ask for it.
    pub open spec fn distinct_segments(self) -> bool
        decreases self,
    {
        match self {
            SetTree::Leaves(_) => true,
            SetTree::Node(children) => {
                &&& all_differ(segments_of(children))
                &&& forall|i: int|
                    0 <= i < children.len() ==> (#[trigger] children[i]).1.distinct_segments()
            },
        }
    }

    /// How many value placeholders each part under the root takes.
    pub open spec fn counts(self) -> Seq<nat>
        decreases self, 0nat,
    {
        match self {
            SetTree::Leaves(leaves) => Seq::new(leaves.len(), |i: int| 1nat),
            SetTree::Node(children) => Seq::new(
                children.len(),
                |i: int|
                    if 0 <= i < children.len() {
                        children[i].1.operand_count()
                    } else {
                        0
                    },
            ),
        }
    }

    /// How many value placeholders the tree takes: one for each leaf.
    pub open spec fn operand_count(self) -> nat
        decreases self, 1nat,
    {
        total(self.counts())
    }

    /// The counter at which the part at `position` under the root starts.
    pub open spec fn counter_at(self, index: nat, position: int) -> nat {
        index + total(self.counts().take(position))
    }
}

impl SetTree<AttributeValue> {
    /// The atoms of the parts under the root, in their order.
    pub open spec fn parts(self, path: Seq<Seq<char>>, index: nat) -> Seq<Atom>
        decreases self, 2nat,
    {
        match self {
            SetTree::Leaves(leaves) => Seq::new(
                leaves.len(),
                |i: int| set_leaf(path, leaves[i].0, leaves[i].1, self.counter_at(index, i)),
            ),
            SetTree::Node(children) => Seq::new(
                children.len(),
                |i: int|
                    if 0 <= i < children.len() {
                        children[i].1.compiled(
                            path.push(name_placeholder(children[i].0)),
                            self.counter_at(index, i),
                        ).with_name(name_placeholder(children[i].0), children[i].0)
                    } else {
                        Atom::empty()
                    },
            ),
        }
    }

    /// What the tree compiles to under `path` from counter `index` on: the
    /// atoms of its leaves, joined by a comma and a space.
    pub open spec fn compiled(self, path: Seq<Seq<char>>, index: nat) -> Atom
        decreases self, 3nat,
    {
        merged(", "@, self.parts(path, index))
    }
}

impl<T> SetInputsMap<T> {
    /// Whether no node of the tree holds two subtrees under the same path
    /// segment.
    pub fn has_distinct_segments(&self) -> (distinct: bool)
        ensures
            distinct == self@.distinct_segments(),
        decreases self,
    {
        match self {
            SetInputsMap::Leaves(_) => true,
            SetInputsMap::Node(map) => {
                let ghost children = self@->Node_0;
                proof {
                    assert(segments(map@) =~= segments_of(children));
                }
                if !segments_differ(map) {
                    return false;
                }
                for i in 0..map.len()
                    invariant
                        decreases_to!(self => map),
                        self@ is Node,
                        self@->Node_0 == children,
                        all_differ(segments_of(children)),
                        children.len() == map.len(),
                        forall|j: int|
                            0 <= j < map.len() ==> (#[trigger] children[j]).1 == map[j].1@,
                        forall|j: int|
                            0 <= j < i ==> (#[trigger] children[j]).1.distinct_segments(),
                {
                    proof {
                        vstd::std_specs::vec::axiom_vec_index_decreases(*map, i as int);
                    }
                    if !map[i].1.has_distinct_segments() {
                        assert(!children[i as int].1.distinct_segments());
                        return false;
                    }
                }
                true
            },
        }
    }

    /// How many value placeholders the tree takes, if a counter can count
    /// them.
    pub fn operand_count(&self) -> (count: Option<usize>)
        ensures
            match count {
                Some(n) => n == self@.operand_count(),
                None => self@.operand_count() > usize::MAX,
            },
        decreases self,
    {
        let ghost counts = self@.counts();
        let mut sum: Option<usize> = Some(0);
        match self {
            SetInputsMap::Leaves(leaves) => {
                for i in 0..leaves.len()
                    invariant
                        counts.len() == leaves.len(),
                        forall|j: int| 0 <= j < leaves.len() ==> #[trigger] counts[j] == 1,
                        match sum {
                            Some(n) => n == total(counts.take(i as int)),
                            None => total(counts.take(i as int)) > usize::MAX,
                        },
                {
                    sum = add_count(sum, Some(1), Ghost(counts), Ghost(i as int));
                }
                proof {
                    assert(counts.take(leaves.len() as int) =~= counts);
                }
            },
            SetInputsMap::Node(map) => {
                for i in 0..map.len()
                    invariant
                        decreases_to!(self => map),
                        counts.len() == map.len(),
                        forall|j: int|
                            0 <= j < map.len() ==> #[trigger] counts[j]
                                == map[j].1@.operand_count(),
                        match sum {
                            Some(n) => n == total(counts.take(i as int)),
                            None => total(counts.take(i as int)) > usize::MAX,
                        },
                {
                    proof {
                        vstd::std_specs::vec::axiom_vec_index_decreases(*map, i as int);
                    }
                    let count = map[i].1.operand_count();
                    sum = add_count(sum, count, Ghost(counts), Ghost(i as int));
                }
                proof {
                    assert(counts.take(map.len() as int) =~= counts);
                }
            },
        }
        sum
    }
}

impl SetInputsMap<AttributeValue> {
    /// Compiles this tree under the path `keys`, and advances the counter
    /// `index` by one for each leaf.
    pub fn get_set_expression_recursive(self, keys: &[String], index: &mut usize) -> (atom:
        ExpressionInput)
        requires
            *old(index) + self@.operand_count() <= usize::MAX,
        ensures
            atom@ == self@.compiled(texts(keys@), *old(index) as nat),
            *final(index) == *old(index) + self@.operand_count(),
        decreases self,
    {
        let ghost path = texts(keys@);
        let ghost first = *index as nat;
        let ghost counts = self@.counts();
        let ghost parts = self@.parts(path, first);
        let mut operations: Vec<ExpressionInput> = Vec::new();
        match self {
            SetInputsMap::Leaves(leaves) => {
                let ghost all = leaves@;
                for leaf in it: leaves.into_iter()
                    invariant
                        it.seq() == all,
                        path == texts(keys@),
                        counts.len() == all.len(),
                        forall|j: int| 0 <= j < all.len() ==> #[trigger] counts[j] == 1,
                        first + total(counts) <= usize::MAX,
                        *index == first + total(counts.take(it.index() as int)),
                        parts.len() == all.len(),
                        forall|j: int|
                            0 <= j < all.len() ==> #[trigger] parts[j] == set_leaf(
                                path,
                                all[j].0@,
                                all[j].1,
                                first + total(counts.take(j)),
                            ),
                        operations.len() == it.index(),
                        forall|j: int|
                            0 <= j < it.index() ==> (#[trigger] operations[j])@ == parts[j],
                {
                    proof {
                        lemma_total_take(counts, it.index() as int);
                    }
                    let (key, set_operation) = leaf;
                    let (placeholder, new_keys) = add_placeholder(keys, key.as_str());
                    let path_text = join_path(&new_keys);
                    let value_placeholder = numbered_placeholder(String::from_str(":set"), *index);
                    let (value, expression) = set_operation.get_set_expression(
                        path_text.as_str(),
                        value_placeholder.as_str(),
                    );
                    *index = *index + 1;
                    let mut expression_attribute_names: AttributeMap<String> = AttributeMap::new();
                    expression_attribute_names.insert(placeholder, key);
                    let mut expression_attribute_values: AttributeMap<AttributeValue> =
                        AttributeMap::new();
                    expression_attribute_values.insert(value_placeholder, value);
                    let operation = ExpressionInput {
                        expression,
                        expression_attribute_names,
                        expression_attribute_values,
                    };
                    proof {
                        let expected = parts[it.index() as int];
                        assert(operation@.names =~= expected.names);
                        assert(operation@.values =~= expected.values);
                    }
                    operations.push(operation);
                }
                proof {
                    assert(counts.take(all.len() as int) =~= counts);
                }
            },
            SetInputsMap::Node(map) => {
                let ghost all = map@;
                proof {
                    assert(decreases_to!(self => map));
                }
                for entry in it: map.into_iter()
                    invariant
                        it.seq() == all,
                        all == map@,
                        decreases_to!(self => map),
                        path == texts(keys@),
                        counts.len() == all.len(),
                        forall|j: int|
                            0 <= j < all.len() ==> #[trigger] counts[j]
                                == all[j].1@.operand_count(),
                        first + total(counts) <= usize::MAX,
                        *index == first + total(counts.take(it.index() as int)),
                        parts.len() == all.len(),
                        forall|j: int|
                            0 <= j < all.len() ==> #[trigger] parts[j] == all[j].1@.compiled(
                                path.push(name_placeholder(all[j].0@)),
                                first + total(counts.take(j)),
                            ).with_name(name_placeholder(all[j].0@), all[j].0@),
                        operations.len() == it.index(),
                        forall|j: int|
                            0 <= j < it.index() ==> (#[trigger] operations[j])@ == parts[j],
                {
                    proof {
                        lemma_total_take(counts, it.index() as int);
                        assert(entry == map[it.index() as int]);
                        vstd::std_specs::vec::axiom_vec_index_decreases(map, it.index() as int);
                    }
                    let (key, value) = entry;
                    let (placeholder, new_keys) = add_placeholder(keys, key.as_str());
                    let mut operation = value.get_set_expression_recursive(
                        new_keys.as_slice(),
                        index,
                    );
                    let ghost inner = operation@;
                    operation.expression_attribute_names.insert(placeholder, key);
                    proof {
                        assert(operation@.names =~= inner.names.insert(
                            name_placeholder(key@),
                            key@,
                        ));
                    }
                    operations.push(operation);
                }
                proof {
                    assert(counts.take(all.len() as int) =~= counts);
                }
            },
        }
        proof {
            assert(atoms(operations@) =~= parts);
        }
        ExpressionInput::merge(", ", operations)
    }
}

/// An update expression: one clause, or several combined.
#[derive(Debug, PartialEq)]
pub enum UpdateExpressionMap<T> {
    /// An ADD clause.
    Add(AddOrDeleteInputsMap<T>),
    /// A DELETE clause.
    Delete(AddOrDeleteInputsMap<T>),
    /// A REMOVE clause.
    Remove(SelectionMap),
    /// A SET clause.
    SetValues(SetInputsMap<T>),
    /// Several update expressions, in the order given.
    Combined(Vec<UpdateExpressionMap<T>>),
}

/// The mathematical tree that an `UpdateExpressionMap` stands for.
pub enum UpdateTree<T> {
    Add(AddOrDeleteTree<T>),
    Delete(AddOrDeleteTree<T>),
    Remove(SelectionTree),
    SetValues(SetTree<T>),
    Combined(Seq<UpdateTree<T>>),
}

/// The tree that `map` stands for.
pub open spec fn update_tree<T>(map: UpdateExpressionMap<T>) -> UpdateTree<T>
    decreases map,
{
    match map {
        UpdateExpressionMap::Add(inputs) => UpdateTree::Add(inputs@),
        UpdateExpressionMap::Delete(inputs) => UpdateTree::Delete(inputs@),
        UpdateExpressionMap::Remove(selection) => UpdateTree::Remove(selection@),
        UpdateExpressionMap::SetValues(inputs) => UpdateTree::SetValues(inputs@),
        UpdateExpressionMap::Combined(items) => UpdateTree::Combined(
            Seq::new(
                items@.len(),
                |i: int|
                    if 0 <= i < items@.len() {
                        update_tree(items@[i])
                    } else {
                        UpdateTree::Combined(Seq::empty())
                    },
            ),
        ),
    }
}

impl<T> View for UpdateExpressionMap<T> {
    type V = UpdateTree<T>;

    open spec fn view(&self) -> UpdateTree<T> {
        update_tree(*self)
    }
}

/// An atom with a clause keyword before its expression text.
pub open spec fn clause(keyword: Seq<char>, atom: Atom) -> Atom {
    Atom { expression: keyword + atom.expression, ..atom }
}

impl<T> UpdateTree<T> {
    /// Whether no node of a tree of the expression holds two subtrees under
    /// the same path segment.
    pub open spec fn distinct_segments(self) -> bool
        decreases self,
    {
        match self {
            UpdateTree::Add(inputs) => inputs.distinct_segments(),
            UpdateTree::Delete(inputs) => inputs.distinct_segments(),
            UpdateTree::Remove(selection) => selection.distinct_segments(),
            UpdateTree::SetValues(inputs) => inputs.distinct_segments(),
            UpdateTree::Combined(items) => forall|i: int|
                0 <= i < items.len() ==> (#[trigger] items[i]).distinct_segments(),
        }
    }

    /// How many value placeholders each of the combined expressions takes;
    /// empty for a single clause.
    pub open spec fn counts(self) -> Seq<nat>
        decreases self, 0nat,
    {
        match self {
            UpdateTree::Combined(items) => Seq::new(
                items.len(),
                |i: int|
                    if 0 <= i < items.len() {
                        items[i].operand_count()
                    } else {
                        0
                    },
            ),
            _ => Seq::empty(),
        }
    }

    /// How many value placeholders the expression takes. A REMOVE clause
    /// takes none.
    pub open spec fn operand_count(self) -> nat
        decreases self, 1nat,
    {
        match self {
            UpdateTree::Add(inputs) => inputs.operand_count(),
            UpdateTree::Delete(inputs) => inputs.operand_count(),
            UpdateTree::Remove(_) => 0,
            UpdateTree::SetValues(inputs) => inputs.operand_count(),
            UpdateTree::Combined(_) => total(self.counts()),
        }
    }

    /// The counter at which the combined expression at `position` starts:
    /// the counter runs on from clause to clause.
    pub open spec fn counter_at(self, index: nat, position: int) -> nat {
        index + total(self.counts().take(position))
    }
}

impl UpdateTree<AttributeValue> {
    /// The atoms of the combined expressions, in their order; empty for a
    /// single clause.
    pub open spec fn parts(self, path: Seq<Seq<char>>, index: nat) -> Seq<Atom>
        decreases self, 2nat,
    {
        match self {
            UpdateTree::Combined(items) => Seq::new(
                items.len(),
                |i: int|
                    if 0 <= i < items.len() {
                        items[i].compiled(path, self.counter_at(index, i))
                    } else {
                        Atom::empty()
                    },
            ),
            _ => Seq::empty(),
        }
    }

    /// What the expression compiles to under `path` from counter `index` on:
    /// a clause is its keyword and what its tree compiles to; combined
    /// expressions are joined by a space.
    pub open spec fn compiled(self, path: Seq<Seq<char>>, index: nat) -> Atom
        decreases self, 3nat,
    {
        match self {
            UpdateTree::Add(inputs) => clause("ADD "@, inputs.compiled(path, index)),
            UpdateTree::Delete(inputs) => clause("DELETE "@, inputs.compiled(path, index)),
            UpdateTree::Remove(selection) => clause("REMOVE "@, selection.compiled(path)),
            UpdateTree::SetValues(inputs) => clause("SET "@, inputs.compiled(path, index)),
            UpdateTree::Combined(_) => merged(" "@, self.parts(path, index)),
        }
    }
}

/// Puts a clause keyword before the expression text of an atom.
fn with_keyword(keyword: &str, atom: ExpressionInput) -> (prefixed: ExpressionInput)
    ensures
        prefixed@ == clause(keyword@, atom@),
{
    let mut expression = String::from_str(keyword);
    expression.append(atom.expression.as_str());
    ExpressionInput {
        expression,
        expression_attribute_names: atom.expression_attribute_names,
        expression_attribute_values: atom.expression_attribute_values,
    }
}

impl<T> UpdateExpressionMap<T> {
    /// Whether no node of a tree of the expression holds two subtrees under
    /// the same path segment.
    pub fn has_distinct_segments(&self) -> (distinct: bool)
        ensures
            distinct == self@.distinct_segments(),
        decreases self,
    {
        match self {
            UpdateExpressionMap::Add(inputs) => inputs.has_distinct_segments(),
            UpdateExpressionMap::Delete(inputs) => inputs.has_distinct_segments(),
            UpdateExpressionMap::Remove(selection) => selection.has_distinct_segments(),
            UpdateExpressionMap::SetValues(inputs) => inputs.has_distinct_segments(),
            UpdateExpressionMap::Combined(items) => {
                let ghost parts = self@->Combined_0;
                for i in 0..items.len()
                    invariant
                        decreases_to!(self => items),
                        self@ is Combined,
                        self@->Combined_0 == parts,
                        parts.len() == items.len(),
                        forall|j: int| 0 <= j < items.len() ==> #[trigger] parts[j] == items[j]@,
                        forall|j: int| 0 <= j < i ==> (#[trigger] parts[j]).distinct_segments(),
                {
                    proof {
                        vstd::std_specs::vec::axiom_vec_index_decreases(*items, i as int);
                    }
                    if !items[i].has_distinct_segments() {
                        assert(!parts[i as int].distinct_segments());
                        return false;
                    }
                }
                true
            },
        }
    }

    /// How many value placeholders the expression takes, if a counter can
    /// count them.
    pub fn operand_count(&self) -> (count: Option<usize>)
        ensures
            match count {
                Some(n) => n == self@.operand_count(),
                None => self@.operand_count() > usize::MAX,
            },
        decreases self,
    {
        match self {
            UpdateExpressionMap::Add(inputs) => inputs.operand_count(),
            UpdateExpressionMap::Delete(inputs) => inputs.operand_count(),
            UpdateExpressionMap::Remove(_) => Some(0),
            UpdateExpressionMap::SetValues(inputs) => inputs.operand_count(),
            UpdateExpressionMap::Combined(items) => {
                let ghost counts = self@.counts();
                let mut sum: Option<usize> = Some(0);
                for i in 0..items.len()
                    invariant
                        decreases_to!(self => items),
                        counts.len() == items.len(),
                        forall|j: int|
                            0 <= j < items.len() ==> #[trigger] counts[j]
                                == items[j]@.operand_count(),
                        match sum {
                            Some(n) => n == total(counts.take(i as int)),
                            None => total(counts.take(i as int)) > usize::MAX,
                        },
                {
                    proof {
                        vstd::std_specs::vec::axiom_vec_index_decreases(*items, i as int);
                    }
                    let count = items[i].operand_count();
                    sum = add_count(sum, count, Ghost(counts), Ghost(i as int));
                }
                proof {
                    assert(counts.take(items.len() as int) =~= counts);
                }
                sum
            },
        }
    }
}

impl UpdateExpressionMap<AttributeValue> {
    /// Compiles this expression in a pass of its own: under the empty path,
    /// the counter starting at 0.
    pub fn compile(self) -> (atom: ExpressionInput)
        requires
            self@.operand_count() <= usize::MAX,
        ensures
            atom@ == self@.compiled(Seq::empty(), 0),
    {
        let keys: Vec<String> = Vec::new();
        let mut index: usize = 0;
        proof {
            assert(texts(keys@) =~= Seq::<Seq<char>>::empty());
        }
        self.get_update_expression_recursive(keys.as_slice(), &mut index)
    }

    /// Compiles this expression in a pass of its own where a counter can
    /// count its value placeholders, and says so where none can.
    pub fn checked_compile(self) -> (compiled: Option<ExpressionInput>)
        ensures
            match compiled {
                Some(atom) => self@.operand_count() <= usize::MAX && atom@ == self@.compiled(
                    Seq::empty(),
                    0,
                ),
                None => self@.operand_count() > usize::MAX,
            },
    {
        match self.operand_count() {
            Some(_) => Some(self.compile()),
            None => None,
        }
    }

    /// Compiles this expression under the path `keys`. One counter runs
    /// through all its clauses: `index` is advanced by one for each value
    /// placeholder.
    pub fn get_update_expression_recursive(self, keys: &[String], index: &mut usize) -> (atom:
        ExpressionInput)
        requires
            *old(index) + self@.operand_count() <= usize::MAX,
        ensures
            atom@ == self@.compiled(texts(keys@), *old(index) as nat),
            *final(index) == *old(index) + self@.operand_count(),
        decreases self,
    {
        match self {
            UpdateExpressionMap::Add(add_operations) => {
                let operation = add_operations.get_add_or_delete_expression_recursive(keys, index);
                with_keyword("ADD ", operation)
            },
            UpdateExpressionMap::Delete(delete_operations) => {
                let operation = delete_operations.get_add_or_delete_expression_recursive(
                    keys,
                    index,
                );
                with_keyword("DELETE ", operation)
            },
            UpdateExpressionMap::Remove(remove_operations) => {
                let operation = remove_operations.get_selection_operation_recursive(keys);
                with_keyword("REMOVE ", operation)
            },
            UpdateExpressionMap::SetValues(set_operations) => {
                let operation = set_operations.get_set_expression_recursive(keys, index);
                with_keyword("SET ", operation)
            },
            UpdateExpressionMap::Combined(combined_operations) => {
                let ghost path = texts(keys@);
                let ghost first = *index as nat;
                let ghost counts = self@.counts();
                let ghost parts = self@.parts(path, first);
                let ghost all = combined_operations@;
                let mut operations: Vec<ExpressionInput> = Vec::new();
                proof {
                    assert(decreases_to!(self => combined_operations));
                }
                for operation in it: combined_operations.into_iter()
                    invariant
                        it.seq() == all,
                        all == combined_operations@,
                        decreases_to!(self => combined_operations),
                        path == texts(keys@),
                        counts.len() == all.len(),
                        forall|j: int|
                            0 <= j < all.len() ==> #[trigger] counts[j] == all[j]@.operand_count(),
                        first + total(counts) <= usize::MAX,
                        *index == first + total(counts.take(it.index() as int)),
                        parts.len() == all.len(),
                        forall|j: int|
                            0 <= j < all.len() ==> #[trigger] parts[j] == all[j]@.compiled(
                                path,
                                first + total(counts.take(j)),
                            ),
                        operations.len() == it.index(),
                        forall|j: int|
                            0 <= j < it.index() ==> (#[trigger] operations[j])@ == parts[j],
                {
                    proof {
                        lemma_total_take(counts, it.index() as int);
                        assert(operation == combined_operations[it.index() as int]);
                        vstd::std_specs::vec::axiom_vec_index_decreases(
                            combined_operations,
                            it.index() as int,
                        );
                    }
                    let operation = operation.get_update_expression_recursive(keys, index);
                    operations.push(operation);
                }
                proof {
                    assert(counts.take(all.len() as int) =~= counts);
                    assert(atoms(operations@) =~= parts);
                }
                ExpressionInput::merge(" ", operations)
            },
        }
    }
}

/// A request that updates an item.
#[derive(Clone, Debug, PartialEq)]
pub struct UpdateItem<T> {
    /// The primary key of the item.
    pub keys: Keys<T>,
    /// What to change.
    pub update_expression: UpdateExpressionMap<T>,
    /// The table, the condition and what the response holds.
    pub write_args: WriteArgs<T>,
}

/// A request that updates an item, as it is sent.
#[derive(Debug)]
pub struct UpdateItemInput {
    /// The primary key, each component under the name of its attribute.
    pub keys: AttributeMap<AttributeValue>,
    /// The compiled update expression.
    pub update_expression: String,
    /// The table, the compiled condition and what the response holds.
    pub write_operation: WriteInput,
}

impl UpdateItemInput {
    /// Puts the request together: the key as a table, the condition
    /// compiled, then the update expression compiled in a pass of its own
    /// and its tables spliced into those of the request. No value of the
    /// condition is replaced: the table holds one value for each operand of
    /// the condition and for each value of the update expression.
    pub fn new(update_item: UpdateItem<AttributeValue>) -> (input: Self)
        requires
            countable(update_item.write_args.condition),
            update_item.update_expression@.operand_count() <= usize::MAX,
        ensures
            input.keys@ == update_item.keys@.attributes(),
            input.update_expression@ == update_item.update_expression@.compiled(
                Seq::empty(),
                0,
            ).expression,
            input.write_operation.holds(update_item.write_args),
            optional_names(input.write_operation.expression_attribute_names) == Some(
                spliced(
                    names_of(filter(update_item.write_args.condition)),
                    update_item.update_expression@.compiled(Seq::empty(), 0).names,
                ),
            ),
            optional_values(input.write_operation.expression_attribute_values) == Some(
                spliced(
                    values_of(filter(update_item.write_args.condition)),
                    update_item.update_expression@.compiled(Seq::empty(), 0).values,
                ),
            ),
            values_of(filter(update_item.write_args.condition)) matches Some(held)
                ==> held.dom().disjoint(
                update_item.update_expression@.compiled(Seq::empty(), 0).values.dom(),
            ),
            optional_values(input.write_operation.expression_attribute_values) matches Some(
                table,
            ) && table.dom().finite() && table.dom().len() == filter_count(
                update_item.write_args.condition,
            ) + update_item.update_expression@.operand_count(),
    {
        proof {
            lemma_update_values_unique(update_item.update_expression@, Seq::empty(), 0);
            if update_item.write_args.condition is Some {
                lemma_condition_and_update_apart(
                    update_item.write_args.condition->0@,
                    update_item.update_expression@,
                );
            }
        }
        let keys = update_item.keys.into_attributes();
        let mut write_operation = WriteInput::new(update_item.write_args);
        let operation = update_item.update_expression.compile();
        let update_expression = write_operation.merge_expression(operation);
        UpdateItemInput { keys, update_expression, write_operation }
    }
}

/// Determinism. Nothing but the tree, the path and the counter decides what
/// a pass compiles to, and the counter is the only state that a pass reads
/// or writes: two update expressions that stand for the same tree, compiled
/// under the same path from the same counter, give the same expression text
/// and the same tables and leave the counter at the same place.
pub proof fn lemma_update_deterministic(
    first: UpdateExpressionMap<AttributeValue>,
    second: UpdateExpressionMap<AttributeValue>,
    path: Seq<Seq<char>>,
    index: nat,
    first_atom: ExpressionInput,
    second_atom: ExpressionInput,
    first_end: nat,
    second_end: nat,
)
    requires
        first@ == second@,
        first_atom@ == first@.compiled(path, index),
        first_end == index + first@.operand_count(),
        second_atom@ == second@.compiled(path, index),
        second_end == index + second@.operand_count(),
    ensures
        first_atom@ == second_atom@,
        first_end == second_end,
{
}

/// Counter continuity. Each of the combined expressions is compiled from the
/// counter at which the one before it ended: the start of the pass plus the
/// values of all clauses before. The counter is never set back between
/// clauses, a REMOVE clause leaves it where it was, and the texts of the
/// clauses that are not empty stand in the order of the list with one space
/// between each two.
pub proof fn lemma_combined_counter(
    items: Seq<UpdateTree<AttributeValue>>,
    path: Seq<Seq<char>>,
    index: nat,
    at: int,
)
    requires
        0 <= at < items.len(),
    ensures
        ({
            let whole = UpdateTree::Combined(items);
            let before = whole.counter_at(index, at);
            &&& whole.parts(path, index).len() == items.len()
            &&& whole.parts(path, index)[at] == items[at].compiled(path, before)
            &&& whole.counter_at(index, 0) == index
            &&& whole.counter_at(index, at + 1) == before + items[at].operand_count()
            &&& items[at] is Remove ==> whole.counter_at(index, at + 1) == before
            &&& whole.counter_at(index, items.len() as int) == index + whole.operand_count()
            &&& whole.compiled(path, index) == merged(" "@, whole.parts(path, index))
        }),
{
    let whole = UpdateTree::Combined(items);
    let counts = whole.counts();
    lemma_total_take(counts, at);
    assert(counts.take(0) =~= Seq::<nat>::empty());
    assert(counts.take(items.len() as int) =~= counts);
}

/// A table with a single numbered placeholder holds one placeholder, which
/// carries its counter.
proof fn lemma_single_allocated(front: Seq<char>, index: nat, value: AttributeValue)
    requires
        is_stem(front),
    ensures
        allocated(map![numbered(front, index) => value], index, 1),
{
    lemma_counter_of_numbered(front, index);
    let table = map![numbered(front, index) => value];
    assert(table.dom() =~= set![numbered(front, index)]);
}

/// Value-placeholder uniqueness for ADD and DELETE clauses: the compiled tree
/// holds exactly one value placeholder for each leaf, each with a counter of
/// its own from the counter that the pass started at.
pub proof fn lemma_add_or_delete_values_unique(
    tree: AddOrDeleteTree<AttributeValue>,
    path: Seq<Seq<char>>,
    index: nat,
)
    ensures
        tree.compiled(path, index).values.dom().finite(),
        tree.compiled(path, index).values.dom().len() == tree.operand_count(),
        allocated(tree.compiled(path, index).values, index, tree.operand_count()),
    decreases tree,
{
    let parts = tree.parts(path, index);
    let counts = tree.counts();
    assert forall|i: int| 0 <= i < parts.len() implies allocated(
        (#[trigger] parts[i]).values,
        index + total(counts.take(i)),
        counts[i],
    ) by {
        match tree {
            AddOrDeleteTree::Leaves(leaves) => {
                reveal_strlit(":add_or_delete");
                lemma_single_allocated(
                    ":add_or_delete"@,
                    tree.counter_at(index, i),
                    leaves[i].1,
                );
            },
            AddOrDeleteTree::Node(children) => {
                lemma_add_or_delete_values_unique(
                    children[i].1,
                    path.push(name_placeholder(children[i].0)),
                    tree.counter_at(index, i),
                );
            },
        }
    }
    lemma_merged_allocated(" "@, parts, counts, index);
}

/// Value-placeholder uniqueness for SET clauses: the compiled tree holds
/// exactly one value placeholder for each leaf, each with a counter of its
/// own from the counter that the pass started at.
pub proof fn lemma_set_values_unique(
    tree: SetTree<AttributeValue>,
    path: Seq<Seq<char>>,
    index: nat,
)
    ensures
        tree.compiled(path, index).values.dom().finite(),
        tree.compiled(path, index).values.dom().len() == tree.operand_count(),
        allocated(tree.compiled(path, index).values, index, tree.operand_count()),
    decreases tree,
{
    let parts = tree.parts(path, index);
    let counts = tree.counts();
    assert forall|i: int| 0 <= i < parts.len() implies allocated(
        (#[trigger] parts[i]).values,
        index + total(counts.take(i)),
        counts[i],
    ) by {
        match tree {
            SetTree::Leaves(leaves) => {
                reveal_strlit(":set");
                lemma_single_allocated(":set"@, tree.counter_at(index, i), leaves[i].1.value());
            },
            SetTree::Node(children) => {
                lemma_set_values_unique(
                    children[i].1,
                    path.push(name_placeholder(children[i].0)),
                    tree.counter_at(index, i),
                );
            },
        }
    }
    lemma_merged_allocated(", "@, parts, counts, index);
}

/// Each name placeholder of a compiled ADD or DELETE tree stands for the
/// path segment or attribute name that it was made from.
pub proof fn lemma_add_or_delete_names_sound(
    tree: AddOrDeleteTree<AttributeValue>,
    path: Seq<Seq<char>>,
    index: nat,
)
    ensures
        names_sound(tree.compiled(path, index).names),
    decreases tree,
{
    let parts = tree.parts(path, index);
    assert forall|i: int| 0 <= i < parts.len() implies names_sound((#[trigger] parts[i]).names) by {
        match tree {
            AddOrDeleteTree::Leaves(_) => {},
            AddOrDeleteTree::Node(children) => {
                lemma_add_or_delete_names_sound(
                    children[i].1,
                    path.push(name_placeholder(children[i].0)),
                    tree.counter_at(index, i),
                );
            },
        }
    }
    lemma_merged_names_sound(" "@, parts);
}

/// Each name placeholder of a compiled SET tree stands for the path segment
/// or attribute name that it was made from.
pub proof fn lemma_set_names_sound(tree: SetTree<AttributeValue>, path: Seq<Seq<char>>, index: nat)
    ensures
        names_sound(tree.compiled(path, index).names),
    decreases tree,
{
    let parts = tree.parts(path, index);
    assert forall|i: int| 0 <= i < parts.len() implies names_sound((#[trigger] parts[i]).names) by {
        match tree {
            SetTree::Leaves(_) => {},
            SetTree::Node(children) => {
                lemma_set_names_sound(
                    children[i].1,
                    path.push(name_placeholder(children[i].0)),
                    tree.counter_at(index, i),
                );
            },
        }
    }
    lemma_merged_names_sound(", "@, parts);
}

/// Each name placeholder of a compiled update expression stands for the path
/// segment or attribute name that it was made from, in whichever clause
/// that name occurs.
pub proof fn lemma_update_names_sound(
    tree: UpdateTree<AttributeValue>,
    path: Seq<Seq<char>>,
    index: nat,
)
    ensures
        names_sound(tree.compiled(path, index).names),
    decreases tree,
{
    match tree {
        UpdateTree::Add(inputs) => {
            lemma_add_or_delete_names_sound(inputs, path, index);
        },
        UpdateTree::Delete(inputs) => {
            lemma_add_or_delete_names_sound(inputs, path, index);
        },
        UpdateTree::Remove(selection) => {
            lemma_selection_names_sound(selection, path);
        },
        UpdateTree::SetValues(inputs) => {
            lemma_set_names_sound(inputs, path, index);
        },
        UpdateTree::Combined(items) => {
            let parts = tree.parts(path, index);
            assert forall|i: int| 0 <= i < parts.len() implies names_sound(
                (#[trigger] parts[i]).names,
            ) by {
                lemma_update_names_sound(items[i], path, tree.counter_at(index, i));
            }
            lemma_merged_names_sound(" "@, parts);
        },
    }
}

/// A node with a single child compiles to what the child compiles to under
/// the path that the node's segment extends: the same expression text and
/// the same values, and the name placeholder of the segment added.
pub proof fn lemma_add_or_delete_single_child(
    segment: Seq<char>,
    child: AddOrDeleteTree<AttributeValue>,
    path: Seq<Seq<char>>,
    index: nat,
)
    ensures
        AddOrDeleteTree::Node(seq![(segment, child)]).compiled(path, index) == child.compiled(
            path.push(name_placeholder(segment)),
            index,
        ).with_name(name_placeholder(segment), segment),
{
    let node = AddOrDeleteTree::Node(seq![(segment, child)]);
    let inner = child.compiled(path.push(name_placeholder(segment)), index).with_name(
        name_placeholder(segment),
        segment,
    );
    assert(node.counts().take(0) =~= Seq::<nat>::empty());
    assert(node.counter_at(index, 0) == index);
    assert(node.parts(path, index) =~= seq![inner]);
    lemma_merged_single(" "@, inner);
}

/// A node with a single child compiles to what the child compiles to under
/// the path that the node's segment extends: the same expression text and
/// the same values, and the name placeholder of the segment added.
pub proof fn lemma_set_single_child(
    segment: Seq<char>,
    child: SetTree<AttributeValue>,
    path: Seq<Seq<char>>,
    index: nat,
)
    ensures
        SetTree::Node(seq![(segment, child)]).compiled(path, index) == child.compiled(
            path.push(name_placeholder(segment)),
            index,
        ).with_name(name_placeholder(segment), segment),
{
    let node = SetTree::Node(seq![(segment, child)]);
    let inner = child.compiled(path.push(name_placeholder(segment)), index).with_name(
        name_placeholder(segment),
        segment,
    );
    assert(node.counts().take(0) =~= Seq::<nat>::empty());
    assert(node.counter_at(index, 0) == index);
    assert(node.parts(path, index) =~= seq![inner]);
    lemma_merged_single(", "@, inner);
}

/// Value-placeholder uniqueness across a whole update expression. One counter
/// runs through all clauses, so the compiled expression holds exactly one
/// value placeholder for each value of every clause, each with a counter of
/// its own from the counter that the pass started at; a REMOVE clause takes
/// none and leaves the counter where it was.
pub proof fn lemma_update_values_unique(
    tree: UpdateTree<AttributeValue>,
    path: Seq<Seq<char>>,
    index: nat,
)
    ensures
        tree.compiled(path, index).values.dom().finite(),
        tree.compiled(path, index).values.dom().len() == tree.operand_count(),
        allocated(tree.compiled(path, index).values, index, tree.operand_count()),
    decreases tree,
{
    match tree {
        UpdateTree::Add(inputs) => {
            lemma_add_or_delete_values_unique(inputs, path, index);
        },
        UpdateTree::Delete(inputs) => {
            lemma_add_or_delete_values_unique(inputs, path, index);
        },
        UpdateTree::Remove(selection) => {
            lemma_selection_no_values(selection, path);
        },
        UpdateTree::SetValues(inputs) => {
            lemma_set_values_unique(inputs, path, index);
        },
        UpdateTree::Combined(items) => {
            let parts = tree.parts(path, index);
            let counts = tree.counts();
            assert forall|i: int| 0 <= i < parts.len() implies allocated(
                (#[trigger] parts[i]).values,
                index + total(counts.take(i)),
                counts[i],
            ) by {
                lemma_update_values_unique(items[i], path, tree.counter_at(index, i));
            }
            lemma_merged_allocated(" "@, parts, counts, index);
        },
    }
}

/// The value placeholder of a SET action begins with a colon and stands in
/// the expression text of the action.
proof fn lemma_set_leaf_in_text(
    path: Seq<Seq<char>>,
    name: Seq<char>,
    input: SetInput<AttributeValue>,
    index: nat,
)
    ensures
        values_in_text(set_leaf(path, name, input, index)),
{
    reveal_strlit(":set");
    let placeholder = set_placeholder(index);
    let at = path_text(path.push(name_placeholder(name)));
    let text = input.expression(at, placeholder);
    assert(placeholder[0] == ':');
    match input {
        SetInput::Assign(_) => {
            lemma_occurs_between(placeholder, at + " = "@, Seq::empty());
            assert(text =~= (at + " = "@) + placeholder + Seq::<char>::empty());
        },
        SetInput::Increment(_) => {
            lemma_occurs_between(placeholder, at + " = "@ + at + " + "@, Seq::empty());
            assert(text =~= (at + " = "@ + at + " + "@) + placeholder + Seq::<char>::empty());
        },
        SetInput::Decrement(_) => {
            lemma_occurs_between(placeholder, at + " = "@ + at + " - "@, Seq::empty());
            assert(text =~= (at + " = "@ + at + " - "@) + placeholder + Seq::<char>::empty());
        },
        SetInput::ListAppend(_) => {
            lemma_occurs_between(placeholder, at + " = list_append("@ + at + ", "@, ")"@);
            assert(text =~= (at + " = list_append("@ + at + ", "@) + placeholder + ")"@);
        },
        SetInput::ListPrepend(_) => {
            lemma_occurs_between(placeholder, at + " = list_append("@, ", "@ + at + ")"@);
            assert(text =~= (at + " = list_append("@) + placeholder + (", "@ + at + ")"@));
        },
        SetInput::IfNotExists(_) => {
            lemma_occurs_between(placeholder, at + " = if_not_exists("@ + at + ", "@, ")"@);
            assert(text =~= (at + " = if_not_exists("@ + at + ", "@) + placeholder + ")"@);
        },
    }
    let atom = set_leaf(path, name, input, index);
    assert forall|key: Seq<char>| #[trigger] atom.values.dom().contains(key) implies key
        == placeholder by {}
}

/// The value placeholder of an ADD or DELETE leaf begins with a colon and
/// stands in the expression text of the leaf.
proof fn lemma_add_or_delete_leaf_in_text(
    path: Seq<Seq<char>>,
    name: Seq<char>,
    value: AttributeValue,
    index: nat,
)
    ensures
        values_in_text(add_or_delete_leaf(path, name, value, index)),
{
    reveal_strlit(":add_or_delete");
    let placeholder = add_or_delete_placeholder(index);
    let at = path_text(path.push(name_placeholder(name)));
    assert(placeholder[0] == ':');
    lemma_occurs_between(placeholder, at + " "@, Seq::empty());
    let atom = add_or_delete_leaf(path, name, value, index);
    assert(atom.expression =~= (at + " "@) + placeholder + Seq::<char>::empty());
    assert forall|key: Seq<char>| #[trigger] atom.values.dom().contains(key) implies key
        == placeholder by {}
}

/// Each value placeholder of a compiled SET tree begins with a colon and
/// stands in the expression text of the tree.
pub proof fn lemma_set_values_in_text(
    tree: SetTree<AttributeValue>,
    path: Seq<Seq<char>>,
    index: nat,
)
    ensures
        values_in_text(tree.compiled(path, index)),
    decreases tree,
{
    let parts = tree.parts(path, index);
    assert forall|i: int| 0 <= i < parts.len() implies values_in_text(#[trigger] parts[i]) by {
        match tree {
            SetTree::Leaves(leaves) => {
                lemma_set_leaf_in_text(path, leaves[i].0, leaves[i].1, tree.counter_at(index, i));
            },
            SetTree::Node(children) => {
                lemma_set_values_in_text(
                    children[i].1,
                    path.push(name_placeholder(children[i].0)),
                    tree.counter_at(index, i),
                );
            },
        }
    }
    lemma_merged_values_in_text(", "@, parts);
}

/// Each value placeholder of a compiled ADD or DELETE tree begins with a
/// colon and stands in the expression text of the tree.
pub proof fn lemma_add_or_delete_values_in_text(
    tree: AddOrDeleteTree<AttributeValue>,
    path: Seq<Seq<char>>,
    index: nat,
)
    ensures
        values_in_text(tree.compiled(path, index)),
    decreases tree,
{
    let parts = tree.parts(path, index);
    assert forall|i: int| 0 <= i < parts.len() implies values_in_text(#[trigger] parts[i]) by {
        match tree {
            AddOrDeleteTree::Leaves(leaves) => {
                lemma_add_or_delete_leaf_in_text(
                    path,
                    leaves[i].0,
                    leaves[i].1,
                    tree.counter_at(index, i),
                );
            },
            AddOrDeleteTree::Node(children) => {
                lemma_add_or_delete_values_in_text(
                    children[i].1,
                    path.push(name_placeholder(children[i].0)),
                    tree.counter_at(index, i),
                );
            },
        }
    }
    lemma_merged_values_in_text(" "@, parts);
}

/// Each value placeholder of a compiled update expression begins with a
/// colon and stands in the expression text.
pub proof fn lemma_update_values_in_text(
    tree: UpdateTree<AttributeValue>,
    path: Seq<Seq<char>>,
    index: nat,
)
    ensures
        values_in_text(tree.compiled(path, index)),
    decreases tree,
{
    match tree {
        UpdateTree::Add(inputs) => {
            lemma_add_or_delete_values_in_text(inputs, path, index);
            let inner = inputs.compiled(path, index);
            assert forall|placeholder: Seq<char>| #[trigger]
                inner.values.dom().contains(placeholder) implies occurs(
                placeholder,
                "ADD "@ + inner.expression,
            ) by {
                lemma_occurs_within(placeholder, "ADD "@, inner.expression, Seq::empty());
                assert("ADD "@ + inner.expression + Seq::<char>::empty() =~= "ADD "@
                    + inner.expression);
            }
        },
        UpdateTree::Delete(inputs) => {
            lemma_add_or_delete_values_in_text(inputs, path, index);
            let inner = inputs.compiled(path, index);
            assert forall|placeholder: Seq<char>| #[trigger]
                inner.values.dom().contains(placeholder) implies occurs(
                placeholder,
                "DELETE "@ + inner.expression,
            ) by {
                lemma_occurs_within(placeholder, "DELETE "@, inner.expression, Seq::empty());
                assert("DELETE "@ + inner.expression + Seq::<char>::empty() =~= "DELETE "@
                    + inner.expression);
            }
        },
        UpdateTree::Remove(selection) => {
            lemma_selection_no_values(selection, path);
        },
        UpdateTree::SetValues(inputs) => {
            lemma_set_values_in_text(inputs, path, index);
            let inner = inputs.compiled(path, index);
            assert forall|placeholder: Seq<char>| #[trigger]
                inner.values.dom().contains(placeholder) implies occurs(
                placeholder,
                "SET "@ + inner.expression,
            ) by {
                lemma_occurs_within(placeholder, "SET "@, inner.expression, Seq::empty());
                assert("SET "@ + inner.expression + Seq::<char>::empty() =~= "SET "@
                    + inner.expression);
            }
        },
        UpdateTree::Combined(items) => {
            let parts = tree.parts(path, index);
            assert forall|i: int| 0 <= i < parts.len() implies values_in_text(
                #[trigger] parts[i],
            ) by {
                lemma_update_values_in_text(items[i], path, tree.counter_at(index, i));
            }
            lemma_merged_values_in_text(" "@, parts);
        },
    }
}

/// Whether a value placeholder is one of an update expression: what stands
/// before its counter is the stem of a SET clause or of an ADD or DELETE
/// clause.
pub open spec fn is_update_placeholder(placeholder: Seq<char>) -> bool {
    stem(placeholder) == ":set"@ || stem(placeholder) == ":add_or_delete"@
}

/// The property of being a value placeholder of an update expression.
pub open spec fn of_update() -> spec_fn(Seq<char>) -> bool {
    |placeholder: Seq<char>| is_update_placeholder(placeholder)
}

/// The property of being no value placeholder of an update expression.
pub open spec fn of_no_update() -> spec_fn(Seq<char>) -> bool {
    |placeholder: Seq<char>| !is_update_placeholder(placeholder)
}

/// The stem of the value placeholders of a condition is never that of an
/// update clause: an underscore stands before the tag of the operator, and
/// no tag follows an underscore in the stems of update clauses.
proof fn lemma_condition_stem_apart(condition: ConditionView<AttributeValue>, key: Seq<char>)
    requires
        condition.operand_count() > 0,
    ensures
        condition_stem(key, condition.tag()) != ":set"@,
        condition_stem(key, condition.tag()) != ":add_or_delete"@,
{
    reveal_strlit("begins_with");
    reveal_strlit("between");
    reveal_strlit("contains");
    reveal_strlit("eq");
    reveal_strlit("gt");
    reveal_strlit("gte");
    reveal_strlit("in");
    reveal_strlit("lt");
    reveal_strlit("lte");
    reveal_strlit("not_contains");
    reveal_strlit("ne");
    reveal_strlit(":");
    reveal_strlit("_");
    reveal_strlit(":set");
    reveal_strlit(":add_or_delete");
    let tag = condition.tag();
    let front = condition_stem(key, tag);
    assert(front.len() == 2 + key.len() + tag.len());
    assert(front[1 + key.len() as int] == '_');
}

/// No value placeholder of a condition is one of an update expression.
proof fn lemma_condition_placeholders_apart(
    condition: ConditionView<AttributeValue>,
    key: Seq<char>,
    index: nat,
)
    ensures
        all_placeholders(condition.values(key, index), of_no_update()),
{
    let placeholders = condition.placeholders(key, index);
    let front = condition_stem(key, condition.tag());
    assert forall|placeholder: Seq<char>| #[trigger]
        condition.values(key, index).dom().contains(placeholder) implies !is_update_placeholder(
        placeholder,
    ) by {
        lemma_bindings_dom(placeholders, condition.operands(), placeholder);
        let j = choose|j: int|
            0 <= j < placeholders.len() && #[trigger] placeholders[j] == placeholder;
        lemma_condition_stem_apart(condition, key);
        lemma_condition_stem(condition, key);
        lemma_decimal_digits((index + j) as nat);
        if condition is In {
            reveal_strlit("_");
            reveal_strlit(":set");
            reveal_strlit(":add_or_delete");
            let marked = numbered(front, (index + j) as nat) + "_"@;
            lemma_decimal_digits(j as nat);
            assert(marked.last() == '_');
            lemma_digit_run(marked, decimal(j as nat));
            assert(placeholder == member(front, (index + j) as nat, j as nat));
            assert(stem(placeholder) == marked);
        } else {
            lemma_digit_run(front, decimal((index + j) as nat));
        }
    }
}

/// No value placeholder of a compiled condition tree is one of an update
/// expression.
pub proof fn lemma_condition_values_apart(
    tree: ConditionTree<AttributeValue>,
    path: Seq<Seq<char>>,
    index: nat,
    nested: bool,
)
    ensures
        all_placeholders(tree.compiled(path, index, nested).values, of_no_update()),
    decreases tree,
{
    let parts = tree.parts(path, index, nested);
    assert forall|i: int| 0 <= i < parts.len() implies all_placeholders(
        (#[trigger] parts[i]).values,
        of_no_update(),
    ) by {
        match tree {
            ConditionTree::Leaves(_, conditions) => {
                lemma_condition_placeholders_apart(
                    conditions[i].condition,
                    conditions[i].name,
                    tree.counter_at(index, i),
                );
            },
            ConditionTree::Node(_, children) => {
                lemma_condition_values_apart(
                    children[i].1,
                    path.push(name_placeholder(children[i].0)),
                    tree.counter_at(index, i),
                    nested || children.len() > 1,
                );
            },
        }
    }
    lemma_merged_values_all(tree.operator().text(), parts, of_no_update());
}

/// A numbered placeholder with the stem of an update clause is one of an
/// update expression.
proof fn lemma_update_placeholder(index: nat)
    ensures
        is_update_placeholder(set_placeholder(index)),
        is_update_placeholder(add_or_delete_placeholder(index)),
{
    reveal_strlit(":set");
    reveal_strlit(":add_or_delete");
    lemma_decimal_digits(index);
    lemma_digit_run(":set"@, decimal(index));
    lemma_digit_run(":add_or_delete"@, decimal(index));
}

/// Each value placeholder of a compiled ADD or DELETE tree is one of an
/// update expression.
proof fn lemma_add_or_delete_values_of_update(
    tree: AddOrDeleteTree<AttributeValue>,
    path: Seq<Seq<char>>,
    index: nat,
)
    ensures
        all_placeholders(tree.compiled(path, index).values, of_update()),
    decreases tree,
{
    let parts = tree.parts(path, index);
    assert forall|i: int| 0 <= i < parts.len() implies all_placeholders(
        (#[trigger] parts[i]).values,
        of_update(),
    ) by {
        match tree {
            AddOrDeleteTree::Leaves(_) => {
                lemma_update_placeholder(tree.counter_at(index, i));
            },
            AddOrDeleteTree::Node(children) => {
                lemma_add_or_delete_values_of_update(
                    children[i].1,
                    path.push(name_placeholder(children[i].0)),
                    tree.counter_at(index, i),
                );
            },
        }
    }
    lemma_merged_values_all(" "@, parts, of_update());
}

/// Each value placeholder of a compiled SET tree is one of an update
/// expression.
proof fn lemma_set_values_of_update(
    tree: SetTree<AttributeValue>,
    path: Seq<Seq<char>>,
    index: nat,
)
    ensures
        all_placeholders(tree.compiled(path, index).values, of_update()),
    decreases tree,
{
    let parts = tree.parts(path, index);
    assert forall|i: int| 0 <= i < parts.len() implies all_placeholders(
        (#[trigger] parts[i]).values,
        of_update(),
    ) by {
        match tree {
            SetTree::Leaves(_) => {
                lemma_update_placeholder(tree.counter_at(index, i));
            },
            SetTree::Node(children) => {
                lemma_set_values_of_update(
                    children[i].1,
                    path.push(name_placeholder(children[i].0)),
                    tree.counter_at(index, i),
                );
            },
        }
    }
    lemma_merged_values_all(", "@, parts, of_update());
}

/// Each value placeholder of a compiled update expression is one of an
/// update expression.
pub proof fn lemma_update_values_of_update(
    tree: UpdateTree<AttributeValue>,
    path: Seq<Seq<char>>,
    index: nat,
)
    ensures
        all_placeholders(tree.compiled(path, index).values, of_update()),
    decreases tree,
{
    match tree {
        UpdateTree::Add(inputs) => {
            lemma_add_or_delete_values_of_update(inputs, path, index);
        },
        UpdateTree::Delete(inputs) => {
            lemma_add_or_delete_values_of_update(inputs, path, index);
        },
        UpdateTree::Remove(selection) => {
            lemma_selection_no_values(selection, path);
        },
        UpdateTree::SetValues(inputs) => {
            lemma_set_values_of_update(inputs, path, index);
        },
        UpdateTree::Combined(items) => {
            let parts = tree.parts(path, index);
            assert forall|i: int| 0 <= i < parts.len() implies all_placeholders(
                (#[trigger] parts[i]).values,
                of_update(),
            ) by {
                lemma_update_values_of_update(items[i], path, tree.counter_at(index, i));
            }
            lemma_merged_values_all(" "@, parts, of_update());
        },
    }
}

/// Whether a value placeholder is written as those of an update expression
/// are: the stem of a SET clause or of an ADD or DELETE clause, then the
/// counter that the placeholder carries.
pub open spec fn is_written_by_update(placeholder: Seq<char>) -> bool {
    placeholder == set_placeholder(counter_of(placeholder)) || placeholder
        == add_or_delete_placeholder(counter_of(placeholder))
}

/// The property of being written as the value placeholders of an update
/// expression are.
pub open spec fn written_by_update() -> spec_fn(Seq<char>) -> bool {
    |placeholder: Seq<char>| is_written_by_update(placeholder)
}

/// A value placeholder of an update clause is written as its stem and the
/// counter that it carries.
proof fn lemma_update_placeholder_written(index: nat)
    ensures
        is_written_by_update(set_placeholder(index)),
        is_written_by_update(add_or_delete_placeholder(index)),
{
    reveal_strlit(":set");
    reveal_strlit(":add_or_delete");
    lemma_counter_of_numbered(":set"@, index);
    lemma_counter_of_numbered(":add_or_delete"@, index);
}

/// Each value placeholder of a compiled SET tree is `:set` and the counter
/// that it carries.
proof fn lemma_set_values_written(tree: SetTree<AttributeValue>, path: Seq<Seq<char>>, index: nat)
    ensures
        all_placeholders(tree.compiled(path, index).values, written_by_update()),
    decreases tree,
{
    let parts = tree.parts(path, index);
    assert forall|i: int| 0 <= i < parts.len() implies all_placeholders(
        (#[trigger] parts[i]).values,
        written_by_update(),
    ) by {
        match tree {
            SetTree::Leaves(_) => {
                lemma_update_placeholder_written(tree.counter_at(index, i));
            },
            SetTree::Node(children) => {
                lemma_set_values_written(
                    children[i].1,
                    path.push(name_placeholder(children[i].0)),
                    tree.counter_at(index, i),
                );
            },
        }
    }
    lemma_merged_values_all(", "@, parts, written_by_update());
}

/// Each value placeholder of a compiled ADD or DELETE tree is
/// `:add_or_delete` and the counter that it carries.
proof fn lemma_add_or_delete_values_written(
    tree: AddOrDeleteTree<AttributeValue>,
    path: Seq<Seq<char>>,
    index: nat,
)
    ensures
        all_placeholders(tree.compiled(path, index).values, written_by_update()),
    decreases tree,
{
    let parts = tree.parts(path, index);
    assert forall|i: int| 0 <= i < parts.len() implies all_placeholders(
        (#[trigger] parts[i]).values,
        written_by_update(),
    ) by {
        match tree {
            AddOrDeleteTree::Leaves(_) => {
                lemma_update_placeholder_written(tree.counter_at(index, i));
            },
            AddOrDeleteTree::Node(children) => {
                lemma_add_or_delete_values_written(
                    children[i].1,
                    path.push(name_placeholder(children[i].0)),
                    tree.counter_at(index, i),
                );
            },
        }
    }
    lemma_merged_values_all(" "@, parts, written_by_update());
}

/// Each value placeholder of a compiled update expression is the stem of its
/// clause, `:set` or `:add_or_delete`, and the counter that it carries. With
/// `lemma_update_values_unique`: the placeholders are those stems with the
/// counters from the start of the pass to its end, each counter once.
pub proof fn lemma_update_values_written(
    tree: UpdateTree<AttributeValue>,
    path: Seq<Seq<char>>,
    index: nat,
)
    ensures
        all_placeholders(tree.compiled(path, index).values, written_by_update()),
    decreases tree,
{
    match tree {
        UpdateTree::Add(inputs) => {
            lemma_add_or_delete_values_written(inputs, path, index);
        },
        UpdateTree::Delete(inputs) => {
            lemma_add_or_delete_values_written(inputs, path, index);
        },
        UpdateTree::Remove(selection) => {
            lemma_selection_no_values(selection, path);
        },
        UpdateTree::SetValues(inputs) => {
            lemma_set_values_written(inputs, path, index);
        },
        UpdateTree::Combined(items) => {
            let parts = tree.parts(path, index);
            assert forall|i: int| 0 <= i < parts.len() implies all_placeholders(
                (#[trigger] parts[i]).values,
                written_by_update(),
            ) by {
                lemma_update_values_written(items[i], path, tree.counter_at(index, i));
            }
            lemma_merged_values_all(" "@, parts, written_by_update());
        },
    }
}

/// The values of a condition and of an update expression stay apart in one
/// request, though each is compiled in a pass of its own and both counters
/// start at 0: no value placeholder of the condition is one of the update
/// expression. So the table of a request that holds both holds one value for
/// each operand of the condition and one for each value of the update
/// expression, and the values of the condition are those that the condition
/// bound.
pub proof fn lemma_condition_and_update_apart(
    condition: ConditionTree<AttributeValue>,
    update: UpdateTree<AttributeValue>,
)
    ensures
        ({
            let held = condition.compiled(Seq::empty(), 0, false).values;
            let added = update.compiled(Seq::empty(), 0).values;
            let both = held.union_prefer_right(added);
            &&& held.dom().disjoint(added.dom())
            &&& both.dom().finite()
            &&& both.dom().len() == condition.operand_count() + update.operand_count()
            &&& forall|placeholder: Seq<char>| #[trigger]
                held.dom().contains(placeholder) ==> both[placeholder] == held[placeholder]
        }),
{
    let held = condition.compiled(Seq::empty(), 0, false).values;
    let added = update.compiled(Seq::empty(), 0).values;
    lemma_condition_values_apart(condition, Seq::empty(), 0, false);
    lemma_update_values_of_update(update, Seq::empty(), 0);
    lemma_condition_values_unique(condition, Seq::empty(), 0, false);
    lemma_update_values_unique(update, Seq::empty(), 0);
    assert forall|placeholder: Seq<char>|
        held.dom().contains(placeholder) implies !added.dom().contains(placeholder) by {
        assert(of_no_update()(placeholder));
        if added.dom().contains(placeholder) {
            assert(of_update()(placeholder));
        }
    }
    assert(held.union_prefer_right(added).dom() =~= held.dom() + added.dom());
    vstd::set_lib::lemma_set_disjoint_lens(held.dom(), added.dom());
}

} // verus!
