//! Copies of condition trees. A copy has the shape of the tree it was made
//! from, and each of its operands is a clone of the operand in the same
//! place.

use crate::common::condition::{
    Condition, ConditionMap, ConditionTree, ConditionView, KeyCondition, KeyConditionView,
};
use vstd::prelude::*;

verus! {

impl<T: Clone> ConditionView<T> {
    /// Whether `copy` is this condition with each operand cloned: the same
    /// test on clones of the operands.
    pub open spec fn cloned_to(self, copy: ConditionView<T>) -> bool {
        match (self, copy) {
            (ConditionView::BeginsWith(prefix), ConditionView::BeginsWith(same)) => prefix == same,
            (ConditionView::Between(low, high), ConditionView::Between(lower, higher)) => cloned(
                low,
                lower,
            ) && cloned(high, higher),
            (ConditionView::Contains(value), ConditionView::Contains(other)) => cloned(
                value,
                other,
            ),
            (ConditionView::Equals(value), ConditionView::Equals(other)) => cloned(value, other),
            (ConditionView::GreaterThan(value), ConditionView::GreaterThan(other)) => cloned(
                value,
                other,
            ),
            (
                ConditionView::GreaterThanOrEqual(value),
                ConditionView::GreaterThanOrEqual(other),
            ) => cloned(value, other),
            (ConditionView::In(values), ConditionView::In(others)) => values.len() == others.len()
                && forall|i: int| 0 <= i < values.len() ==> cloned(values[i], #[trigger] others[i]),
            (ConditionView::LessThan(value), ConditionView::LessThan(other)) => cloned(
                value,
                other,
            ),
            (ConditionView::LessThanOrEqual(value), ConditionView::LessThanOrEqual(other)) => cloned(
                value,
                other,
            ),
            (ConditionView::NotContains(value), ConditionView::NotContains(other)) => cloned(
                value,
                other,
            ),
            (ConditionView::NotEqual(value), ConditionView::NotEqual(other)) => cloned(
                value,
                other,
            ),
            (ConditionView::NotNull, ConditionView::NotNull) => true,
            (ConditionView::Null, ConditionView::Null) => true,
            _ => false,
        }
    }
}

impl<T: Clone> Clone for Condition<T> {
    /// The same test on clones of the operands.
    fn clone(&self) -> (copy: Self)
        ensures
            self@.cloned_to(copy@),
    {
        match self {
            Condition::BeginsWith(prefix) => Condition::BeginsWith(prefix.clone()),
            Condition::Between(low, high) => Condition::Between(low.clone(), high.clone()),
            Condition::Contains(value) => Condition::Contains(value.clone()),
            Condition::Equals(value) => Condition::Equals(value.clone()),
            Condition::GreaterThan(value) => Condition::GreaterThan(value.clone()),
            Condition::GreaterThanOrEqual(value) => Condition::GreaterThanOrEqual(value.clone()),
            Condition::In(values) => {
                let mut copies: Vec<T> = Vec::new();
                for i in 0..values.len()
                    invariant
                        copies.len() == i,
                        forall|j: int| 0 <= j < i ==> cloned(values[j], #[trigger] copies[j]),
                {
                    copies.push(values[i].clone());
                }
                Condition::In(copies)
            },
            Condition::LessThan(value) => Condition::LessThan(value.clone()),
            Condition::LessThanOrEqual(value) => Condition::LessThanOrEqual(value.clone()),
            Condition::NotContains(value) => Condition::NotContains(value.clone()),
            Condition::NotEqual(value) => Condition::NotEqual(value.clone()),
            Condition::NotNull => Condition::NotNull,
            Condition::Null => Condition::Null,
        }
    }
}

impl<T: Clone> KeyConditionView<T> {
    /// Whether `copy` is this condition with each operand cloned, on the
    /// same attribute.
    pub open spec fn cloned_to(self, copy: KeyConditionView<T>) -> bool {
        self.name == copy.name && self.condition.cloned_to(copy.condition)
    }
}

impl<T: Clone> Clone for KeyCondition<T> {
    /// The same condition on the same attribute, on clones of the operands.
    fn clone(&self) -> (copy: Self)
        ensures
            self@.cloned_to(copy@),
    {
        KeyCondition { condition: self.condition.clone(), name: self.name.clone() }
    }
}

impl<T: Clone> ConditionTree<T> {
    /// Whether `copy` is this tree with each operand cloned: the same
    /// operators, attributes and path segments in the same places.
    pub open spec fn cloned_to(self, copy: ConditionTree<T>) -> bool
        decreases self,
    {
        match (self, copy) {
            (
                ConditionTree::Leaves(operator, conditions),
                ConditionTree::Leaves(same, others),
            ) => {
                &&& operator == same
                &&& conditions.len() == others.len()
                &&& forall|i: int|
                    0 <= i < conditions.len() ==> conditions[i].cloned_to(#[trigger] others[i])
            },
            (ConditionTree::Node(operator, children), ConditionTree::Node(same, others)) => {
                &&& operator == same
                &&& children.len() == others.len()
                &&& forall|i: int|
                    0 <= i < children.len() ==> children[i].0 == (#[trigger] others[i]).0
                        && children[i].1.cloned_to(others[i].1)
            },
            _ => false,
        }
    }
}

impl<T: Clone> Clone for ConditionMap<T> {
    /// A tree of the same shape on clones of the operands.
    fn clone(&self) -> (copy: Self)
        ensures
            self@.cloned_to(copy@),
        decreases self,
    {
        match self {
            ConditionMap::Leaves(operator, key_conditions) => {
                let mut copies: Vec<KeyCondition<T>> = Vec::new();
                for i in 0..key_conditions.len()
                    invariant
                        copies.len() == i,
                        forall|j: int|
                            0 <= j < i ==> key_conditions[j]@.cloned_to((#[trigger] copies[j])@),
                {
                    copies.push(key_conditions[i].clone());
                }
                let copy = ConditionMap::Leaves(*operator, copies);
                proof {
                    assert forall|j: int| 0 <= j < key_conditions.len() implies self@->Leaves_1[j]
                        .cloned_to(#[trigger] copy@->Leaves_1[j]) by {
                        assert(copy@->Leaves_1[j] == copies[j]@);
                    }
                }
                copy
            },
            ConditionMap::Node(operator, map) => {
                let mut copies: Vec<(String, ConditionMap<T>)> = Vec::new();
                for i in 0..map.len()
                    invariant
                        decreases_to!(self => map),
                        copies.len() == i,
                        forall|j: int|
                            0 <= j < i ==> map[j].0@ == (#[trigger] copies[j]).0@
                                && map[j].1@.cloned_to(copies[j].1@),
                {
                    proof {
                        vstd::std_specs::vec::axiom_vec_index_decreases(*map, i as int);
                    }
                    copies.push((map[i].0.clone(), map[i].1.clone()));
                }
                let copy = ConditionMap::Node(*operator, copies);
                proof {
                    assert forall|j: int| 0 <= j < map.len() implies self@->Node_1[j].0 == (
                    #[trigger] copy@->Node_1[j]).0 && self@->Node_1[j].1.cloned_to(
                        copy@->Node_1[j].1,
                    ) by {
                        assert(copy@->Node_1[j] == (copies[j].0@, copies[j].1@));
                    }
                }
                copy
            },
        }
    }
}

} // verus!
