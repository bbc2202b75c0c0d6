//! Copies of update expressions. A copy has the shape of the expression it
//! was made from, and each of its values is a clone of the value in the same
//! place.

use crate::write::update_item::{
    AddOrDeleteInputsMap, AddOrDeleteTree, SetInput, SetInputsMap, SetTree, UpdateExpressionMap,
    UpdateTree,
};
use vstd::prelude::*;

verus! {

impl<T: Clone> SetInput<T> {
    /// Whether `copy` is the same action on a clone of the value.
    pub open spec fn cloned_to(self, copy: SetInput<T>) -> bool {
        &&& cloned(self.value(), copy.value())
        &&& match (self, copy) {
            (SetInput::Assign(_), SetInput::Assign(_)) => true,
            (SetInput::Increment(_), SetInput::Increment(_)) => true,
            (SetInput::Decrement(_), SetInput::Decrement(_)) => true,
            (SetInput::ListAppend(_), SetInput::ListAppend(_)) => true,
            (SetInput::ListPrepend(_), SetInput::ListPrepend(_)) => true,
            (SetInput::IfNotExists(_), SetInput::IfNotExists(_)) => true,
            _ => false,
        }
    }
}

impl<T: Clone> Clone for SetInput<T> {
    /// The same action on a clone of the value.
    fn clone(&self) -> (copy: Self)
        ensures
            self.cloned_to(copy),
    {
        match self {
            SetInput::Assign(value) => SetInput::Assign(value.clone()),
            SetInput::Increment(value) => SetInput::Increment(value.clone()),
            SetInput::Decrement(value) => SetInput::Decrement(value.clone()),
            SetInput::ListAppend(value) => SetInput::ListAppend(value.clone()),
            SetInput::ListPrepend(value) => SetInput::ListPrepend(value.clone()),
            SetInput::IfNotExists(value) => SetInput::IfNotExists(value.clone()),
        }
    }
}

impl<T: Clone> SetTree<T> {
    /// Whether `copy` is this tree with each value cloned: the same actions,
    /// attributes and path segments in the same places.
    pub open spec fn cloned_to(self, copy: SetTree<T>) -> bool
        decreases self,
    {
        match (self, copy) {
            (SetTree::Leaves(leaves), SetTree::Leaves(others)) => {
                &&& leaves.len() == others.len()
                &&& forall|i: int|
                    0 <= i < leaves.len() ==> leaves[i].0 == (#[trigger] others[i]).0
                        && leaves[i].1.cloned_to(others[i].1)
            },
            (SetTree::Node(children), SetTree::Node(others)) => {
                &&& children.len() == others.len()
                &&& forall|i: int|
                    0 <= i < children.len() ==> children[i].0 == (#[trigger] others[i]).0
                        && children[i].1.cloned_to(others[i].1)
            },
            _ => false,
        }
    }
}

impl<T: Clone> Clone for SetInputsMap<T> {
    /// A tree of the same shape on clones of the values.
    fn clone(&self) -> (copy: Self)
        ensures
            self@.cloned_to(copy@),
        decreases self,
    {
        match self {
            SetInputsMap::Leaves(leaves) => {
                let mut copies: Vec<(String, SetInput<T>)> = Vec::new();
                for i in 0..leaves.len()
                    invariant
                        copies.len() == i,
                        forall|j: int|
                            0 <= j < i ==> leaves[j].0@ == (#[trigger] copies[j]).0@
                                && leaves[j].1.cloned_to(copies[j].1),
                {
                    copies.push((leaves[i].0.clone(), leaves[i].1.clone()));
                }
                let copy = SetInputsMap::Leaves(copies);
                proof {
                    assert forall|j: int| 0 <= j < leaves.len() implies self@->Leaves_0[j].0 == (
                    #[trigger] copy@->Leaves_0[j]).0 && self@->Leaves_0[j].1.cloned_to(
                        copy@->Leaves_0[j].1,
                    ) by {
                        assert(copy@->Leaves_0[j] == (copies[j].0@, copies[j].1));
                    }
                }
                copy
            },
            SetInputsMap::Node(map) => {
                let mut copies: Vec<(String, SetInputsMap<T>)> = Vec::new();
                for i in 0..map.len()
                    invariant
                        decreases_to!(self => map),
                        copies.len() == i,
                        forall|j: int|
                            0 <= j < i ==> map[j].0@ == (#[trigger] copies[j]).0@
                                && map[j].1@.cloned_to(copies[j].1@),
                {
                    proof {
                        vstd::std_specs::vec::axiom_vec_index_decreases(*map, i as int);
                    }
                    copies.push((map[i].0.clone(), map[i].1.clone()));
                }
                let copy = SetInputsMap::Node(copies);
                proof {
                    assert forall|j: int| 0 <= j < map.len() implies self@->Node_0[j].0 == (
                    #[trigger] copy@->Node_0[j]).0 && self@->Node_0[j].1.cloned_to(
                        copy@->Node_0[j].1,
                    ) by {
                        assert(copy@->Node_0[j] == (copies[j].0@, copies[j].1@));
                    }
                }
                copy
            },
        }
    }
}

impl<T: Clone> AddOrDeleteTree<T> {
    /// Whether `copy` is this tree with each value cloned: the same
    /// attributes and path segments in the same places.
    pub open spec fn cloned_to(self, copy: AddOrDeleteTree<T>) -> bool
        decreases self,
    {
        match (self, copy) {
            (AddOrDeleteTree::Leaves(leaves), AddOrDeleteTree::Leaves(others)) => {
                &&& leaves.len() == others.len()
                &&& forall|i: int|
                    0 <= i < leaves.len() ==> leaves[i].0 == (#[trigger] others[i]).0 && cloned(
                        leaves[i].1,
                        others[i].1,
                    )
            },
            (AddOrDeleteTree::Node(children), AddOrDeleteTree::Node(others)) => {
                &&& children.len() == others.len()
                &&& forall|i: int|
                    0 <= i < children.len() ==> children[i].0 == (#[trigger] others[i]).0
                        && children[i].1.cloned_to(others[i].1)
            },
            _ => false,
        }
    }
}

impl<T: Clone> Clone for AddOrDeleteInputsMap<T> {
    /// A tree of the same shape on clones of the values.
    fn clone(&self) -> (copy: Self)
        ensures
            self@.cloned_to(copy@),
        decreases self,
    {
        match self {
            AddOrDeleteInputsMap::Leaves(leaves) => {
                let mut copies: Vec<(String, T)> = Vec::new();
                for i in 0..leaves.len()
                    invariant
                        copies.len() == i,
                        forall|j: int|
                            0 <= j < i ==> leaves[j].0@ == (#[trigger] copies[j]).0@ && cloned(
                                leaves[j].1,
                                copies[j].1,
                            ),
                {
                    copies.push((leaves[i].0.clone(), leaves[i].1.clone()));
                }
                let copy = AddOrDeleteInputsMap::Leaves(copies);
                proof {
                    assert forall|j: int| 0 <= j < leaves.len() implies self@->Leaves_0[j].0 == (
                    #[trigger] copy@->Leaves_0[j]).0 && cloned(
                        self@->Leaves_0[j].1,
                        copy@->Leaves_0[j].1,
                    ) by {
                        assert(copy@->Leaves_0[j] == (copies[j].0@, copies[j].1));
                    }
                }
                copy
            },
            AddOrDeleteInputsMap::Node(map) => {
                let mut copies: Vec<(String, AddOrDeleteInputsMap<T>)> = Vec::new();
                for i in 0..map.len()
                    invariant
                        decreases_to!(self => map),
                        copies.len() == i,
                        forall|j: int|
                            0 <= j < i ==> map[j].0@ == (#[trigger] copies[j]).0@
                                && map[j].1@.cloned_to(copies[j].1@),
                {
                    proof {
                        vstd::std_specs::vec::axiom_vec_index_decreases(*map, i as int);
                    }
                    copies.push((map[i].0.clone(), map[i].1.clone()));
                }
                let copy = AddOrDeleteInputsMap::Node(copies);
                proof {
                    assert forall|j: int| 0 <= j < map.len() implies self@->Node_0[j].0 == (
                    #[trigger] copy@->Node_0[j]).0 && self@->Node_0[j].1.cloned_to(
                        copy@->Node_0[j].1,
                    ) by {
                        assert(copy@->Node_0[j] == (copies[j].0@, copies[j].1@));
                    }
                }
                copy
            },
        }
    }
}

impl<T: Clone> UpdateTree<T> {
    /// Whether `copy` is this expression with each value cloned: the same
    /// clauses in the same order, a REMOVE clause as it is.
    pub open spec fn cloned_to(self, copy: UpdateTree<T>) -> bool
        decreases self,
    {
        match (self, copy) {
            (UpdateTree::Add(inputs), UpdateTree::Add(others)) => inputs.cloned_to(others),
            (UpdateTree::Delete(inputs), UpdateTree::Delete(others)) => inputs.cloned_to(others),
            (UpdateTree::Remove(selection), UpdateTree::Remove(same)) => selection == same,
            (UpdateTree::SetValues(inputs), UpdateTree::SetValues(others)) => inputs.cloned_to(
                others,
            ),
            (UpdateTree::Combined(items), UpdateTree::Combined(others)) => {
                &&& items.len() == others.len()
                &&& forall|i: int|
                    0 <= i < items.len() ==> items[i].cloned_to(#[trigger] others[i])
            },
            _ => false,
        }
    }
}

impl<T: Clone> Clone for UpdateExpressionMap<T> {
    /// An expression of the same shape on clones of the values.
    fn clone(&self) -> (copy: Self)
        ensures
            self@.cloned_to(copy@),
        decreases self,
    {
        match self {
            UpdateExpressionMap::Add(inputs) => UpdateExpressionMap::Add(inputs.clone()),
            UpdateExpressionMap::Delete(inputs) => UpdateExpressionMap::Delete(inputs.clone()),
            UpdateExpressionMap::Remove(selection) => UpdateExpressionMap::Remove(
                selection.clone(),
            ),
            UpdateExpressionMap::SetValues(inputs) => UpdateExpressionMap::SetValues(
                inputs.clone(),
            ),
            UpdateExpressionMap::Combined(items) => {
                let mut copies: Vec<UpdateExpressionMap<T>> = Vec::new();
                for i in 0..items.len()
                    invariant
                        decreases_to!(self => items),
                        copies.len() == i,
                        forall|j: int| 0 <= j < i ==> items[j]@.cloned_to((#[trigger] copies[j])@),
                {
                    proof {
                        vstd::std_specs::vec::axiom_vec_index_decreases(*items, i as int);
                    }
                    copies.push(items[i].clone());
                }
                let copy = UpdateExpressionMap::Combined(copies);
                proof {
                    assert forall|j: int| 0 <= j < items.len() implies self@->Combined_0[j]
                        .cloned_to(#[trigger] copy@->Combined_0[j]) by {
                        assert(copy@->Combined_0[j] == copies[j]@);
                    }
                }
                copy
            },
        }
    }
}

} // verus!
