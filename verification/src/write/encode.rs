//! Encoding the values of an update expression.

use crate::common::encode::{
    acceptable, accepts, accepts_all, chained, first_refusal, lemma_accepts_chained,
    lemma_refusal_chained, lemma_refused_alone, refuses,
};
use crate::common::selection::segments_of;
use crate::common::ExpressionInput;
use aws_sdk_dynamodb::types::AttributeValue;
use crate::write::update_item::{
    AddOrDeleteInputsMap, AddOrDeleteTree, SetInput, SetInputsMap, SetTree, UpdateExpressionMap,
    UpdateTree,
};
use vstd::prelude::*;

verus! {

impl<T> SetInput<T> {
    /// Whether `encoded` is the same action with its value encoded.
    pub open spec fn encodes_to<U, E, F: Fn(T) -> Result<U, E>>(
        self,
        encoded: SetInput<U>,
        encoder: F,
    ) -> bool {
        &&& accepts(encoder, self.value(), encoded.value())
        &&& match (self, encoded) {
            (SetInput::Assign(_), SetInput::Assign(_)) => true,
            (SetInput::Increment(_), SetInput::Increment(_)) => true,
            (SetInput::Decrement(_), SetInput::Decrement(_)) => true,
            (SetInput::ListAppend(_), SetInput::ListAppend(_)) => true,
            (SetInput::ListPrepend(_), SetInput::ListPrepend(_)) => true,
            (SetInput::IfNotExists(_), SetInput::IfNotExists(_)) => true,
            _ => false,
        }
    }

    /// Encodes the value of the action. A refusal of the encoder is handed
    /// back as it is.
    pub fn encode<U, E, F: Fn(T) -> Result<U, E>>(self, encoder: &F) -> (encoded: Result<
        SetInput<U>,
        E,
    >)
        requires
            forall|value: T| call_requires(*encoder, (value,)),
        ensures
            match encoded {
                Ok(input) => self.encodes_to(input, *encoder),
                Err(error) => refuses(*encoder, self.value(), error),
            },
    {
        match self {
            SetInput::Assign(value) => match encoder(value) {
                Ok(value) => Ok(SetInput::Assign(value)),
                Err(error) => Err(error),
            },
            SetInput::Increment(value) => match encoder(value) {
                Ok(value) => Ok(SetInput::Increment(value)),
                Err(error) => Err(error),
            },
            SetInput::Decrement(value) => match encoder(value) {
                Ok(value) => Ok(SetInput::Decrement(value)),
                Err(error) => Err(error),
            },
            SetInput::ListAppend(value) => match encoder(value) {
                Ok(value) => Ok(SetInput::ListAppend(value)),
                Err(error) => Err(error),
            },
            SetInput::ListPrepend(value) => match encoder(value) {
                Ok(value) => Ok(SetInput::ListPrepend(value)),
                Err(error) => Err(error),
            },
            SetInput::IfNotExists(value) => match encoder(value) {
                Ok(value) => Ok(SetInput::IfNotExists(value)),
                Err(error) => Err(error),
            },
        }
    }
}

impl<T> SetTree<T> {
    /// Whether `encoded` is this tree with each value encoded: the same
    /// actions, attributes and path segments in the same places.
    pub open spec fn encodes_to<U, E, F: Fn(T) -> Result<U, E>>(
        self,
        encoded: SetTree<U>,
        encoder: F,
    ) -> bool
        decreases self,
    {
        match (self, encoded) {
            (SetTree::Leaves(leaves), SetTree::Leaves(others)) => {
                &&& leaves.len() == others.len()
                &&& forall|i: int|
                    0 <= i < leaves.len() ==> leaves[i].0 == (#[trigger] others[i]).0
                        && leaves[i].1.encodes_to(others[i].1, encoder)
            },
            (SetTree::Node(children), SetTree::Node(others)) => {
                &&& children.len() == others.len()
                &&& forall|i: int|
                    0 <= i < children.len() ==> children[i].0 == (#[trigger] others[i]).0
                        && children[i].1.encodes_to(others[i].1, encoder)
            },
            _ => false,
        }
    }

    /// The values of each part under the root that an encoder is asked to
    /// encode.
    pub open spec fn encodable_parts(self) -> Seq<Seq<T>>
        decreases self, 0nat,
    {
        match self {
            SetTree::Leaves(leaves) => Seq::new(leaves.len(), |i: int| seq![leaves[i].1.value()]),
            SetTree::Node(children) => Seq::new(
                children.len(),
                |i: int|
                    if 0 <= i < children.len() {
                        children[i].1.encodable()
                    } else {
                        Seq::empty()
                    },
            ),
        }
    }

    /// The values of the tree that an encoder is asked to encode, in the
    /// order in which it is asked: that in which a pass meets them.
    pub open spec fn encodable(self) -> Seq<T>
        decreases self, 1nat,
    {
        chained(self.encodable_parts())
    }
}

/// The encoder may accept each value of a tree that it has encoded.
pub proof fn lemma_set_values_accepted<T, U, E, F: Fn(T) -> Result<U, E>>(
    tree: SetTree<T>,
    encoded: SetTree<U>,
    encoder: F,
)
    requires
        tree.encodes_to(encoded, encoder),
    ensures
        accepts_all(encoder, tree.encodable()),
    decreases tree,
{
    let parts = tree.encodable_parts();
    assert forall|i: int| 0 <= i < parts.len() implies accepts_all(
        encoder,
        #[trigger] parts[i],
    ) by {
        match (tree, encoded) {
            (SetTree::Leaves(leaves), SetTree::Leaves(others)) => {
                assert(accepts(encoder, leaves[i].1.value(), others[i].1.value()));
                assert(acceptable(encoder, parts[i][0]));
            },
            (SetTree::Node(children), SetTree::Node(others)) => {
                assert(children[i].1.encodes_to(others[i].1, encoder));
                lemma_set_values_accepted(children[i].1, others[i].1, encoder);
            },
            _ => {},
        }
    }
    lemma_accepts_chained(encoder, parts);
}

impl<T> SetInputsMap<T> {
    /// Encodes each value of the tree, in the order in which a pass meets
    /// them. Where the encoder refuses a value, its refusal is handed back as
    /// it is, and nothing of the tree with it; it is the first refusal: each
    /// value before was accepted.
    pub fn encode<U, E, F: Fn(T) -> Result<U, E>>(self, encoder: &F) -> (encoded: Result<
        SetInputsMap<U>,
        E,
    >)
        requires
            forall|value: T| call_requires(*encoder, (value,)),
        ensures
            match encoded {
                Ok(tree) => self@.encodes_to(tree@, *encoder),
                Err(error) => first_refusal(*encoder, self@.encodable(), error),
            },
        decreases self,
    {
        let ghost parts = self@.encodable_parts();
        match self {
            SetInputsMap::Leaves(leaves) => {
                let mut encoded: Vec<(String, SetInput<U>)> = Vec::new();
                let ghost all = leaves@;
                for leaf in it: leaves.into_iter()
                    invariant
                        it.seq() == all,
                        self@ is Leaves,
                        self@->Leaves_0.len() == all.len(),
                        forall|i: int|
                            0 <= i < all.len() ==> #[trigger] self@->Leaves_0[i] == (
                                all[i].0@,
                                all[i].1,
                            ),
                        parts == self@.encodable_parts(),
                        parts.len() == all.len(),
                        forall|i: int|
                            0 <= i < all.len() ==> #[trigger] parts[i] == seq![all[i].1.value()],
                        forall|i: int|
                            0 <= i < it.index() ==> accepts_all(*encoder, #[trigger] parts[i]),
                        forall|value: T| call_requires(*encoder, (value,)),
                        encoded.len() == it.index(),
                        forall|i: int|
                            0 <= i < it.index() ==> all[i].0@ == (#[trigger] encoded[i]).0@
                                && all[i].1.encodes_to(encoded[i].1, *encoder),
                {
                    let (key, input) = leaf;
                    match input.encode(encoder) {
                        Ok(input) => {
                            proof {
                                let asked = parts[it.index() as int];
                                assert(accepts(*encoder, asked[0], input.value()));
                                assert(acceptable(*encoder, asked[0]));
                            }
                            encoded.push((key, input))
                        },
                        Err(error) => {
                            proof {
                                lemma_refused_alone(*encoder, parts[it.index() as int], 0, error);
                                lemma_refusal_chained(*encoder, parts, it.index() as int, error);
                            }
                            return Err(error);
                        },
                    }
                }
                let tree = SetInputsMap::Leaves(encoded);
                proof {
                    assert forall|i: int| 0 <= i < all.len() implies self@->Leaves_0[i].0 == (
                    #[trigger] tree@->Leaves_0[i]).0 && self@->Leaves_0[i].1.encodes_to(
                        tree@->Leaves_0[i].1,
                        *encoder,
                    ) by {
                        assert(tree@->Leaves_0[i] == (encoded[i].0@, encoded[i].1));
                    }
                }
                Ok(tree)
            },
            SetInputsMap::Node(map) => {
                let mut encoded: Vec<(String, SetInputsMap<U>)> = Vec::new();
                let ghost all = map@;
                proof {
                    assert(decreases_to!(self => map));
                }
                for entry in it: map.into_iter()
                    invariant
                        it.seq() == all,
                        all == map@,
                        decreases_to!(self => map),
                        self@ is Node,
                        self@->Node_0.len() == all.len(),
                        forall|i: int|
                            0 <= i < all.len() ==> #[trigger] self@->Node_0[i] == (
                                all[i].0@,
                                all[i].1@,
                            ),
                        parts == self@.encodable_parts(),
                        parts.len() == all.len(),
                        forall|i: int|
                            0 <= i < all.len() ==> #[trigger] parts[i] == all[i].1@.encodable(),
                        forall|i: int|
                            0 <= i < it.index() ==> accepts_all(*encoder, #[trigger] parts[i]),
                        forall|value: T| call_requires(*encoder, (value,)),
                        encoded.len() == it.index(),
                        forall|i: int|
                            0 <= i < it.index() ==> all[i].0@ == (#[trigger] encoded[i]).0@
                                && all[i].1@.encodes_to(encoded[i].1@, *encoder),
                {
                    proof {
                        assert(entry == map[it.index() as int]);
                        vstd::std_specs::vec::axiom_vec_index_decreases(map, it.index() as int);
                    }
                    let (key, value) = entry;
                    match value.encode(encoder) {
                        Ok(value) => {
                            proof {
                                lemma_set_values_accepted(
                                    all[it.index() as int].1@,
                                    value@,
                                    *encoder,
                                );
                            }
                            encoded.push((key, value))
                        },
                        Err(error) => {
                            proof {
                                lemma_refusal_chained(*encoder, parts, it.index() as int, error);
                            }
                            return Err(error);
                        },
                    }
                }
                let tree = SetInputsMap::Node(encoded);
                proof {
                    assert forall|i: int| 0 <= i < all.len() implies self@->Node_0[i].0 == (
                    #[trigger] tree@->Node_0[i]).0 && self@->Node_0[i].1.encodes_to(
                        tree@->Node_0[i].1,
                        *encoder,
                    ) by {
                        assert(tree@->Node_0[i] == (encoded[i].0@, encoded[i].1@));
                    }
                }
                Ok(tree)
            },
        }
    }
}

impl<T> AddOrDeleteTree<T> {
    /// Whether `encoded` is this tree with each value encoded: the same
    /// attributes and path segments in the same places.
    pub open spec fn encodes_to<U, E, F: Fn(T) -> Result<U, E>>(
        self,
        encoded: AddOrDeleteTree<U>,
        encoder: F,
    ) -> bool
        decreases self,
    {
        match (self, encoded) {
            (AddOrDeleteTree::Leaves(leaves), AddOrDeleteTree::Leaves(others)) => {
                &&& leaves.len() == others.len()
                &&& forall|i: int|
                    0 <= i < leaves.len() ==> leaves[i].0 == (#[trigger] others[i]).0 && accepts(
                        encoder,
                        leaves[i].1,
                        others[i].1,
                    )
            },
            (AddOrDeleteTree::Node(children), AddOrDeleteTree::Node(others)) => {
                &&& children.len() == others.len()
                &&& forall|i: int|
                    0 <= i < children.len() ==> children[i].0 == (#[trigger] others[i]).0
                        && children[i].1.encodes_to(others[i].1, encoder)
            },
            _ => false,
        }
    }

    /// The values of each part under the root that an encoder is asked to
    /// encode.
    pub open spec fn encodable_parts(self) -> Seq<Seq<T>>
        decreases self, 0nat,
    {
        match self {
            AddOrDeleteTree::Leaves(leaves) => Seq::new(leaves.len(), |i: int| seq![leaves[i].1]),
            AddOrDeleteTree::Node(children) => Seq::new(
                children.len(),
                |i: int|
                    if 0 <= i < children.len() {
                        children[i].1.encodable()
                    } else {
                        Seq::empty()
                    },
            ),
        }
    }

    /// The values of the tree that an encoder is asked to encode, in the
    /// order in which it is asked: that in which a pass meets them.
    pub open spec fn encodable(self) -> Seq<T>
        decreases self, 1nat,
    {
        chained(self.encodable_parts())
    }
}

/// The encoder may accept each value of a tree that it has encoded.
pub proof fn lemma_add_or_delete_values_accepted<T, U, E, F: Fn(T) -> Result<U, E>>(
    tree: AddOrDeleteTree<T>,
    encoded: AddOrDeleteTree<U>,
    encoder: F,
)
    requires
        tree.encodes_to(encoded, encoder),
    ensures
        accepts_all(encoder, tree.encodable()),
    decreases tree,
{
    let parts = tree.encodable_parts();
    assert forall|i: int| 0 <= i < parts.len() implies accepts_all(
        encoder,
        #[trigger] parts[i],
    ) by {
        match (tree, encoded) {
            (AddOrDeleteTree::Leaves(leaves), AddOrDeleteTree::Leaves(others)) => {
                assert(accepts(encoder, leaves[i].1, others[i].1));
                assert(acceptable(encoder, parts[i][0]));
            },
            (AddOrDeleteTree::Node(children), AddOrDeleteTree::Node(others)) => {
                assert(children[i].1.encodes_to(others[i].1, encoder));
                lemma_add_or_delete_values_accepted(children[i].1, others[i].1, encoder);
            },
            _ => {},
        }
    }
    lemma_accepts_chained(encoder, parts);
}

impl<T> AddOrDeleteInputsMap<T> {
    /// Encodes each value of the tree, in the order in which a pass meets
    /// them. Where the encoder refuses a value, its refusal is handed back as
    /// it is, and nothing of the tree with it; it is the first refusal: each
    /// value before was accepted.
    pub fn encode<U, E, F: Fn(T) -> Result<U, E>>(self, encoder: &F) -> (encoded: Result<
        AddOrDeleteInputsMap<U>,
        E,
    >)
        requires
            forall|value: T| call_requires(*encoder, (value,)),
        ensures
            match encoded {
                Ok(tree) => self@.encodes_to(tree@, *encoder),
                Err(error) => first_refusal(*encoder, self@.encodable(), error),
            },
        decreases self,
    {
        let ghost parts = self@.encodable_parts();
        match self {
            AddOrDeleteInputsMap::Leaves(leaves) => {
                let mut encoded: Vec<(String, U)> = Vec::new();
                let ghost all = leaves@;
                for leaf in it: leaves.into_iter()
                    invariant
                        it.seq() == all,
                        self@ is Leaves,
                        self@->Leaves_0.len() == all.len(),
                        forall|i: int|
                            0 <= i < all.len() ==> #[trigger] self@->Leaves_0[i] == (
                                all[i].0@,
                                all[i].1,
                            ),
                        parts == self@.encodable_parts(),
                        parts.len() == all.len(),
                        forall|i: int| 0 <= i < all.len() ==> #[trigger] parts[i] == seq![all[i].1],
                        forall|i: int|
                            0 <= i < it.index() ==> accepts_all(*encoder, #[trigger] parts[i]),
                        forall|value: T| call_requires(*encoder, (value,)),
                        encoded.len() == it.index(),
                        forall|i: int|
                            0 <= i < it.index() ==> all[i].0@ == (#[trigger] encoded[i]).0@
                                && accepts(*encoder, all[i].1, encoded[i].1),
                {
                    let (key, value) = leaf;
                    match encoder(value) {
                        Ok(value) => {
                            proof {
                                let asked = parts[it.index() as int];
                                assert(accepts(*encoder, asked[0], value));
                                assert(acceptable(*encoder, asked[0]));
                            }
                            encoded.push((key, value))
                        },
                        Err(error) => {
                            proof {
                                lemma_refused_alone(*encoder, parts[it.index() as int], 0, error);
                                lemma_refusal_chained(*encoder, parts, it.index() as int, error);
                            }
                            return Err(error);
                        },
                    }
                }
                let tree = AddOrDeleteInputsMap::Leaves(encoded);
                proof {
                    assert forall|i: int| 0 <= i < all.len() implies self@->Leaves_0[i].0 == (
                    #[trigger] tree@->Leaves_0[i]).0 && accepts(
                        *encoder,
                        self@->Leaves_0[i].1,
                        tree@->Leaves_0[i].1,
                    ) by {
                        assert(tree@->Leaves_0[i] == (encoded[i].0@, encoded[i].1));
                    }
                }
                Ok(tree)
            },
            AddOrDeleteInputsMap::Node(map) => {
                let mut encoded: Vec<(String, AddOrDeleteInputsMap<U>)> = Vec::new();
                let ghost all = map@;
                proof {
                    assert(decreases_to!(self => map));
                }
                for entry in it: map.into_iter()
                    invariant
                        it.seq() == all,
                        all == map@,
                        decreases_to!(self => map),
                        self@ is Node,
                        self@->Node_0.len() == all.len(),
                        forall|i: int|
                            0 <= i < all.len() ==> #[trigger] self@->Node_0[i] == (
                                all[i].0@,
                                all[i].1@,
                            ),
                        parts == self@.encodable_parts(),
                        parts.len() == all.len(),
                        forall|i: int|
                            0 <= i < all.len() ==> #[trigger] parts[i] == all[i].1@.encodable(),
                        forall|i: int|
                            0 <= i < it.index() ==> accepts_all(*encoder, #[trigger] parts[i]),
                        forall|value: T| call_requires(*encoder, (value,)),
                        encoded.len() == it.index(),
                        forall|i: int|
                            0 <= i < it.index() ==> all[i].0@ == (#[trigger] encoded[i]).0@
                                && all[i].1@.encodes_to(encoded[i].1@, *encoder),
                {
                    proof {
                        assert(entry == map[it.index() as int]);
                        vstd::std_specs::vec::axiom_vec_index_decreases(map, it.index() as int);
                    }
                    let (key, value) = entry;
                    match value.encode(encoder) {
                        Ok(value) => {
                            proof {
                                lemma_add_or_delete_values_accepted(
                                    all[it.index() as int].1@,
                                    value@,
                                    *encoder,
                                );
                            }
                            encoded.push((key, value))
                        },
                        Err(error) => {
                            proof {
                                lemma_refusal_chained(*encoder, parts, it.index() as int, error);
                            }
                            return Err(error);
                        },
                    }
                }
                let tree = AddOrDeleteInputsMap::Node(encoded);
                proof {
                    assert forall|i: int| 0 <= i < all.len() implies self@->Node_0[i].0 == (
                    #[trigger] tree@->Node_0[i]).0 && self@->Node_0[i].1.encodes_to(
                        tree@->Node_0[i].1,
                        *encoder,
                    ) by {
                        assert(tree@->Node_0[i] == (encoded[i].0@, encoded[i].1@));
                    }
                }
                Ok(tree)
            },
        }
    }
}

impl<T> UpdateTree<T> {
    /// Whether `encoded` is this expression with each value encoded: the
    /// same clauses in the same order, a REMOVE clause untouched.
    pub open spec fn encodes_to<U, E, F: Fn(T) -> Result<U, E>>(
        self,
        encoded: UpdateTree<U>,
        encoder: F,
    ) -> bool
        decreases self,
    {
        match (self, encoded) {
            (UpdateTree::Add(inputs), UpdateTree::Add(others)) => inputs.encodes_to(
                others,
                encoder,
            ),
            (UpdateTree::Delete(inputs), UpdateTree::Delete(others)) => inputs.encodes_to(
                others,
                encoder,
            ),
            (UpdateTree::Remove(selection), UpdateTree::Remove(same)) => selection == same,
            (UpdateTree::SetValues(inputs), UpdateTree::SetValues(others)) => inputs.encodes_to(
                others,
                encoder,
            ),
            (UpdateTree::Combined(items), UpdateTree::Combined(others)) => {
                &&& items.len() == others.len()
                &&& forall|i: int|
                    0 <= i < items.len() ==> items[i].encodes_to(#[trigger] others[i], encoder)
            },
            _ => false,
        }
    }

    /// The values of each of the combined expressions that an encoder is
    /// asked to encode; empty for a single clause.
    pub open spec fn encodable_parts(self) -> Seq<Seq<T>>
        decreases self, 0nat,
    {
        match self {
            UpdateTree::Combined(items) => Seq::new(
                items.len(),
                |i: int|
                    if 0 <= i < items.len() {
                        items[i].encodable()
                    } else {
                        Seq::empty()
                    },
            ),
            _ => Seq::empty(),
        }
    }

    /// The values of the expression that an encoder is asked to encode, in
    /// the order in which it is asked: clause by clause. A REMOVE clause has
    /// none.
    pub open spec fn encodable(self) -> Seq<T>
        decreases self, 1nat,
    {
        match self {
            UpdateTree::Add(inputs) => inputs.encodable(),
            UpdateTree::Delete(inputs) => inputs.encodable(),
            UpdateTree::Remove(_) => Seq::empty(),
            UpdateTree::SetValues(inputs) => inputs.encodable(),
            UpdateTree::Combined(_) => chained(self.encodable_parts()),
        }
    }
}

/// The encoder may accept each value of an expression that it has encoded.
pub proof fn lemma_update_values_accepted<T, U, E, F: Fn(T) -> Result<U, E>>(
    tree: UpdateTree<T>,
    encoded: UpdateTree<U>,
    encoder: F,
)
    requires
        tree.encodes_to(encoded, encoder),
    ensures
        accepts_all(encoder, tree.encodable()),
    decreases tree,
{
    match (tree, encoded) {
        (UpdateTree::Add(inputs), UpdateTree::Add(others)) => {
            lemma_add_or_delete_values_accepted(inputs, others, encoder);
        },
        (UpdateTree::Delete(inputs), UpdateTree::Delete(others)) => {
            lemma_add_or_delete_values_accepted(inputs, others, encoder);
        },
        (UpdateTree::SetValues(inputs), UpdateTree::SetValues(others)) => {
            lemma_set_values_accepted(inputs, others, encoder);
        },
        (UpdateTree::Combined(items), UpdateTree::Combined(others)) => {
            let parts = tree.encodable_parts();
            assert forall|i: int| 0 <= i < parts.len() implies accepts_all(
                encoder,
                #[trigger] parts[i],
            ) by {
                assert(items[i].encodes_to(others[i], encoder));
                lemma_update_values_accepted(items[i], others[i], encoder);
            }
            lemma_accepts_chained(encoder, parts);
        },
        _ => {},
    }
}

/// Encoding keeps the shape of a SET tree: the encoded tree takes as many
/// value placeholders as the tree it was encoded from, part by part, and
/// holds its subtrees under the same path segments.
pub proof fn lemma_set_encoding_keeps_shape<T, U, E, F: Fn(T) -> Result<U, E>>(
    tree: SetTree<T>,
    encoded: SetTree<U>,
    encoder: F,
)
    requires
        tree.encodes_to(encoded, encoder),
    ensures
        encoded.counts() == tree.counts(),
        encoded.operand_count() == tree.operand_count(),
        encoded.distinct_segments() == tree.distinct_segments(),
    decreases tree,
{
    assert(encoded.counts().len() == tree.counts().len());
    assert forall|i: int| 0 <= i < tree.counts().len() implies encoded.counts()[i]
        == tree.counts()[i] by {
        match (tree, encoded) {
            (SetTree::Node(children), SetTree::Node(others)) => {
                assert(children[i].1.encodes_to(others[i].1, encoder));
                lemma_set_encoding_keeps_shape(children[i].1, others[i].1, encoder);
            },
            _ => {},
        }
    }
    assert(encoded.counts() =~= tree.counts());
    match (tree, encoded) {
        (SetTree::Node(children), SetTree::Node(others)) => {
            assert forall|i: int| 0 <= i < children.len() implies children[i].0 == others[i].0
                && children[i].1.distinct_segments() == others[i].1.distinct_segments() by {
                assert(children[i].1.encodes_to(others[i].1, encoder));
                lemma_set_encoding_keeps_shape(children[i].1, others[i].1, encoder);
            }
            assert(segments_of(children) =~= segments_of(others));
        },
        _ => {},
    }
}

/// Encoding keeps the shape of an ADD or DELETE tree: the encoded tree takes
/// as many value placeholders as the tree it was encoded from, part by part,
/// and holds its subtrees under the same path segments.
pub proof fn lemma_add_or_delete_encoding_keeps_shape<T, U, E, F: Fn(T) -> Result<U, E>>(
    tree: AddOrDeleteTree<T>,
    encoded: AddOrDeleteTree<U>,
    encoder: F,
)
    requires
        tree.encodes_to(encoded, encoder),
    ensures
        encoded.counts() == tree.counts(),
        encoded.operand_count() == tree.operand_count(),
        encoded.distinct_segments() == tree.distinct_segments(),
    decreases tree,
{
    assert(encoded.counts().len() == tree.counts().len());
    assert forall|i: int| 0 <= i < tree.counts().len() implies encoded.counts()[i]
        == tree.counts()[i] by {
        match (tree, encoded) {
            (AddOrDeleteTree::Node(children), AddOrDeleteTree::Node(others)) => {
                assert(children[i].1.encodes_to(others[i].1, encoder));
                lemma_add_or_delete_encoding_keeps_shape(children[i].1, others[i].1, encoder);
            },
            _ => {},
        }
    }
    assert(encoded.counts() =~= tree.counts());
    match (tree, encoded) {
        (AddOrDeleteTree::Node(children), AddOrDeleteTree::Node(others)) => {
            assert forall|i: int| 0 <= i < children.len() implies children[i].0 == others[i].0
                && children[i].1.distinct_segments() == others[i].1.distinct_segments() by {
                assert(children[i].1.encodes_to(others[i].1, encoder));
                lemma_add_or_delete_encoding_keeps_shape(children[i].1, others[i].1, encoder);
            }
            assert(segments_of(children) =~= segments_of(others));
        },
        _ => {},
    }
}

/// Encoding keeps the shape of an update expression: the encoded expression
/// takes as many value placeholders as the one it was encoded from, and its
/// trees hold their subtrees under the same path segments.
pub proof fn lemma_update_encoding_keeps_shape<T, U, E, F: Fn(T) -> Result<U, E>>(
    tree: UpdateTree<T>,
    encoded: UpdateTree<U>,
    encoder: F,
)
    requires
        tree.encodes_to(encoded, encoder),
    ensures
        encoded.counts() == tree.counts(),
        encoded.operand_count() == tree.operand_count(),
        encoded.distinct_segments() == tree.distinct_segments(),
    decreases tree,
{
    match (tree, encoded) {
        (UpdateTree::Add(inputs), UpdateTree::Add(others)) => {
            lemma_add_or_delete_encoding_keeps_shape(inputs, others, encoder);
        },
        (UpdateTree::Delete(inputs), UpdateTree::Delete(others)) => {
            lemma_add_or_delete_encoding_keeps_shape(inputs, others, encoder);
        },
        (UpdateTree::SetValues(inputs), UpdateTree::SetValues(others)) => {
            lemma_set_encoding_keeps_shape(inputs, others, encoder);
        },
        (UpdateTree::Combined(items), UpdateTree::Combined(others)) => {
            assert(encoded.counts().len() == tree.counts().len());
            assert forall|i: int| 0 <= i < items.len() implies encoded.counts()[i]
                == tree.counts()[i] && (#[trigger] items[i]).distinct_segments()
                == others[i].distinct_segments() by {
                assert(items[i].encodes_to(others[i], encoder));
                lemma_update_encoding_keeps_shape(items[i], others[i], encoder);
            }
            if tree.distinct_segments() {
                assert forall|i: int| 0 <= i < others.len() implies (
                #[trigger] others[i]).distinct_segments() by {
                    assert(items[i].distinct_segments());
                }
            }
        },
        _ => {},
    }
    assert(encoded.counts() =~= tree.counts());
}

impl<T> UpdateExpressionMap<T> {
    /// Encodes the values of the expression and compiles it in a pass of
    /// its own. A refusal of the encoder ends the pass: the refusal is
    /// handed back, and no part of an atom with it.
    pub fn try_compile<E, F: Fn(T) -> Result<AttributeValue, E>>(self, encoder: &F) -> (compiled:
        Result<ExpressionInput, E>)
        requires
            forall|value: T| call_requires(*encoder, (value,)),
            self@.operand_count() <= usize::MAX,
        ensures
            match compiled {
                Ok(atom) => exists|encoded: UpdateTree<AttributeValue>|
                    self@.encodes_to(encoded, *encoder) && atom@ == #[trigger] encoded.compiled(
                        Seq::empty(),
                        0,
                    ),
                Err(error) => first_refusal(*encoder, self@.encodable(), error),
            },
    {
        match self.encode(encoder) {
            Ok(encoded) => {
                proof {
                    lemma_update_encoding_keeps_shape(self@, encoded@, *encoder);
                }
                Ok(encoded.compile())
            },
            Err(error) => Err(error),
        }
    }

    /// Encodes each value of the expression, clause by clause in their
    /// order. Where the encoder refuses a value, its refusal is handed back
    /// as it is, and nothing of the expression with it; it is the first
    /// refusal: each value before was accepted.
    pub fn encode<U, E, F: Fn(T) -> Result<U, E>>(self, encoder: &F) -> (encoded: Result<
        UpdateExpressionMap<U>,
        E,
    >)
        requires
            forall|value: T| call_requires(*encoder, (value,)),
        ensures
            match encoded {
                Ok(tree) => self@.encodes_to(tree@, *encoder),
                Err(error) => first_refusal(*encoder, self@.encodable(), error),
            },
        decreases self,
    {
        let ghost parts = self@.encodable_parts();
        match self {
            UpdateExpressionMap::Add(inputs) => match inputs.encode(encoder) {
                Ok(inputs) => Ok(UpdateExpressionMap::Add(inputs)),
                Err(error) => Err(error),
            },
            UpdateExpressionMap::Delete(inputs) => match inputs.encode(encoder) {
                Ok(inputs) => Ok(UpdateExpressionMap::Delete(inputs)),
                Err(error) => Err(error),
            },
            UpdateExpressionMap::Remove(selection) => Ok(UpdateExpressionMap::Remove(selection)),
            UpdateExpressionMap::SetValues(inputs) => match inputs.encode(encoder) {
                Ok(inputs) => Ok(UpdateExpressionMap::SetValues(inputs)),
                Err(error) => Err(error),
            },
            UpdateExpressionMap::Combined(items) => {
                let mut encoded: Vec<UpdateExpressionMap<U>> = Vec::new();
                let ghost all = items@;
                proof {
                    assert(decreases_to!(self => items));
                }
                for item in it: items.into_iter()
                    invariant
                        it.seq() == all,
                        all == items@,
                        decreases_to!(self => items),
                        self@ is Combined,
                        self@->Combined_0.len() == all.len(),
                        forall|i: int|
                            0 <= i < all.len() ==> #[trigger] self@->Combined_0[i] == all[i]@,
                        parts == self@.encodable_parts(),
                        parts.len() == all.len(),
                        forall|i: int|
                            0 <= i < all.len() ==> #[trigger] parts[i] == all[i]@.encodable(),
                        forall|i: int|
                            0 <= i < it.index() ==> accepts_all(*encoder, #[trigger] parts[i]),
                        forall|value: T| call_requires(*encoder, (value,)),
                        encoded.len() == it.index(),
                        forall|i: int|
                            0 <= i < it.index() ==> all[i]@.encodes_to(
                                (#[trigger] encoded[i])@,
                                *encoder,
                            ),
                {
                    proof {
                        assert(item == items[it.index() as int]);
                        vstd::std_specs::vec::axiom_vec_index_decreases(items, it.index() as int);
                    }
                    match item.encode(encoder) {
                        Ok(item) => {
                            proof {
                                lemma_update_values_accepted(
                                    all[it.index() as int]@,
                                    item@,
                                    *encoder,
                                );
                            }
                            encoded.push(item)
                        },
                        Err(error) => {
                            proof {
                                lemma_refusal_chained(*encoder, parts, it.index() as int, error);
                            }
                            return Err(error);
                        },
                    }
                }
                let tree = UpdateExpressionMap::Combined(encoded);
                proof {
                    assert forall|i: int| 0 <= i < all.len() implies self@->Combined_0[i].encodes_to(
                        #[trigger] tree@->Combined_0[i],
                        *encoder,
                    ) by {
                        assert(tree@->Combined_0[i] == encoded[i]@);
                    }
                }
                Ok(tree)
            },
        }
    }
}

} // verus!
