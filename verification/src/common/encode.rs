//! Encoding the operands of a tree: the trees of this library hold values of
//! any type, and an encoder turns them into the values that a request can
//! carry. An encoder may refuse a value; the first refusal ends the encoding
//! and nothing of the tree is handed back.

use crate::common::condition::{
    Condition, ConditionMap, ConditionTree, ConditionView, KeyCondition, KeyConditionView,
};
use crate::common::key::{Key, Keys, KeysView};
use crate::common::selection::segments_of;
use crate::common::ExpressionInput;
use aws_sdk_dynamodb::types::AttributeValue;
use vstd::prelude::*;

verus! {

/// Whether the encoder may turn `value` into `encoded`.
pub open spec fn accepts<T, U, E, F: Fn(T) -> Result<U, E>>(
    encoder: F,
    value: T,
    encoded: U,
) -> bool {
    call_ensures(encoder, (value,), Ok(encoded))
}

/// Whether the encoder may refuse `value` with `error`.
pub open spec fn refuses<T, U, E, F: Fn(T) -> Result<U, E>>(
    encoder: F,
    value: T,
    error: E,
) -> bool {
    call_ensures(encoder, (value,), Err(error))
}

/// Whether the encoder may accept `value`.
pub open spec fn acceptable<T, U, E, F: Fn(T) -> Result<U, E>>(encoder: F, value: T) -> bool {
    exists|encoded: U| accepts(encoder, value, encoded)
}

/// Whether the encoder may accept each value of a list.
pub open spec fn accepts_all<T, U, E, F: Fn(T) -> Result<U, E>>(
    encoder: F,
    values: Seq<T>,
) -> bool {
    forall|i: int| 0 <= i < values.len() ==> acceptable(encoder, #[trigger] values[i])
}

/// Whether `error` may be the first refusal that the encoder makes on a list
/// of values asked in their order: the encoder may refuse one of them with
/// `error`, and may accept each value before that one.
pub open spec fn first_refusal<T, U, E, F: Fn(T) -> Result<U, E>>(
    encoder: F,
    values: Seq<T>,
    error: E,
) -> bool {
    exists|p: int|
        0 <= p < values.len() && refuses(encoder, #[trigger] values[p], error) && accepts_all(
            encoder,
            values.take(p),
        )
}

/// The lists of a list, one after the other.
pub open spec fn chained<T>(lists: Seq<Seq<T>>) -> Seq<T>
    decreases lists.len(),
{
    if lists.len() == 0 {
        Seq::empty()
    } else {
        chained(lists.drop_last()) + lists.last()
    }
}

/// Two lists of values that the encoder may accept make one such list.
pub proof fn lemma_accepts_both<T, U, E, F: Fn(T) -> Result<U, E>>(
    encoder: F,
    front: Seq<T>,
    back: Seq<T>,
)
    requires
        accepts_all(encoder, front),
        accepts_all(encoder, back),
    ensures
        accepts_all(encoder, front + back),
{
    let both = front + back;
    assert forall|i: int| 0 <= i < both.len() implies acceptable(encoder, #[trigger] both[i]) by {
        if i < front.len() {
            assert(both[i] == front[i]);
        } else {
            assert(both[i] == back[i - front.len()]);
        }
    }
}

/// Lists of values that the encoder may accept chain to one such list.
pub proof fn lemma_accepts_chained<T, U, E, F: Fn(T) -> Result<U, E>>(
    encoder: F,
    lists: Seq<Seq<T>>,
)
    requires
        forall|i: int| 0 <= i < lists.len() ==> accepts_all(encoder, #[trigger] lists[i]),
    ensures
        accepts_all(encoder, chained(lists)),
    decreases lists.len(),
{
    if lists.len() > 0 {
        let front = lists.drop_last();
        assert forall|i: int| 0 <= i < front.len() implies accepts_all(
            encoder,
            #[trigger] front[i],
        ) by {
            assert(front[i] == lists[i]);
        }
        lemma_accepts_chained(encoder, front);
        assert(lists[lists.len() - 1] == lists.last());
        lemma_accepts_both(encoder, chained(front), lists.last());
    }
}

/// A first refusal stays the first where more values follow.
pub proof fn lemma_refusal_before<T, U, E, F: Fn(T) -> Result<U, E>>(
    encoder: F,
    front: Seq<T>,
    back: Seq<T>,
    error: E,
)
    requires
        first_refusal(encoder, front, error),
    ensures
        first_refusal(encoder, front + back, error),
{
    let p = choose|p: int|
        0 <= p < front.len() && refuses(encoder, #[trigger] front[p], error) && accepts_all(
            encoder,
            front.take(p),
        );
    let both = front + back;
    assert(both[p] == front[p]);
    assert(both.take(p) =~= front.take(p));
}

/// The first refusal after values that the encoder may accept is the first
/// refusal of all.
pub proof fn lemma_refusal_after<T, U, E, F: Fn(T) -> Result<U, E>>(
    encoder: F,
    front: Seq<T>,
    back: Seq<T>,
    error: E,
)
    requires
        accepts_all(encoder, front),
        first_refusal(encoder, back, error),
    ensures
        first_refusal(encoder, front + back, error),
{
    let p = choose|p: int|
        0 <= p < back.len() && refuses(encoder, #[trigger] back[p], error) && accepts_all(
            encoder,
            back.take(p),
        );
    let both = front + back;
    let q = front.len() + p;
    assert(both[q] == back[p]);
    lemma_accepts_both(encoder, front, back.take(p));
    assert(both.take(q) =~= front + back.take(p));
}

/// A refusal is the first where the encoder may accept each value before it.
pub proof fn lemma_refused_alone<T, U, E, F: Fn(T) -> Result<U, E>>(
    encoder: F,
    values: Seq<T>,
    at: int,
    error: E,
)
    requires
        0 <= at < values.len(),
        refuses(encoder, values[at], error),
        forall|i: int| 0 <= i < at ==> acceptable(encoder, #[trigger] values[i]),
    ensures
        first_refusal(encoder, values, error),
{
    let before = values.take(at);
    assert forall|i: int| 0 <= i < before.len() implies acceptable(
        encoder,
        #[trigger] before[i],
    ) by {
        assert(before[i] == values[i]);
    }
}

/// Where the encoder may accept the values of the lists before one list,
/// the first refusal in that list is the first refusal in the chain of all.
pub proof fn lemma_refusal_chained<T, U, E, F: Fn(T) -> Result<U, E>>(
    encoder: F,
    lists: Seq<Seq<T>>,
    at: int,
    error: E,
)
    requires
        0 <= at < lists.len(),
        forall|i: int| 0 <= i < at ==> accepts_all(encoder, #[trigger] lists[i]),
        first_refusal(encoder, lists[at], error),
    ensures
        first_refusal(encoder, chained(lists), error),
    decreases lists.len(),
{
    let front = lists.drop_last();
    if at == lists.len() - 1 {
        assert forall|i: int| 0 <= i < front.len() implies accepts_all(
            encoder,
            #[trigger] front[i],
        ) by {
            assert(front[i] == lists[i]);
        }
        lemma_accepts_chained(encoder, front);
        lemma_refusal_after(encoder, chained(front), lists.last(), error);
    } else {
        assert forall|i: int| 0 <= i < at implies accepts_all(encoder, #[trigger] front[i]) by {
            assert(front[i] == lists[i]);
        }
        assert(front[at] == lists[at]);
        lemma_refusal_chained(encoder, front, at, error);
        lemma_refusal_before(encoder, chained(front), lists.last(), error);
    }
}

impl<T> ConditionView<T> {
    /// Whether `encoded` is this condition with each operand encoded: the
    /// same test, the text of a prefix untouched.
    pub open spec fn encodes_to<U, E, F: Fn(T) -> Result<U, E>>(
        self,
        encoded: ConditionView<U>,
        encoder: F,
    ) -> bool {
        match (self, encoded) {
            (ConditionView::BeginsWith(prefix), ConditionView::BeginsWith(same)) => prefix == same,
            (ConditionView::Between(low, high), ConditionView::Between(lower, higher)) => accepts(
                encoder,
                low,
                lower,
            ) && accepts(encoder, high, higher),
            (ConditionView::Contains(value), ConditionView::Contains(other)) => accepts(
                encoder,
                value,
                other,
            ),
            (ConditionView::Equals(value), ConditionView::Equals(other)) => accepts(
                encoder,
                value,
                other,
            ),
            (ConditionView::GreaterThan(value), ConditionView::GreaterThan(other)) => accepts(
                encoder,
                value,
                other,
            ),
            (
                ConditionView::GreaterThanOrEqual(value),
                ConditionView::GreaterThanOrEqual(other),
            ) => accepts(encoder, value, other),
            (ConditionView::In(values), ConditionView::In(others)) => values.len() == others.len()
                && forall|i: int|
                0 <= i < values.len() ==> accepts(encoder, values[i], #[trigger] others[i]),
            (ConditionView::LessThan(value), ConditionView::LessThan(other)) => accepts(
                encoder,
                value,
                other,
            ),
            (ConditionView::LessThanOrEqual(value), ConditionView::LessThanOrEqual(other)) => accepts(
                encoder,
                value,
                other,
            ),
            (ConditionView::NotContains(value), ConditionView::NotContains(other)) => accepts(
                encoder,
                value,
                other,
            ),
            (ConditionView::NotEqual(value), ConditionView::NotEqual(other)) => accepts(
                encoder,
                value,
                other,
            ),
            (ConditionView::NotNull, ConditionView::NotNull) => true,
            (ConditionView::Null, ConditionView::Null) => true,
            _ => false,
        }
    }

    /// The operands of the condition that an encoder is asked to encode, in
    /// the order in which it is asked.
    pub open spec fn encodable(self) -> Seq<T> {
        match self {
            ConditionView::BeginsWith(_) => Seq::empty(),
            ConditionView::Between(low, high) => seq![low, high],
            ConditionView::Contains(value) => seq![value],
            ConditionView::Equals(value) => seq![value],
            ConditionView::GreaterThan(value) => seq![value],
            ConditionView::GreaterThanOrEqual(value) => seq![value],
            ConditionView::In(values) => values,
            ConditionView::LessThan(value) => seq![value],
            ConditionView::LessThanOrEqual(value) => seq![value],
            ConditionView::NotContains(value) => seq![value],
            ConditionView::NotEqual(value) => seq![value],
            ConditionView::NotNull => Seq::empty(),
            ConditionView::Null => Seq::empty(),
        }
    }

}

/// The encoder may accept each operand of a condition that it has encoded.
pub proof fn lemma_condition_operands_accepted<T, U, E, F: Fn(T) -> Result<U, E>>(
    condition: ConditionView<T>,
    encoded: ConditionView<U>,
    encoder: F,
)
    requires
        condition.encodes_to(encoded, encoder),
    ensures
        accepts_all(encoder, condition.encodable()),
{
    let asked = condition.encodable();
    assert forall|i: int| 0 <= i < asked.len() implies acceptable(encoder, #[trigger] asked[i]) by {
        match (condition, encoded) {
            (ConditionView::Between(low, high), ConditionView::Between(lower, higher)) => {
                assert(accepts(encoder, low, lower));
                assert(accepts(encoder, high, higher));
            },
            (ConditionView::Contains(value), ConditionView::Contains(other)) => {
                assert(accepts(encoder, value, other));
            },
            (ConditionView::Equals(value), ConditionView::Equals(other)) => {
                assert(accepts(encoder, value, other));
            },
            (ConditionView::GreaterThan(value), ConditionView::GreaterThan(other)) => {
                assert(accepts(encoder, value, other));
            },
            (
                ConditionView::GreaterThanOrEqual(value),
                ConditionView::GreaterThanOrEqual(other),
            ) => {
                assert(accepts(encoder, value, other));
            },
            (ConditionView::In(values), ConditionView::In(others)) => {
                assert(accepts(encoder, values[i], others[i]));
            },
            (ConditionView::LessThan(value), ConditionView::LessThan(other)) => {
                assert(accepts(encoder, value, other));
            },
            (ConditionView::LessThanOrEqual(value), ConditionView::LessThanOrEqual(other)) => {
                assert(accepts(encoder, value, other));
            },
            (ConditionView::NotContains(value), ConditionView::NotContains(other)) => {
                assert(accepts(encoder, value, other));
            },
            (ConditionView::NotEqual(value), ConditionView::NotEqual(other)) => {
                assert(accepts(encoder, value, other));
            },
            _ => {},
        }
    }
}

impl<T> Condition<T> {
    /// Encodes each operand of the condition, in their order. Where the
    /// encoder refuses an operand, its refusal is handed back as it is, and
    /// it is the first: each operand before was accepted.
    pub fn encode<U, E, F: Fn(T) -> Result<U, E>>(self, encoder: &F) -> (encoded: Result<
        Condition<U>,
        E,
    >)
        requires
            forall|value: T| call_requires(*encoder, (value,)),
        ensures
            match encoded {
                Ok(condition) => self@.encodes_to(condition@, *encoder),
                Err(error) => first_refusal(*encoder, self@.encodable(), error),
            },
    {
        let ghost asked = self@.encodable();
        match self {
            Condition::BeginsWith(prefix) => Ok(Condition::BeginsWith(prefix)),
            Condition::Between(low, high) => {
                let lower = match encoder(low) {
                    Ok(value) => value,
                    Err(error) => {
                        proof {
                            lemma_refused_alone(*encoder, asked, 0, error);
                        }
                        return Err(error);
                    },
                };
                let higher = match encoder(high) {
                    Ok(value) => value,
                    Err(error) => {
                        proof {
                            assert(accepts(*encoder, asked[0], lower));
                            lemma_refused_alone(*encoder, asked, 1, error);
                        }
                        return Err(error);
                    },
                };
                Ok(Condition::Between(lower, higher))
            },
            Condition::Contains(value) => match encoder(value) {
                Ok(value) => Ok(Condition::Contains(value)),
                Err(error) => {
                    proof {
                        lemma_refused_alone(*encoder, asked, 0, error);
                    }
                    Err(error)
                },
            },
            Condition::Equals(value) => match encoder(value) {
                Ok(value) => Ok(Condition::Equals(value)),
                Err(error) => {
                    proof {
                        lemma_refused_alone(*encoder, asked, 0, error);
                    }
                    Err(error)
                },
            },
            Condition::GreaterThan(value) => match encoder(value) {
                Ok(value) => Ok(Condition::GreaterThan(value)),
                Err(error) => {
                    proof {
                        lemma_refused_alone(*encoder, asked, 0, error);
                    }
                    Err(error)
                },
            },
            Condition::GreaterThanOrEqual(value) => match encoder(value) {
                Ok(value) => Ok(Condition::GreaterThanOrEqual(value)),
                Err(error) => {
                    proof {
                        lemma_refused_alone(*encoder, asked, 0, error);
                    }
                    Err(error)
                },
            },
            Condition::In(values) => {
                let mut encoded: Vec<U> = Vec::new();
                let ghost all = values@;
                for value in it: values.into_iter()
                    invariant
                        it.seq() == all,
                        asked == all,
                        self@.encodable() == asked,
                        forall|value: T| call_requires(*encoder, (value,)),
                        encoded.len() == it.index(),
                        forall|i: int|
                            0 <= i < it.index() ==> accepts(
                                *encoder,
                                all[i],
                                #[trigger] encoded[i],
                            ),
                {
                    match encoder(value) {
                        Ok(value) => encoded.push(value),
                        Err(error) => {
                            proof {
                                assert forall|i: int| 0 <= i < it.index() implies acceptable(
                                    *encoder,
                                    #[trigger] asked[i],
                                ) by {
                                    assert(accepts(*encoder, all[i], encoded[i]));
                                }
                                lemma_refused_alone(*encoder, asked, it.index() as int, error);
                            }
                            return Err(error);
                        },
                    }
                }
                Ok(Condition::In(encoded))
            },
            Condition::LessThan(value) => match encoder(value) {
                Ok(value) => Ok(Condition::LessThan(value)),
                Err(error) => {
                    proof {
                        lemma_refused_alone(*encoder, asked, 0, error);
                    }
                    Err(error)
                },
            },
            Condition::LessThanOrEqual(value) => match encoder(value) {
                Ok(value) => Ok(Condition::LessThanOrEqual(value)),
                Err(error) => {
                    proof {
                        lemma_refused_alone(*encoder, asked, 0, error);
                    }
                    Err(error)
                },
            },
            Condition::NotContains(value) => match encoder(value) {
                Ok(value) => Ok(Condition::NotContains(value)),
                Err(error) => {
                    proof {
                        lemma_refused_alone(*encoder, asked, 0, error);
                    }
                    Err(error)
                },
            },
            Condition::NotEqual(value) => match encoder(value) {
                Ok(value) => Ok(Condition::NotEqual(value)),
                Err(error) => {
                    proof {
                        lemma_refused_alone(*encoder, asked, 0, error);
                    }
                    Err(error)
                },
            },
            Condition::NotNull => Ok(Condition::NotNull),
            Condition::Null => Ok(Condition::Null),
        }
    }
}

impl<T> KeyConditionView<T> {
    /// Whether `encoded` is this condition with each operand encoded, on the
    /// same attribute.
    pub open spec fn encodes_to<U, E, F: Fn(T) -> Result<U, E>>(
        self,
        encoded: KeyConditionView<U>,
        encoder: F,
    ) -> bool {
        self.name == encoded.name && self.condition.encodes_to(encoded.condition, encoder)
    }
}

impl<T> KeyCondition<T> {
    /// Encodes each operand of the condition, in their order. The first
    /// refusal of the encoder is handed back as it is.
    pub fn encode<U, E, F: Fn(T) -> Result<U, E>>(self, encoder: &F) -> (encoded: Result<
        KeyCondition<U>,
        E,
    >)
        requires
            forall|value: T| call_requires(*encoder, (value,)),
        ensures
            match encoded {
                Ok(condition) => self@.encodes_to(condition@, *encoder),
                Err(error) => first_refusal(*encoder, self@.condition.encodable(), error),
            },
    {
        match self.condition.encode(encoder) {
            Ok(condition) => Ok(KeyCondition { condition, name: self.name }),
            Err(error) => Err(error),
        }
    }
}

impl<T> ConditionTree<T> {
    /// Whether `encoded` is this tree with each operand encoded: the same
    /// operators, attributes and path segments in the same places.
    pub open spec fn encodes_to<U, E, F: Fn(T) -> Result<U, E>>(
        self,
        encoded: ConditionTree<U>,
        encoder: F,
    ) -> bool
        decreases self,
    {
        match (self, encoded) {
            (
                ConditionTree::Leaves(operator, conditions),
                ConditionTree::Leaves(same, others),
            ) => {
                &&& operator == same
                &&& conditions.len() == others.len()
                &&& forall|i: int|
                    0 <= i < conditions.len() ==> conditions[i].encodes_to(
                        #[trigger] others[i],
                        encoder,
                    )
            },
            (ConditionTree::Node(operator, children), ConditionTree::Node(same, others)) => {
                &&& operator == same
                &&& children.len() == others.len()
                &&& forall|i: int|
                    0 <= i < children.len() ==> children[i].0 == (#[trigger] others[i]).0
                        && children[i].1.encodes_to(others[i].1, encoder)
            },
            _ => false,
        }
    }

    /// The operands of each part under the root that an encoder is asked to
    /// encode.
    pub open spec fn encodable_parts(self) -> Seq<Seq<T>>
        decreases self, 0nat,
    {
        match self {
            ConditionTree::Leaves(_, conditions) => Seq::new(
                conditions.len(),
                |i: int| conditions[i].condition.encodable(),
            ),
            ConditionTree::Node(_, children) => Seq::new(
                children.len(),
                |i: int|
                    if 0 <= i < children.len() {
                        children[i].1.encodable()
                    } else {
                        Seq::empty()
                    },
            ),
        }
    }

    /// The operands of the tree that an encoder is asked to encode, in the
    /// order in which it is asked: that in which a pass meets them.
    pub open spec fn encodable(self) -> Seq<T>
        decreases self, 1nat,
    {
        chained(self.encodable_parts())
    }
}

/// The encoder may accept each operand of a tree that it has encoded.
pub proof fn lemma_condition_tree_operands_accepted<T, U, E, F: Fn(T) -> Result<U, E>>(
    tree: ConditionTree<T>,
    encoded: ConditionTree<U>,
    encoder: F,
)
    requires
        tree.encodes_to(encoded, encoder),
    ensures
        accepts_all(encoder, tree.encodable()),
    decreases tree,
{
    let parts = tree.encodable_parts();
    assert forall|i: int| 0 <= i < parts.len() implies accepts_all(
        encoder,
        #[trigger] parts[i],
    ) by {
        match (tree, encoded) {
            (ConditionTree::Leaves(_, conditions), ConditionTree::Leaves(_, others)) => {
                assert(conditions[i].encodes_to(others[i], encoder));
                lemma_condition_operands_accepted(
                    conditions[i].condition,
                    others[i].condition,
                    encoder,
                );
            },
            (ConditionTree::Node(_, children), ConditionTree::Node(_, others)) => {
                assert(children[i].1.encodes_to(others[i].1, encoder));
                lemma_condition_tree_operands_accepted(children[i].1, others[i].1, encoder);
            },
            _ => {},
        }
    }
    lemma_accepts_chained(encoder, parts);
}

impl<T> ConditionMap<T> {
    /// Encodes each operand of the tree, in the order in which a pass meets
    /// them. Where the encoder refuses an operand, its refusal is handed back
    /// as it is, and nothing of the tree with it; it is the first refusal:
    /// each operand before was accepted.
    pub fn encode<U, E, F: Fn(T) -> Result<U, E>>(self, encoder: &F) -> (encoded: Result<
        ConditionMap<U>,
        E,
    >)
        requires
            forall|value: T| call_requires(*encoder, (value,)),
        ensures
            match encoded {
                Ok(tree) => self@.encodes_to(tree@, *encoder),
                Err(error) => first_refusal(*encoder, self@.encodable(), error),
            },
        decreases self,
    {
        let ghost parts = self@.encodable_parts();
        match self {
            ConditionMap::Leaves(operator, key_conditions) => {
                let mut encoded: Vec<KeyCondition<U>> = Vec::new();
                let ghost all = key_conditions@;
                for key_condition in it: key_conditions.into_iter()
                    invariant
                        it.seq() == all,
                        self@ is Leaves,
                        self@->Leaves_1.len() == all.len(),
                        forall|i: int|
                            0 <= i < all.len() ==> #[trigger] self@->Leaves_1[i] == all[i]@,
                        parts == self@.encodable_parts(),
                        parts.len() == all.len(),
                        forall|i: int|
                            0 <= i < all.len() ==> #[trigger] parts[i]
                                == all[i]@.condition.encodable(),
                        forall|value: T| call_requires(*encoder, (value,)),
                        encoded.len() == it.index(),
                        forall|i: int|
                            0 <= i < it.index() ==> all[i]@.encodes_to(
                                (#[trigger] encoded[i])@,
                                *encoder,
                            ),
                        forall|i: int|
                            0 <= i < it.index() ==> accepts_all(*encoder, #[trigger] parts[i]),
                {
                    match key_condition.encode(encoder) {
                        Ok(key_condition) => {
                            proof {
                                lemma_condition_operands_accepted(
                                    all[it.index() as int]@.condition,
                                    key_condition@.condition,
                                    *encoder,
                                );
                            }
                            encoded.push(key_condition)
                        },
                        Err(error) => {
                            proof {
                                lemma_refusal_chained(*encoder, parts, it.index() as int, error);
                            }
                            return Err(error);
                        },
                    }
                }
                let tree = ConditionMap::Leaves(operator, encoded);
                proof {
                    assert forall|i: int| 0 <= i < all.len() implies self@->Leaves_1[i].encodes_to(
                        #[trigger] tree@->Leaves_1[i],
                        *encoder,
                    ) by {
                        assert(tree@->Leaves_1[i] == encoded[i]@);
                    }
                }
                Ok(tree)
            },
            ConditionMap::Node(operator, map) => {
                let mut encoded: Vec<(String, ConditionMap<U>)> = Vec::new();
                let ghost all = map@;
                proof {
                    assert(decreases_to!(self => map));
                }
                for entry in it: map.into_iter()
                    invariant
                        it.seq() == all,
                        all == map@,
                        decreases_to!(self => map),
                        self@ is Node,
                        self@->Node_1.len() == all.len(),
                        forall|i: int|
                            0 <= i < all.len() ==> #[trigger] self@->Node_1[i] == (
                                all[i].0@,
                                all[i].1@,
                            ),
                        parts == self@.encodable_parts(),
                        parts.len() == all.len(),
                        forall|i: int|
                            0 <= i < all.len() ==> #[trigger] parts[i] == all[i].1@.encodable(),
                        forall|value: T| call_requires(*encoder, (value,)),
                        encoded.len() == it.index(),
                        forall|i: int|
                            0 <= i < it.index() ==> all[i].0@ == (#[trigger] encoded[i]).0@
                                && all[i].1@.encodes_to(encoded[i].1@, *encoder),
                        forall|i: int|
                            0 <= i < it.index() ==> accepts_all(*encoder, #[trigger] parts[i]),
                {
                    proof {
                        assert(entry == map[it.index() as int]);
                        vstd::std_specs::vec::axiom_vec_index_decreases(map, it.index() as int);
                    }
                    let (key, value) = entry;
                    match value.encode(encoder) {
                        Ok(value) => {
                            proof {
                                lemma_condition_tree_operands_accepted(
                                    all[it.index() as int].1@,
                                    value@,
                                    *encoder,
                                );
                            }
                            encoded.push((key, value))
                        },
                        Err(error) => {
                            proof {
                                lemma_refusal_chained(*encoder, parts, it.index() as int, error);
                            }
                            return Err(error);
                        },
                    }
                }
                let tree = ConditionMap::Node(operator, encoded);
                proof {
                    assert forall|i: int| 0 <= i < all.len() implies self@->Node_1[i].0 == (
                    #[trigger] tree@->Node_1[i]).0 && self@->Node_1[i].1.encodes_to(
                        tree@->Node_1[i].1,
                        *encoder,
                    ) by {
                        assert(tree@->Node_1[i] == (encoded[i].0@, encoded[i].1@));
                    }
                }
                Ok(tree)
            },
        }
    }
}

/// Encoding keeps the shape of a tree: the encoded tree takes as many value
/// placeholders as the tree it was encoded from, part by part, and holds its
/// subtrees under the same path segments.
pub proof fn lemma_condition_encoding_keeps_shape<T, U, E, F: Fn(T) -> Result<U, E>>(
    tree: ConditionTree<T>,
    encoded: ConditionTree<U>,
    encoder: F,
)
    requires
        tree.encodes_to(encoded, encoder),
    ensures
        encoded.counts() == tree.counts(),
        encoded.operand_count() == tree.operand_count(),
        encoded.distinct_segments() == tree.distinct_segments(),
    decreases tree,
{
    assert(encoded.counts().len() == tree.counts().len());
    assert forall|i: int| 0 <= i < tree.counts().len() implies encoded.counts()[i]
        == tree.counts()[i] by {
        match (tree, encoded) {
            (ConditionTree::Leaves(_, conditions), ConditionTree::Leaves(_, others)) => {
                assert(conditions[i].encodes_to(others[i], encoder));
            },
            (ConditionTree::Node(_, children), ConditionTree::Node(_, others)) => {
                assert(children[i].1.encodes_to(others[i].1, encoder));
                lemma_condition_encoding_keeps_shape(children[i].1, others[i].1, encoder);
            },
            _ => {},
        }
    }
    assert(encoded.counts() =~= tree.counts());
    match (tree, encoded) {
        (ConditionTree::Node(_, children), ConditionTree::Node(_, others)) => {
            assert forall|i: int| 0 <= i < children.len() implies children[i].0 == others[i].0
                && children[i].1.distinct_segments() == others[i].1.distinct_segments() by {
                assert(children[i].1.encodes_to(others[i].1, encoder));
                lemma_condition_encoding_keeps_shape(children[i].1, others[i].1, encoder);
            }
            assert(segments_of(children) =~= segments_of(others));
        },
        _ => {},
    }
}

impl<T> ConditionMap<T> {
    /// Encodes the operands of the tree and compiles it in a pass of its
    /// own. A refusal of the encoder ends the pass: the refusal is handed
    /// back, and no part of an atom with it.
    pub fn try_compile<E, F: Fn(T) -> Result<AttributeValue, E>>(self, encoder: &F) -> (compiled:
        Result<ExpressionInput, E>)
        requires
            forall|value: T| call_requires(*encoder, (value,)),
            self@.operand_count() <= usize::MAX,
        ensures
            match compiled {
                Ok(atom) => exists|encoded: ConditionTree<AttributeValue>|
                    self@.encodes_to(encoded, *encoder) && atom@ == #[trigger] encoded.compiled(
                        Seq::empty(),
                        0,
                        false,
                    ),
                Err(error) => first_refusal(*encoder, self@.encodable(), error),
            },
    {
        match self.encode(encoder) {
            Ok(encoded) => {
                proof {
                    lemma_condition_encoding_keeps_shape(self@, encoded@, *encoder);
                }
                Ok(encoded.compile())
            },
            Err(error) => Err(error),
        }
    }
}

impl<T> KeysView<T> {
    /// Whether `encoded` is this key with the value of each component
    /// encoded.
    pub open spec fn encodes_to<U, E, F: Fn(T) -> Result<U, E>>(
        self,
        encoded: KeysView<U>,
        encoder: F,
    ) -> bool {
        &&& self.partition_key.name == encoded.partition_key.name
        &&& accepts(encoder, self.partition_key.value, encoded.partition_key.value)
        &&& match (self.sort_key, encoded.sort_key) {
            (Some(key), Some(other)) => key.name == other.name && accepts(
                encoder,
                key.value,
                other.value,
            ),
            (None, None) => true,
            _ => false,
        }
    }

    /// The values of the key that an encoder is asked to encode, in the
    /// order in which it is asked: the partition key first.
    pub open spec fn encodable(self) -> Seq<T> {
        match self.sort_key {
            Some(key) => seq![self.partition_key.value, key.value],
            None => seq![self.partition_key.value],
        }
    }
}

impl<T> Keys<T> {
    /// Encodes the value of the partition key, then that of the sort key.
    /// Where the encoder refuses a value, its refusal is handed back as it
    /// is; it is the first refusal: the value before was accepted.
    pub fn encode<U, E, F: Fn(T) -> Result<U, E>>(self, encoder: &F) -> (encoded: Result<
        Keys<U>,
        E,
    >)
        requires
            forall|value: T| call_requires(*encoder, (value,)),
        ensures
            match encoded {
                Ok(keys) => self@.encodes_to(keys@, *encoder),
                Err(error) => first_refusal(*encoder, self@.encodable(), error),
            },
    {
        let ghost asked = self@.encodable();
        let partition_key = match encoder(self.partition_key.value) {
            Ok(value) => Key { name: self.partition_key.name, value },
            Err(error) => {
                proof {
                    lemma_refused_alone(*encoder, asked, 0, error);
                }
                return Err(error);
            },
        };
        let sort_key = match self.sort_key {
            Some(key) => match encoder(key.value) {
                Ok(value) => Some(Key { name: key.name, value }),
                Err(error) => {
                    proof {
                        assert(accepts(*encoder, asked[0], partition_key.value));
                        lemma_refused_alone(*encoder, asked, 1, error);
                    }
                    return Err(error);
                },
            },
            None => None,
        };
        Ok(Keys { partition_key, sort_key })
    }
}

} // verus!
