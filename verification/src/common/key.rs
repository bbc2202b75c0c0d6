//! Primary keys of items.

use crate::common::attribute_map::AttributeMap;
use aws_sdk_dynamodb::types::AttributeValue;
use vstd::prelude::*;

verus! {

/// One component of a primary key.
#[derive(Clone, Debug, PartialEq)]
pub struct Key<T> {
    /// The attribute that holds the key.
    pub name: String,
    /// The value of the key.
    pub value: T,
}

impl<T: Default> Default for Key<T> {
    /// The key of the attribute with the empty name, with the default value
    /// of its type.
    fn default() -> (key: Self)
        ensures
            key.name@ == Seq::<char>::empty(),
            call_ensures(T::default, (), key.value),
    {
        Key { name: String::new(), value: T::default() }
    }
}

/// The mathematical value that a `Key` stands for.
pub struct KeyView<T> {
    pub name: Seq<char>,
    pub value: T,
}

impl<T> View for Key<T> {
    type V = KeyView<T>;

    open spec fn view(&self) -> KeyView<T> {
        KeyView { name: self.name@, value: self.value }
    }
}

/// A primary key: a partition key and, where the table has one, a sort key.
#[derive(Clone, Debug, PartialEq)]
pub struct Keys<T> {
    /// The partition key.
    pub partition_key: Key<T>,
    /// The sort key.
    pub sort_key: Option<Key<T>>,
}

impl<T: Default> Default for Keys<T> {
    /// The default partition key, without a sort key.
    fn default() -> (keys: Self)
        ensures
            keys.partition_key.name@ == Seq::<char>::empty(),
            call_ensures(T::default, (), keys.partition_key.value),
            keys.sort_key is None,
    {
        Keys { partition_key: Key::default(), sort_key: None }
    }
}

/// The mathematical value that `Keys` stand for.
pub struct KeysView<T> {
    pub partition_key: KeyView<T>,
    pub sort_key: Option<KeyView<T>>,
}

impl<T> View for Keys<T> {
    type V = KeysView<T>;

    open spec fn view(&self) -> KeysView<T> {
        KeysView {
            partition_key: self.partition_key@,
            sort_key: match self.sort_key {
                Some(key) => Some(key@),
                None => None,
            },
        }
    }
}

impl<T> KeysView<T> {
    /// The key as the table of a request holds it: the value of each
    /// component under the name of its attribute. Where both components name
    /// the same attribute, the sort key stays.
    pub open spec fn attributes(self) -> Map<Seq<char>, T> {
        let partition = map![self.partition_key.name => self.partition_key.value];
        match self.sort_key {
            Some(key) => partition.insert(key.name, key.value),
            None => partition,
        }
    }
}

impl Keys<AttributeValue> {
    /// The key as the table of a request holds it.
    pub fn into_attributes(self) -> (attributes: AttributeMap<AttributeValue>)
        ensures
            attributes@ == self@.attributes(),
    {
        let mut attributes: AttributeMap<AttributeValue> = AttributeMap::new();
        attributes.insert(self.partition_key.name, self.partition_key.value);
        if let Some(sort_key) = self.sort_key {
            attributes.insert(sort_key.name, sort_key.value);
        }
        attributes
    }
}

} // verus!
