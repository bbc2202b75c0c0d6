//! Selection trees: which attributes a projection names.

use crate::common::attribute_map::AttributeMap;
use crate::common::{
    add_placeholder, all_differ, atoms, join_path, lemma_merged_names_sound,
    lemma_merged_no_values, lemma_merged_single, merged, name_placeholder, names_sound, path_text,
    segments, segments_differ, texts, Atom, ExpressionInput,
};
use aws_sdk_dynamodb::types::AttributeValue;
use vstd::prelude::*;

verus! {

/// A tree of attribute paths to select.
#[derive(Debug, PartialEq, Eq, Hash)]
pub enum SelectionMap {
    /// Attribute names directly under the current path.
    Leaves(Vec<String>),
    /// Subtrees, each under one more path segment, in the order given.
    Node(Vec<(String, SelectionMap)>),
}

impl Clone for SelectionMap {
    /// A tree that stands for the same selection.
    fn clone(&self) -> (copy: Self)
        ensures
            copy@ == self@,
        decreases self,
    {
        match self {
            SelectionMap::Leaves(leaves) => {
                let mut names: Vec<String> = Vec::new();
                for i in 0..leaves.len()
                    invariant
                        names.len() == i,
                        forall|j: int| 0 <= j < i ==> (#[trigger] names[j])@ == leaves[j]@,
                {
                    names.push(leaves[i].clone());
                }
                let copy = SelectionMap::Leaves(names);
                assert(copy@->Leaves_0 =~= self@->Leaves_0);
                copy
            },
            SelectionMap::Node(map) => {
                let mut children: Vec<(String, SelectionMap)> = Vec::new();
                for i in 0..map.len()
                    invariant
                        decreases_to!(self => map),
                        children.len() == i,
                        forall|j: int|
                            0 <= j < i ==> (#[trigger] children[j]).0@ == map[j].0@
                                && children[j].1@ == map[j].1@,
                {
                    proof {
                        vstd::std_specs::vec::axiom_vec_index_decreases(*map, i as int);
                    }
                    children.push((map[i].0.clone(), map[i].1.clone()));
                }
                let copy = SelectionMap::Node(children);
                assert(copy@->Node_0 =~= self@->Node_0);
                copy
            },
        }
    }
}

/// The mathematical tree that a `SelectionMap` stands for.
pub enum SelectionTree {
    Leaves(Seq<Seq<char>>),
    Node(Seq<(Seq<char>, SelectionTree)>),
}

/// The tree that `map` stands for.
pub open spec fn selection_tree(map: SelectionMap) -> SelectionTree
    decreases map,
{
    match map {
        SelectionMap::Leaves(names) => SelectionTree::Leaves(texts(names@)),
        SelectionMap::Node(children) => SelectionTree::Node(
            Seq::new(
                children@.len(),
                |i: int|
                    if 0 <= i < children@.len() {
                        (children@[i].0@, selection_tree(children@[i].1))
                    } else {
                        (Seq::empty(), SelectionTree::Leaves(Seq::empty()))
                    },
            ),
        ),
    }
}

impl View for SelectionMap {
    type V = SelectionTree;

    open spec fn view(&self) -> SelectionTree {
        selection_tree(*self)
    }
}

/// The atom of one selected attribute `name` under `path`.
pub open spec fn selected(path: Seq<Seq<char>>, name: Seq<char>) -> Atom {
    Atom {
        expression: path_text(path.push(name_placeholder(name))),
        names: map![name_placeholder(name) => name],
        values: Map::empty(),
    }
}

/// The path segments of a list of subtrees.
pub open spec fn segments_of<V>(children: Seq<(Seq<char>, V)>) -> Seq<Seq<char>> {
    children.map_values(|child: (Seq<char>, V)| child.0)
}

impl SelectionTree {
    /// Whether no node of the tree holds two subtrees under the same path
    /// segment, as where each node was made from an ordered map. Compiling
    /// does not ask for it.
    pub open spec fn distinct_segments(self) -> bool
        decreases self,
    {
        match self {
            SelectionTree::Leaves(_) => true,
            SelectionTree::Node(children) => {
                &&& all_differ(segments_of(children))
                &&& forall|i: int|
                    0 <= i < children.len() ==> (#[trigger] children[i]).1.distinct_segments()
            },
        }
    }

    /// The atoms that the children of this tree compile to under `path`, in
    /// their order.
    pub open spec fn parts(self, path: Seq<Seq<char>>) -> Seq<Atom>
        decreases self, 0nat,
    {
        match self {
            SelectionTree::Leaves(names) => Seq::new(
                names.len(),
                |i: int| selected(path, names[i]),
            ),
            SelectionTree::Node(children) => Seq::new(
                children.len(),
                |i: int|
                    if 0 <= i < children.len() {
                        children[i].1.compiled(path.push(name_placeholder(children[i].0))).with_name(
                            name_placeholder(children[i].0),
                            children[i].0,
                        )
                    } else {
                        Atom::empty()
                    },
            ),
        }
    }

    /// What this tree compiles to under `path`: the paths of its leaves,
    /// joined by a comma and a space.
    pub open spec fn compiled(self, path: Seq<Seq<char>>) -> Atom
        decreases self, 1nat,
    {
        merged(", "@, self.parts(path))
    }
}

/// A compiled selection holds no value placeholder.
pub proof fn lemma_selection_no_values(tree: SelectionTree, path: Seq<Seq<char>>)
    ensures
        tree.compiled(path).values == Map::<Seq<char>, AttributeValue>::empty(),
    decreases tree,
{
    let parts = tree.parts(path);
    assert forall|i: int| 0 <= i < parts.len() implies (#[trigger] parts[i]).values == Map::<
        Seq<char>,
        AttributeValue,
    >::empty() by {
        match tree {
            SelectionTree::Leaves(_) => {},
            SelectionTree::Node(children) => {
                lemma_selection_no_values(
                    children[i].1,
                    path.push(name_placeholder(children[i].0)),
                );
            },
        }
    }
    lemma_merged_no_values(", "@, parts);
}

/// Each name placeholder of a compiled selection stands for the path
/// segment or attribute name that it was made from, wherever in the tree
/// that name occurs.
pub proof fn lemma_selection_names_sound(tree: SelectionTree, path: Seq<Seq<char>>)
    ensures
        names_sound(tree.compiled(path).names),
    decreases tree,
{
    let parts = tree.parts(path);
    assert forall|i: int| 0 <= i < parts.len() implies names_sound((#[trigger] parts[i]).names) by {
        match tree {
            SelectionTree::Leaves(_) => {},
            SelectionTree::Node(children) => {
                lemma_selection_names_sound(
                    children[i].1,
                    path.push(name_placeholder(children[i].0)),
                );
            },
        }
    }
    lemma_merged_names_sound(", "@, parts);
}

/// A node with a single child compiles to what the child compiles to under
/// the path that the node's segment extends: the same expression text, and
/// the name placeholder of the segment added.
pub proof fn lemma_selection_single_child(
    segment: Seq<char>,
    child: SelectionTree,
    path: Seq<Seq<char>>,
)
    ensures
        SelectionTree::Node(seq![(segment, child)]).compiled(path) == child.compiled(
            path.push(name_placeholder(segment)),
        ).with_name(name_placeholder(segment), segment),
{
    let node = SelectionTree::Node(seq![(segment, child)]);
    let inner = child.compiled(path.push(name_placeholder(segment))).with_name(
        name_placeholder(segment),
        segment,
    );
    assert(node.parts(path) =~= seq![inner]);
    lemma_merged_single(", "@, inner);
}

/// Determinism. Nothing but the tree and the path decides what a selection
/// compiles to: two selection maps that stand for the same tree, compiled
/// under the same path, give the same expression text and the same names.
pub proof fn lemma_selection_deterministic(
    first: SelectionMap,
    second: SelectionMap,
    path: Seq<Seq<char>>,
    first_atom: ExpressionInput,
    second_atom: ExpressionInput,
)
    requires
        first@ == second@,
        first_atom@ == first@.compiled(path),
        second_atom@ == second@.compiled(path),
    ensures
        first_atom@ == second_atom@,
{
}

impl SelectionMap {
    /// Whether no node of the tree holds two subtrees under the same path
    /// segment.
    pub fn has_distinct_segments(&self) -> (distinct: bool)
        ensures
            distinct == self@.distinct_segments(),
        decreases self,
    {
        match self {
            SelectionMap::Leaves(_) => true,
            SelectionMap::Node(map) => {
                let ghost children = self@->Node_0;
                proof {
                    assert(segments(map@) =~= segments_of(children));
                }
                if !segments_differ(map) {
                    return false;
                }
                for i in 0..map.len()
                    invariant
                        decreases_to!(self => map),
                        self@ is Node,
                        self@->Node_0 == children,
                        all_differ(segments_of(children)),
                        children.len() == map.len(),
                        forall|j: int|
                            0 <= j < map.len() ==> (#[trigger] children[j]).1 == map[j].1@,
                        forall|j: int|
                            0 <= j < i ==> (#[trigger] children[j]).1.distinct_segments(),
                {
                    proof {
                        vstd::std_specs::vec::axiom_vec_index_decreases(*map, i as int);
                    }
                    if !map[i].1.has_distinct_segments() {
                        assert(!children[i as int].1.distinct_segments());
                        return false;
                    }
                }
                true
            },
        }
    }

    /// Compiles this tree under the empty path.
    pub fn compile(self) -> (atom: ExpressionInput)
        ensures
            atom@ == self@.compiled(Seq::empty()),
    {
        let keys: Vec<String> = Vec::new();
        proof {
            assert(texts(keys@) =~= Seq::<Seq<char>>::empty());
        }
        self.get_selection_operation_recursive(keys.as_slice())
    }

    /// Compiles this tree under the path `keys`.
    pub fn get_selection_operation_recursive(self, keys: &[String]) -> (atom: ExpressionInput)
        ensures
            atom@ == self@.compiled(texts(keys@)),
        decreases self,
    {
        let ghost path = texts(keys@);
        let ghost parts = self@.parts(path);
        let mut operations: Vec<ExpressionInput> = Vec::new();
        match self {
            SelectionMap::Leaves(leaves) => {
                let ghost all = leaves@;
                for leaf in it: leaves.into_iter()
                    invariant
                        it.seq() == all,
                        path == texts(keys@),
                        parts.len() == all.len(),
                        forall|j: int|
                            0 <= j < all.len() ==> #[trigger] parts[j] == selected(path, all[j]@),
                        operations.len() == it.index(),
                        forall|j: int|
                            0 <= j < it.index() ==> (#[trigger] operations[j])@ == parts[j],
                {
                    let (placeholder, new_keys) = add_placeholder(keys, leaf.as_str());
                    let expression = join_path(&new_keys);
                    let mut names: AttributeMap<String> = AttributeMap::new();
                    names.insert(placeholder, leaf);
                    let operation = ExpressionInput {
                        expression,
                        expression_attribute_names: names,
                        expression_attribute_values: AttributeMap::new(),
                    };
                    proof {
                        assert(operation@.names =~= selected(path, leaf@).names);
                    }
                    operations.push(operation);
                }
            },
            SelectionMap::Node(map) => {
                let ghost all = map@;
                proof {
                    assert(decreases_to!(self => map));
                }
                for entry in it: map.into_iter()
                    invariant
                        it.seq() == all,
                        path == texts(keys@),
                        decreases_to!(self => map),
                        all == map@,
                        parts.len() == all.len(),
                        forall|j: int|
                            0 <= j < all.len() ==> #[trigger] parts[j] == all[j].1@.compiled(
                                path.push(name_placeholder(all[j].0@)),
                            ).with_name(name_placeholder(all[j].0@), all[j].0@),
                        operations.len() == it.index(),
                        forall|j: int|
                            0 <= j < it.index() ==> (#[trigger] operations[j])@ == parts[j],
                {
                    proof {
                        assert(entry == map[it.index() as int]);
                        vstd::std_specs::vec::axiom_vec_index_decreases(map, it.index() as int);
                    }
                    let (key, value) = entry;
                    let (placeholder, new_keys) = add_placeholder(keys, key.as_str());
                    let mut operation = value.get_selection_operation_recursive(
                        new_keys.as_slice(),
                    );
                    let ghost inner = operation@;
                    operation.expression_attribute_names.insert(placeholder, key);
                    proof {
                        assert(operation@.names =~= inner.names.insert(
                            name_placeholder(key@),
                            key@,
                        ));
                    }
                    operations.push(operation);
                }
            },
        }
        proof {
            assert(atoms(operations@) =~= parts);
        }
        ExpressionInput::merge(", ", operations)
    }
}

} // verus!
