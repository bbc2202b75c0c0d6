//! What the expression compilers share: placeholder tables, the expression
//! atom and the rule that joins atoms.

pub mod attribute_map;
pub mod cloning;
pub mod condition;
pub mod encode;
pub mod key;
pub mod placeholder;
pub mod selection;
pub mod wire;

use crate::common::attribute_map::AttributeMap;
use crate::common::placeholder::{allocated, lemma_union_allocated, total};
use aws_sdk_dynamodb::types::AttributeValue;
use vstd::prelude::*;

verus! {

/// The placeholder that stands for the attribute name `segment` in expression
/// text. It depends on the segment alone, not on where the segment occurs.
pub open spec fn name_placeholder(segment: Seq<char>) -> Seq<char> {
    "#"@ + segment
}

/// The parts of a list written one after the other with `separator` between
/// each two neighbours.
pub open spec fn joined(parts: Seq<Seq<char>>, separator: Seq<char>) -> Seq<char>
    decreases parts.len(),
{
    if parts.len() == 0 {
        Seq::empty()
    } else if parts.len() == 1 {
        parts.last()
    } else {
        joined(parts.drop_last(), separator) + separator + parts.last()
    }
}

/// The addressable text of a path of name placeholders.
pub open spec fn path_text(path: Seq<Seq<char>>) -> Seq<char> {
    joined(path, "."@)
}

/// The texts of a list of strings.
pub open spec fn texts(strings: Seq<String>) -> Seq<Seq<char>> {
    strings.map_values(|s: String| s@)
}

/// Writes the strings of a list one after the other with `separator`
/// between each two neighbours.
pub fn join(parts: &Vec<String>, separator: &str) -> (text: String)
    ensures
        text@ == joined(texts(parts@), separator@),
{
    let mut text = String::new();
    let ghost all = texts(parts@);
    for i in 0..parts.len()
        invariant
            all == texts(parts@),
            text@ == joined(all.take(i as int), separator@),
    {
        proof {
            assert(all.take(i + 1).drop_last() =~= all.take(i as int));
            assert(all.take(i + 1).last() == parts@[i as int]@);
        }
        if i > 0 {
            text.append(separator);
        }
        text.append(parts[i].as_str());
        assert(text@ =~= joined(all.take(i + 1), separator@));
    }
    proof {
        assert(all.take(parts.len() as int) =~= all);
    }
    text
}

/// Joins the placeholders of a path with `.`.
pub fn join_path(path: &Vec<String>) -> (text: String)
    ensures
        text@ == path_text(texts(path@)),
{
    join(path, ".")
}

/// Allocates the name placeholder of `identifier` and appends it to the path
/// `keys`: returns the placeholder and the longer path.
pub fn add_placeholder(keys: &[String], identifier: &str) -> (added: (String, Vec<String>))
    ensures
        added.0@ == name_placeholder(identifier@),
        texts(added.1@) == texts(keys@).push(name_placeholder(identifier@)),
{
    let mut placeholder = String::from_str("#");
    placeholder.append(identifier);
    let mut new_keys: Vec<String> = Vec::new();
    for i in 0..keys.len()
        invariant
            new_keys.len() == i,
            forall|j: int| 0 <= j < i ==> (#[trigger] new_keys[j])@ == keys[j]@,
    {
        new_keys.push(keys[i].clone());
    }
    new_keys.push(placeholder.clone());
    assert(texts(new_keys@) =~= texts(keys@).push(name_placeholder(identifier@)));
    (placeholder, new_keys)
}

/// The path segments under which the children of a node stand.
pub open spec fn segments<V>(children: Seq<(String, V)>) -> Seq<Seq<char>> {
    children.map_values(|child: (String, V)| child.0@)
}

/// Whether no text occurs twice in a list, as among the keys of an ordered
/// map.
pub open spec fn all_differ(texts: Seq<Seq<char>>) -> bool {
    forall|i: int, j: int| 0 <= i < j < texts.len() ==> texts[i] != texts[j]
}

/// Whether no path segment occurs twice among the children of a node.
pub fn segments_differ<V>(children: &Vec<(String, V)>) -> (differ: bool)
    ensures
        differ == all_differ(segments(children@)),
{
    let ghost all = segments(children@);
    for j in 0..children.len()
        invariant
            all == segments(children@),
            forall|a: int, b: int| 0 <= a < b < j ==> all[a] != all[b],
    {
        for i in 0..j
            invariant
                j < children.len(),
                all == segments(children@),
                forall|a: int| 0 <= a < i ==> all[a] != all[j as int],
        {
            if children[i].0 == children[j].0 {
                assert(all[i as int] == all[j as int]);
                return false;
            }
        }
    }
    true
}

/// Two expression texts put together: an empty side leaves the other side as
/// it is, so that no separator leads or trails; otherwise the separator stands
/// between them.
pub open spec fn glued(left: Seq<char>, separator: Seq<char>, right: Seq<char>) -> Seq<char> {
    if left.len() == 0 {
        right
    } else if right.len() == 0 {
        left
    } else {
        left + separator + right
    }
}

/// Puts two expression texts together, with `operator` between them where
/// neither is empty.
pub fn get_expression(left: String, operator: &str, right: String) -> (expression: String)
    ensures
        expression@ == glued(left@, operator@, right@),
{
    if left.as_str().is_empty() {
        right
    } else if right.as_str().is_empty() {
        left
    } else {
        let mut expression = left;
        expression.append(operator);
        expression.append(right.as_str());
        expression
    }
}

/// What a compiled expression is: its text, the attribute name behind each
/// name placeholder and the value behind each value placeholder.
#[verifier::ext_equal]
pub struct Atom {
    pub expression: Seq<char>,
    pub names: Map<Seq<char>, Seq<char>>,
    pub values: Map<Seq<char>, AttributeValue>,
}

impl Atom {
    /// The atom without text and without placeholders.
    pub open spec fn empty() -> Atom {
        Atom { expression: Seq::empty(), names: Map::empty(), values: Map::empty() }
    }

    /// This atom followed by `next`: the texts glued, the tables united; a
    /// placeholder that both hold keeps what `next` says of it.
    pub open spec fn followed_by(self, separator: Seq<char>, next: Atom) -> Atom {
        Atom {
            expression: glued(self.expression, separator, next.expression),
            names: self.names.union_prefer_right(next.names),
            values: self.values.union_prefer_right(next.values),
        }
    }

    /// This atom with one more name placeholder.
    pub open spec fn with_name(self, placeholder: Seq<char>, name: Seq<char>) -> Atom {
        Atom { names: self.names.insert(placeholder, name), ..self }
    }
}

/// The atoms of a list folded from left to right.
pub open spec fn merged(separator: Seq<char>, atoms: Seq<Atom>) -> Atom
    decreases atoms.len(),
{
    if atoms.len() == 0 {
        Atom::empty()
    } else {
        merged(separator, atoms.drop_last()).followed_by(separator, atoms.last())
    }
}

/// Merging no atoms gives the empty atom.
pub proof fn lemma_merged_none(separator: Seq<char>)
    ensures
        merged(separator, Seq::<Atom>::empty()) == Atom::empty(),
{
}

/// Merging a single atom gives that atom unchanged, whatever the separator.
pub proof fn lemma_merged_single(separator: Seq<char>, atom: Atom)
    ensures
        merged(separator, seq![atom]) == atom,
{
    let only = seq![atom];
    assert(only.drop_last() =~= Seq::<Atom>::empty());
    assert(merged(separator, only.drop_last()) == Atom::empty());
    assert(merged(separator, only) =~= atom);
}

/// Where each atom of a list holds value placeholders allocated right after
/// those of the atoms before it, the merged atom holds all of them: no value
/// placeholder of one atom replaces that of another.
pub proof fn lemma_merged_allocated(
    separator: Seq<char>,
    atoms: Seq<Atom>,
    counts: Seq<nat>,
    first: nat,
)
    requires
        atoms.len() == counts.len(),
        forall|i: int|
            0 <= i < atoms.len() ==> allocated(
                (#[trigger] atoms[i]).values,
                first + total(counts.take(i)),
                counts[i],
            ),
    ensures
        allocated(merged(separator, atoms).values, first, total(counts)),
    decreases atoms.len(),
{
    if atoms.len() > 0 {
        let front = atoms.drop_last();
        let front_counts = counts.drop_last();
        assert forall|i: int| 0 <= i < front.len() implies allocated(
            (#[trigger] front[i]).values,
            first + total(front_counts.take(i)),
            front_counts[i],
        ) by {
            assert(front[i] == atoms[i]);
            assert(front_counts.take(i) =~= counts.take(i));
        }
        lemma_merged_allocated(separator, front, front_counts, first);
        let last = atoms.len() - 1;
        assert(atoms[last] == atoms.last());
        assert(counts.take(last) =~= front_counts);
        lemma_union_allocated(
            merged(separator, front).values,
            atoms.last().values,
            first,
            total(front_counts),
            counts.last(),
        );
    }
}

/// Whether each name placeholder of a table stands for the attribute name
/// that it was made from.
pub open spec fn names_sound(names: Map<Seq<char>, Seq<char>>) -> bool {
    forall|placeholder: Seq<char>| #[trigger]
        names.dom().contains(placeholder) ==> placeholder == name_placeholder(names[placeholder])
}

/// Atoms whose name placeholders stand for the names they were made from
/// merge to such an atom: a placeholder that two atoms share stands for the
/// same name in both.
pub proof fn lemma_merged_names_sound(separator: Seq<char>, atoms: Seq<Atom>)
    requires
        forall|i: int| 0 <= i < atoms.len() ==> names_sound((#[trigger] atoms[i]).names),
    ensures
        names_sound(merged(separator, atoms).names),
    decreases atoms.len(),
{
    if atoms.len() > 0 {
        let front = atoms.drop_last();
        assert forall|i: int| 0 <= i < front.len() implies names_sound(
            (#[trigger] front[i]).names,
        ) by {
            assert(front[i] == atoms[i]);
        }
        lemma_merged_names_sound(separator, front);
        assert(atoms[atoms.len() - 1] == atoms.last());
    }
}

/// Whether each placeholder of a table has a property.
pub open spec fn all_placeholders<V>(
    table: Map<Seq<char>, V>,
    property: spec_fn(Seq<char>) -> bool,
) -> bool {
    forall|placeholder: Seq<char>| #[trigger]
        table.dom().contains(placeholder) ==> property(placeholder)
}

/// Where each value placeholder of each atom of a list has a property, each
/// value placeholder of the merged atom has it.
pub proof fn lemma_merged_values_all(
    separator: Seq<char>,
    atoms: Seq<Atom>,
    property: spec_fn(Seq<char>) -> bool,
)
    requires
        forall|i: int| 0 <= i < atoms.len() ==> all_placeholders(
            (#[trigger] atoms[i]).values,
            property,
        ),
    ensures
        all_placeholders(merged(separator, atoms).values, property),
    decreases atoms.len(),
{
    if atoms.len() > 0 {
        let front = atoms.drop_last();
        assert forall|i: int| 0 <= i < front.len() implies all_placeholders(
            (#[trigger] front[i]).values,
            property,
        ) by {
            assert(front[i] == atoms[i]);
        }
        lemma_merged_values_all(separator, front, property);
        assert(atoms[atoms.len() - 1] == atoms.last());
    }
}

/// Whether `part` stands somewhere in `text`.
pub open spec fn occurs(part: Seq<char>, text: Seq<char>) -> bool {
    exists|at: int|
        0 <= at && at + part.len() <= text.len() && #[trigger] text.subrange(
            at,
            at + part.len(),
        ) == part
}

/// A text stands in every text that is written around it.
pub proof fn lemma_occurs_between(part: Seq<char>, before: Seq<char>, after: Seq<char>)
    ensures
        occurs(part, before + part + after),
{
    let text = before + part + after;
    let at = before.len() as int;
    assert(text.subrange(at, at + part.len()) =~= part);
}

/// What stands in a text stands in every text that is written around that
/// text.
pub proof fn lemma_occurs_within(
    part: Seq<char>,
    before: Seq<char>,
    middle: Seq<char>,
    after: Seq<char>,
)
    requires
        occurs(part, middle),
    ensures
        occurs(part, before + middle + after),
{
    let at = choose|at: int|
        0 <= at && at + part.len() <= middle.len() && #[trigger] middle.subrange(
            at,
            at + part.len(),
        ) == part;
    let text = before + middle + after;
    let moved = before.len() + at;
    assert(text.subrange(moved, moved + part.len()) =~= middle.subrange(at, at + part.len()));
}

/// What stands in one of two texts stands in the two glued.
pub proof fn lemma_occurs_glued(
    part: Seq<char>,
    left: Seq<char>,
    separator: Seq<char>,
    right: Seq<char>,
)
    requires
        part.len() > 0,
        occurs(part, left) || occurs(part, right),
    ensures
        occurs(part, glued(left, separator, right)),
{
    if left.len() > 0 && right.len() > 0 {
        if occurs(part, left) {
            lemma_occurs_within(part, Seq::empty(), left, separator + right);
            assert(Seq::<char>::empty() + left + (separator + right) =~= left + separator + right);
        } else {
            lemma_occurs_within(part, left + separator, right, Seq::empty());
            assert((left + separator) + right + Seq::<char>::empty() =~= left + separator + right);
        }
    }
}

/// Each part of a list stands in the list joined.
pub proof fn lemma_occurs_joined(parts: Seq<Seq<char>>, separator: Seq<char>, at: int)
    requires
        0 <= at < parts.len(),
    ensures
        occurs(parts[at], joined(parts, separator)),
    decreases parts.len(),
{
    let part = parts[at];
    if parts.len() == 1 {
        lemma_occurs_between(part, Seq::empty(), Seq::empty());
        assert(Seq::<char>::empty() + part + Seq::<char>::empty() =~= part);
    } else {
        let front = joined(parts.drop_last(), separator);
        if at == parts.len() - 1 {
            lemma_occurs_between(part, front + separator, Seq::empty());
            assert((front + separator) + part + Seq::<char>::empty() =~= front + separator
                + parts.last());
        } else {
            assert(parts.drop_last()[at] == part);
            lemma_occurs_joined(parts.drop_last(), separator, at);
            lemma_occurs_within(part, Seq::empty(), front, separator + parts.last());
            assert(Seq::<char>::empty() + front + (separator + parts.last()) =~= front + separator
                + parts.last());
        }
    }
}

/// Whether each value placeholder of an atom begins with a colon and stands
/// in the expression text of the atom.
pub open spec fn values_in_text(atom: Atom) -> bool {
    forall|placeholder: Seq<char>| #[trigger]
        atom.values.dom().contains(placeholder) ==> placeholder.len() > 0 && placeholder[0] == ':'
            && occurs(placeholder, atom.expression)
}

/// Where each value placeholder of each atom of a list begins with a colon
/// and stands in the text of its atom, each value placeholder of the merged
/// atom begins with a colon and stands in the merged text.
pub proof fn lemma_merged_values_in_text(separator: Seq<char>, atoms: Seq<Atom>)
    requires
        forall|i: int| 0 <= i < atoms.len() ==> values_in_text(#[trigger] atoms[i]),
    ensures
        values_in_text(merged(separator, atoms)),
    decreases atoms.len(),
{
    if atoms.len() > 0 {
        let front = atoms.drop_last();
        assert forall|i: int| 0 <= i < front.len() implies values_in_text(#[trigger] front[i]) by {
            assert(front[i] == atoms[i]);
        }
        lemma_merged_values_in_text(separator, front);
        assert(atoms[atoms.len() - 1] == atoms.last());
        let held = merged(separator, front);
        let last = atoms.last();
        let whole = merged(separator, atoms);
        assert forall|placeholder: Seq<char>| #[trigger]
            whole.values.dom().contains(placeholder) implies placeholder.len() > 0
            && placeholder[0] == ':' && occurs(placeholder, whole.expression) by {
            if last.values.dom().contains(placeholder) {
                lemma_occurs_glued(placeholder, held.expression, separator, last.expression);
            } else {
                assert(held.values.dom().contains(placeholder));
                lemma_occurs_glued(placeholder, held.expression, separator, last.expression);
            }
        }
    }
}

/// Atoms without value placeholders merge to an atom without value
/// placeholders.
pub proof fn lemma_merged_no_values(separator: Seq<char>, atoms: Seq<Atom>)
    requires
        forall|i: int| 0 <= i < atoms.len() ==> (#[trigger] atoms[i]).values == Map::<
            Seq<char>,
            AttributeValue,
        >::empty(),
    ensures
        merged(separator, atoms).values == Map::<Seq<char>, AttributeValue>::empty(),
    decreases atoms.len(),
{
    if atoms.len() > 0 {
        let front = atoms.drop_last();
        assert forall|i: int| 0 <= i < front.len() implies (#[trigger] front[i]).values == Map::<
            Seq<char>,
            AttributeValue,
        >::empty() by {
            assert(front[i] == atoms[i]);
        }
        lemma_merged_no_values(separator, front);
        assert(atoms[atoms.len() - 1] == atoms.last());
        assert(merged(separator, atoms).values =~= Map::<Seq<char>, AttributeValue>::empty());
    }
}

/// The output of every compiler: expression text and the two placeholder
/// tables that the text refers to.
#[derive(Debug)]
pub struct ExpressionInput {
    /// The expression text.
    pub expression: String,
    /// The attribute name behind each name placeholder of the text.
    pub expression_attribute_names: AttributeMap<String>,
    /// The value behind each value placeholder of the text.
    pub expression_attribute_values: AttributeMap<AttributeValue>,
}

/// The names table of an atom, from the table of strings that holds it.
pub open spec fn name_table(names: Map<Seq<char>, String>) -> Map<Seq<char>, Seq<char>> {
    names.map_values(|name: String| name@)
}

impl View for ExpressionInput {
    type V = Atom;

    open spec fn view(&self) -> Atom {
        Atom {
            expression: self.expression@,
            names: name_table(self.expression_attribute_names@),
            values: self.expression_attribute_values@,
        }
    }
}

/// The atoms that a list of compiled expressions stands for.
pub open spec fn atoms(items: Seq<ExpressionInput>) -> Seq<Atom> {
    items.map_values(|item: ExpressionInput| item@)
}

impl Default for ExpressionInput {
    fn default() -> (atom: Self)
        ensures
            atom@ == Atom::empty(),
    {
        let atom = ExpressionInput {
            expression: String::new(),
            expression_attribute_names: AttributeMap::new(),
            expression_attribute_values: AttributeMap::new(),
        };
        assert(atom@.names =~= Map::empty());
        atom
    }
}

impl ExpressionInput {
    /// Folds `items` from left to right into one atom, the texts joined by
    /// `operator`.
    pub fn merge(operator: &str, items: Vec<Self>) -> (atom: Self)
        ensures
            atom@ == merged(operator@, atoms(items@)),
    {
        let mut expression = String::new();
        let mut names: AttributeMap<String> = AttributeMap::new();
        let mut values: AttributeMap<AttributeValue> = AttributeMap::new();
        let ghost all = atoms(items@);
        proof {
            assert(name_table(names@) =~= Map::empty());
        }
        for item in it: items.into_iter()
            invariant
                it.seq() == items@,
                all == atoms(items@),
                expression@ == merged(operator@, all.take(it.index() as int)).expression,
                name_table(names@) == merged(operator@, all.take(it.index() as int)).names,
                values@ == merged(operator@, all.take(it.index() as int)).values,
        {
            proof {
                let done = it.index() as int;
                assert(all.take(done + 1).drop_last() =~= all.take(done));
                assert(all.take(done + 1).last() == item@);
                assert(name_table(names@.union_prefer_right(item.expression_attribute_names@))
                    =~= name_table(names@).union_prefer_right(item@.names));
            }
            names.extend(item.expression_attribute_names);
            values.extend(item.expression_attribute_values);
            expression = get_expression(expression, operator, item.expression);
        }
        proof {
            assert(all.take(all.len() as int) =~= all);
        }
        ExpressionInput {
            expression,
            expression_attribute_names: names,
            expression_attribute_values: values,
        }
    }

    /// Splices the tables of this atom into the tables of a request, which
    /// are made where the request has none yet, and hands back the
    /// expression text. Where the request holds a placeholder of the atom
    /// already, what the atom says of it stays.
    pub fn merge_into(
        self,
        names: &mut Option<AttributeMap<String>>,
        values: &mut Option<AttributeMap<AttributeValue>>,
    ) -> (expression: String)
        ensures
            expression@ == self@.expression,
            optional_names(*final(names)) == Some(
                spliced(optional_names(*old(names)), self@.names),
            ),
            optional_values(*final(values)) == Some(
                spliced(optional_values(*old(values)), self@.values),
            ),
    {
        match names {
            Some(existing) => {
                proof {
                    assert(name_table(
                        existing@.union_prefer_right(self.expression_attribute_names@),
                    ) =~= name_table(existing@).union_prefer_right(self@.names));
                }
                existing.extend(self.expression_attribute_names);
            },
            None => {
                *names = Some(self.expression_attribute_names);
            },
        }
        match values {
            Some(existing) => {
                existing.extend(self.expression_attribute_values);
            },
            None => {
                *values = Some(self.expression_attribute_values);
            },
        }
        self.expression
    }
}

/// The text of an optional string.
pub open spec fn optional_text(text: Option<String>) -> Option<Seq<char>> {
    match text {
        Some(text) => Some(text@),
        None => None,
    }
}

/// The names table that an optional table of strings holds.
pub open spec fn optional_names(names: Option<AttributeMap<String>>) -> Option<
    Map<Seq<char>, Seq<char>>,
> {
    match names {
        Some(names) => Some(name_table(names@)),
        None => None,
    }
}

/// The values table that an optional table holds.
pub open spec fn optional_values(values: Option<AttributeMap<AttributeValue>>) -> Option<
    Map<Seq<char>, AttributeValue>,
> {
    match values {
        Some(values) => Some(values@),
        None => None,
    }
}

/// The table of a request after `added` has been spliced into it: `added`
/// alone where the request had no table, else the union of both in which
/// `added` wins.
pub open spec fn spliced<V>(held: Option<Map<Seq<char>, V>>, added: Map<Seq<char>, V>) -> Map<
    Seq<char>,
    V,
> {
    match held {
        Some(existing) => existing.union_prefer_right(added),
        None => added,
    }
}

} // verus!
