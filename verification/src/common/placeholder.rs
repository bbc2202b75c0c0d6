//! Value placeholders: a stem, then the number that the counter of the
//! compilation pass had when the placeholder was allocated.

use crate::text::{
    decimal, decimal_string, is_digit, lemma_decimal_digits, lemma_digit_run,
    lemma_number_of_decimal, number, stem, trailing_digits,
};
use vstd::prelude::*;

verus! {

/// The placeholder with the given stem that was allocated at counter `index`.
pub open spec fn numbered(front: Seq<char>, index: nat) -> Seq<char> {
    front + decimal(index)
}

/// The placeholder of the member at `position` of a list of operands, the
/// member allocated at counter `index`.
pub open spec fn member(front: Seq<char>, index: nat, position: nat) -> Seq<char> {
    numbered(front, index) + "_"@ + decimal(position)
}

/// Whether a text can be the stem of a placeholder: it ends in a character
/// that is neither a digit nor an underscore.
pub open spec fn is_stem(front: Seq<char>) -> bool {
    front.len() > 0 && !is_digit(front.last()) && front.last() != '_'
}

/// The counter that a value placeholder was allocated at, read back from its
/// text: the number at its end, or, where an underscore stands before that
/// number, the number before the underscore.
pub open spec fn counter_of(placeholder: Seq<char>) -> nat {
    let front = stem(placeholder);
    if front.len() > 0 && front.last() == '_' {
        number(trailing_digits(front.drop_last()))
    } else {
        number(trailing_digits(placeholder))
    }
}

/// A numbered placeholder carries its counter.
pub proof fn lemma_counter_of_numbered(front: Seq<char>, index: nat)
    requires
        is_stem(front),
    ensures
        counter_of(numbered(front, index)) == index,
{
    lemma_decimal_digits(index);
    lemma_digit_run(front, decimal(index));
    lemma_number_of_decimal(index);
}

/// A member placeholder carries the counter of the member, not its position.
pub proof fn lemma_counter_of_member(front: Seq<char>, index: nat, position: nat)
    requires
        is_stem(front),
    ensures
        counter_of(member(front, index, position)) == index,
{
    reveal_strlit("_");
    let inner = numbered(front, index);
    let marked = inner + "_"@;
    lemma_decimal_digits(index);
    lemma_decimal_digits(position);
    assert(marked.last() == '_');
    lemma_digit_run(marked, decimal(position));
    assert(marked.drop_last() =~= inner);
    lemma_digit_run(front, decimal(index));
    lemma_number_of_decimal(index);
}

/// The sum of a list of counts.
pub open spec fn total(counts: Seq<nat>) -> nat
    decreases counts.len(),
{
    if counts.len() == 0 {
        0
    } else {
        total(counts.drop_last()) + counts.last()
    }
}

/// The sum of the first `n` counts grows with `n`, by the count it takes in.
pub proof fn lemma_total_take(counts: Seq<nat>, n: int)
    requires
        0 <= n < counts.len(),
    ensures
        total(counts.take(n + 1)) == total(counts.take(n)) + counts[n],
        total(counts.take(n + 1)) <= total(counts),
    decreases counts.len(),
{
    assert(counts.take(n + 1).drop_last() =~= counts.take(n));
    if n + 1 == counts.len() {
        assert(counts.take(n + 1) =~= counts);
    } else {
        lemma_total_take(counts.drop_last(), n);
        assert(counts.drop_last().take(n + 1) =~= counts.take(n + 1));
        assert(counts.drop_last().take(n) =~= counts.take(n));
    }
}

/// Adds `count` to the running sum `sum` of the counts before `position`,
/// where the sum still fits; says so where it does not.
pub(crate) fn add_count(
    sum: Option<usize>,
    count: Option<usize>,
    Ghost(counts): Ghost<Seq<nat>>,
    Ghost(position): Ghost<int>,
) -> (next: Option<usize>)
    requires
        0 <= position < counts.len(),
        match sum {
            Some(n) => n == total(counts.take(position)),
            None => total(counts.take(position)) > usize::MAX,
        },
        match count {
            Some(n) => n == counts[position],
            None => counts[position] > usize::MAX,
        },
    ensures
        match next {
            Some(n) => n == total(counts.take(position + 1)),
            None => total(counts.take(position + 1)) > usize::MAX,
        },
{
    proof {
        lemma_total_take(counts, position);
    }
    match (sum, count) {
        (Some(a), Some(b)) => a.checked_add(b),
        _ => None,
    }
}

/// The table in which each key stands for the value at the same position.
pub open spec fn bindings<V>(keys: Seq<Seq<char>>, values: Seq<V>) -> Map<Seq<char>, V>
    decreases keys.len(),
{
    if keys.len() == 0 || values.len() == 0 {
        Map::empty()
    } else {
        bindings(keys.drop_last(), values.drop_last()).insert(keys.last(), values.last())
    }
}

/// Each placeholder of a table of bindings is one of the keys bound.
pub proof fn lemma_bindings_dom<V>(keys: Seq<Seq<char>>, values: Seq<V>, placeholder: Seq<char>)
    requires
        bindings(keys, values).dom().contains(placeholder),
    ensures
        exists|j: int| 0 <= j < keys.len() && #[trigger] keys[j] == placeholder,
    decreases keys.len(),
{
    if keys.len() > 0 && values.len() > 0 {
        if keys.last() == placeholder {
            assert(keys[keys.len() - 1] == placeholder);
        } else {
            lemma_bindings_dom(keys.drop_last(), values.drop_last(), placeholder);
            let j = choose|j: int|
                0 <= j < keys.drop_last().len() && #[trigger] keys.drop_last()[j] == placeholder;
            assert(keys[j] == placeholder);
        }
    }
}

/// A table holds exactly `count` placeholders, each allocated at a counter of
/// its own from `first` on: the counters lie below `first + count`, and no
/// two placeholders carry the same counter.
pub open spec fn allocated<V>(values: Map<Seq<char>, V>, first: nat, count: nat) -> bool {
    &&& values.dom().finite()
    &&& values.dom().len() == count
    &&& forall|key: Seq<char>| #[trigger]
        values.dom().contains(key) ==> first <= counter_of(key) < first + count
    &&& forall|key: Seq<char>, other: Seq<char>|
        #![trigger values.dom().contains(key), values.dom().contains(other)]
        values.dom().contains(key) && values.dom().contains(other) && key != other
            ==> counter_of(key) != counter_of(other)
}

/// Placeholders allocated at consecutive counters bind as many values as
/// there are placeholders: none replaces another.
pub proof fn lemma_bindings_allocated<V>(keys: Seq<Seq<char>>, values: Seq<V>, first: nat)
    requires
        keys.len() == values.len(),
        forall|j: int| 0 <= j < keys.len() ==> counter_of(#[trigger] keys[j]) == first + j,
    ensures
        allocated(bindings(keys, values), first, keys.len()),
    decreases keys.len(),
{
    if keys.len() > 0 {
        let front = bindings(keys.drop_last(), values.drop_last());
        assert forall|j: int| 0 <= j < keys.drop_last().len() implies counter_of(
            #[trigger] keys.drop_last()[j],
        ) == first + j by {
            assert(keys.drop_last()[j] == keys[j]);
        }
        lemma_bindings_allocated(keys.drop_last(), values.drop_last(), first);
        assert(counter_of(keys[keys.len() - 1]) == first + keys.len() - 1);
        assert(!front.dom().contains(keys.last()));
    }
}

/// Two tables allocated one after the other have no placeholder in common,
/// so their union holds the placeholders of both.
pub proof fn lemma_union_allocated<V>(
    earlier: Map<Seq<char>, V>,
    later: Map<Seq<char>, V>,
    first: nat,
    count: nat,
    more: nat,
)
    requires
        allocated(earlier, first, count),
        allocated(later, first + count, more),
    ensures
        allocated(earlier.union_prefer_right(later), first, count + more),
{
    let both = earlier.union_prefer_right(later);
    assert(both.dom() =~= earlier.dom() + later.dom());
    assert(earlier.dom().disjoint(later.dom()));
    vstd::set_lib::lemma_set_disjoint_lens(earlier.dom(), later.dom());
}

/// Writes the placeholder `front` + `index`.
pub fn numbered_placeholder(front: String, index: usize) -> (placeholder: String)
    ensures
        placeholder@ == numbered(front@, index as nat),
{
    let mut placeholder = front;
    let digits = decimal_string(index);
    placeholder.append(digits.as_str());
    placeholder
}

} // verus!
