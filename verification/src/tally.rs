//! How often values occur in a row.
use vstd::prelude::*;

verus! {

/// How often a value occurs.
pub open spec fn occurrences<T>(row: Seq<T>, value: T) -> nat
    decreases row.len(),
{
    if row.len() == 0 {
        0
    } else {
        occurrences(row.drop_last(), value) + if row.last() == value {
            1nat
        } else {
            0
        }
    }
}

/// Whether no value occurs more often than the one at position `i`, and none
/// that stands earlier occurs as often.
pub open spec fn is_most_common<T>(row: Seq<T>, i: int) -> bool {
    &&& 0 <= i < row.len()
    &&& forall|j: int| 0 <= j < row.len() ==> occurrences(row, #[trigger] row[j]) <= occurrences(row, row[i])
    &&& forall|j: int| 0 <= j < i ==> occurrences(row, #[trigger] row[j]) < occurrences(row, row[i])
}

/// The value that occurs most often; of several, the one that stands first.
pub open spec fn most_common<T>(row: Seq<T>) -> T {
    row[choose|i: int| is_most_common(row, i)]
}

/// The value at such a position is the most common one.
pub proof fn lemma_most_common<T>(row: Seq<T>, i: int)
    requires
        is_most_common(row, i),
    ensures
        most_common(row) == row[i],
{
    let j = choose|j: int| is_most_common(row, j);
    assert(is_most_common(row, j));
    assert(occurrences(row, row[i]) <= occurrences(row, row[j]));
    assert(occurrences(row, row[j]) <= occurrences(row, row[i]));
}

/// A value of a row occurs in it, and no more often than the row is long.
pub proof fn law_occurrences_are_bounded<T>(row: Seq<T>, i: int)
    requires
        0 <= i < row.len(),
    ensures
        1 <= occurrences(row, row[i]) <= row.len(),
    decreases row.len(),
{
    let rest = row.drop_last();
    lemma_at_most_length(rest, row[i]);
    if i < rest.len() {
        assert(rest[i] == row[i]);
        law_occurrences_are_bounded(rest, i);
    }
}

proof fn lemma_at_most_length<T>(row: Seq<T>, value: T)
    ensures
        occurrences(row, value) <= row.len(),
    decreases row.len(),
{
    if row.len() > 0 {
        lemma_at_most_length(row.drop_last(), value);
    }
}

/// A value occurs as often as a row counts it.
pub proof fn lemma_occurrences_are_counts<T>(row: Seq<T>, value: T)
    ensures
        occurrences(row, value) == row.to_multiset().count(value),
    decreases row.len(),
{
    row.to_multiset_ensures();
    if row.len() > 0 {
        let rest = row.drop_last();
        lemma_occurrences_are_counts(rest, value);
        rest.to_multiset_ensures();
        assert(rest.push(row.last()) =~= row);
        assert(row.to_multiset() =~= rest.to_multiset().insert(row.last()));
    }
}

/// How often the most common value occurs does not depend on the order of the
/// row.
pub proof fn law_highest_count_does_not_depend_on_the_order<T>(a: Seq<T>, b: Seq<T>)
    requires
        a.to_multiset() == b.to_multiset(),
        a.len() > 0,
    ensures
        b.len() == a.len(),
        occurrences(a, most_common(a)) == occurrences(b, most_common(b)),
{
    a.to_multiset_ensures();
    b.to_multiset_ensures();
    let i = lemma_most_common_exists(a, a.len() as int);
    let j = lemma_most_common_exists(b, b.len() as int);
    assert(is_most_common(a, i) && is_most_common(b, j));
    lemma_most_common(a, i);
    lemma_most_common(b, j);
    lemma_occurrences_are_counts(a, a[i]);
    lemma_occurrences_are_counts(b, a[i]);
    lemma_occurrences_are_counts(a, b[j]);
    lemma_occurrences_are_counts(b, b[j]);
    assert(a.contains(a[i]) && b.contains(b[j]));
    assert(b.contains(a[i]) && a.contains(b[j]));
    let k = choose|k: int| 0 <= k < b.len() && b[k] == a[i];
    let l = choose|l: int| 0 <= l < a.len() && a[l] == b[j];
    assert(occurrences(b, b[k]) <= occurrences(b, b[j]));
    assert(occurrences(a, a[l]) <= occurrences(a, a[i]));
}

/// A row that is not empty has a most common value.
pub proof fn lemma_most_common_exists<T>(row: Seq<T>, n: int) -> (i: int)
    requires
        0 < n <= row.len(),
    ensures
        0 <= i < n,
        forall|j: int| 0 <= j < n ==> occurrences(row, #[trigger] row[j]) <= occurrences(row, row[i]),
        forall|j: int| 0 <= j < i ==> occurrences(row, #[trigger] row[j]) < occurrences(row, row[i]),
    decreases n,
{
    if n == 1 {
        0
    } else {
        let i = lemma_most_common_exists(row, n - 1);
        if occurrences(row, row[i]) < occurrences(row, row[n - 1]) {
            n - 1
        } else {
            i
        }
    }
}

/// How many numbers of a range have a property: one more for the last, where it
/// has it.
pub proof fn lemma_count_in_range(start: int, end: int, has: spec_fn(int) -> bool)
    ensures
        Set::new(|i: int| start <= i < end && has(i)).finite(),
        end <= start ==> Set::new(|i: int| start <= i < end && has(i)).len() == 0,
        start < end ==> Set::new(|i: int| start <= i < end && has(i)).len() == Set::new(
            |i: int| start <= i < end - 1 && has(i),
        ).len() + if has(end - 1) {
            1nat
        } else {
            0
        },
    decreases end - start,
{
    let all = Set::new(|i: int| start <= i < end && has(i));
    if start < end {
        let rest = Set::new(|i: int| start <= i < end - 1 && has(i));
        lemma_count_in_range(start, end - 1, has);
        if has(end - 1) {
            assert(all =~= rest.insert(end - 1));
        } else {
            assert(all =~= rest);
        }
    } else {
        assert(all =~= Set::<int>::empty());
    }
}

/// A value occurs as often as there are positions that hold it.
pub proof fn law_occurrences_are_positions<T>(row: Seq<T>, value: T, n: int, holds: spec_fn(int) -> bool)
    requires
        n == row.len(),
        forall|i: int| 0 <= i < n ==> #[trigger] holds(i) == (row[i] == value),
    ensures
        occurrences(row, value) == Set::new(|i: int| 0 <= i < n && holds(i)).len(),
    decreases n,
{
    lemma_count_in_range(0, n, holds);
    if n > 0 {
        let rest = row.drop_last();
        assert forall|i: int| 0 <= i < n - 1 implies #[trigger] holds(i) == (rest[i] == value) by {
            assert(rest[i] == row[i]);
        }
        law_occurrences_are_positions(rest, value, n - 1, holds);
        assert(holds(n - 1) == (row[n - 1] == value));
    }
}

} // verus!
