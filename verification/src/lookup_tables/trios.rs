//! Sets of three numbers, kept in a hash set of `hashbrown`.
//!
//! Verus cannot look inside the hash set: it is held in a struct of its own,
//! what it holds has a name, and the calls below are believed to treat that
//! content as `hashbrown` documents.

use vstd::prelude::*;

verus! {

/// A set of trios of numbers.
#[verifier::external_body]
pub struct TrioSet {
    inner: hashbrown::HashSet<(usize, usize, usize)>,
}

/// The trios that a set holds.
pub uninterp spec fn trio_items(set: TrioSet) -> Set<(usize, usize, usize)>;

/// Whether one trio comes before another or is the same: by the first
/// number, then the second, then the third.
pub open spec fn trio_le(a: (usize, usize, usize), b: (usize, usize, usize)) -> bool {
    a.0 < b.0 || (a.0 == b.0 && (a.1 < b.1 || (a.1 == b.1 && a.2 <= b.2)))
}

/// Whether the trios stand in ascending order.
pub open spec fn trios_ascending(list: Seq<(usize, usize, usize)>) -> bool {
    forall|i: int, j: int| 0 <= i < j < list.len() ==> trio_le(list[i], list[j])
}

/// Calls `hashbrown::HashSet::new`, which makes an empty set.
#[verifier::external_body]
pub(crate) fn trios_new() -> (set: TrioSet)
    ensures
        trio_items(set) == Set::<(usize, usize, usize)>::empty(),
{
    TrioSet { inner: hashbrown::HashSet::new() }
}

/// Calls `hashbrown::HashSet::insert`, which adds the trio where the set
/// does not hold it yet.
#[verifier::external_body]
pub(crate) fn trios_insert(set: &mut TrioSet, trio: (usize, usize, usize))
    ensures
        trio_items(*final(set)) == trio_items(*old(set)).insert(trio),
{
    set.inner.insert(trio);
}

/// Calls `hashbrown::HashSet::into_iter`, which hands out every trio of the
/// set once, in an order that nothing is said about.
#[verifier::external_body]
pub(crate) fn trios_into_vec(set: TrioSet) -> (list: Vec<(usize, usize, usize)>)
    ensures
        list@.no_duplicates(),
        forall|trio: (usize, usize, usize)| list@.contains(trio) <==> trio_items(set).contains(trio),
{
    set.inner.into_iter().collect()
}

/// Calls `sort` of the standard slices on a list of trios, which puts them
/// in ascending order and neither adds nor drops one.
#[verifier::external_body]
pub(crate) fn trios_sort(list: &mut Vec<(usize, usize, usize)>)
    ensures
        final(list)@.to_multiset() == old(list)@.to_multiset(),
        trios_ascending(final(list)@),
{
    list.sort();
}

/// Whether the trios stand in strictly ascending order, so that none
/// occurs twice.
pub open spec fn trios_strictly_ascending(list: Seq<(usize, usize, usize)>) -> bool {
    forall|i: int, j: int|
        #![trigger list[i], list[j]]
        0 <= i < j < list.len() ==> trio_le(list[i], list[j]) && list[i] != list[j]
}

/// A list in ascending order without a trio twice is in strictly ascending
/// order.
pub proof fn lemma_ascending_without_duplicates(list: Seq<(usize, usize, usize)>)
    requires
        trios_ascending(list),
        list.no_duplicates(),
    ensures
        trios_strictly_ascending(list),
{
}

/// There is one way only to list a set of trios in strictly ascending
/// order.
pub proof fn lemma_ascending_trios_unique(
    first: Seq<(usize, usize, usize)>,
    second: Seq<(usize, usize, usize)>,
)
    requires
        trios_strictly_ascending(first),
        trios_strictly_ascending(second),
        forall|trio: (usize, usize, usize)| first.contains(trio) <==> second.contains(trio),
    ensures
        first == second,
    decreases first.len(),
{
    if first.len() == 0 {
        if second.len() > 0 {
            assert(second.contains(second[0]));
        }
        assert(first =~= second);
    } else {
        let top = first.last();
        assert(first.contains(top));
        assert(second.contains(top));
        let place = choose|place: int| 0 <= place < second.len() && second[place] == top;
        // the last trio of each list is the greatest of the set
        let other = second.last();
        assert(second.contains(other));
        assert(first.contains(other));
        let back = choose|back: int| 0 <= back < first.len() && first[back] == other;
        if back < first.len() - 1 {
            assert(trio_le(first[back], first[first.len() - 1]));
            if place < second.len() - 1 {
                assert(trio_le(second[place], second[second.len() - 1]));
            }
        }
        assert(other == top);
        let first_rest = first.drop_last();
        let second_rest = second.drop_last();
        assert forall|trio: (usize, usize, usize)|
            first_rest.contains(trio) <==> second_rest.contains(trio) by {
            if first_rest.contains(trio) {
                let i = choose|i: int| 0 <= i < first_rest.len() && first_rest[i] == trio;
                assert(first[i] == trio && first[i] != first[first.len() - 1]);
                assert(first.contains(trio));
                assert(second.contains(trio));
                let j = choose|j: int| 0 <= j < second.len() && second[j] == trio;
                assert(second_rest[j] == trio);
            }
            if second_rest.contains(trio) {
                let j = choose|j: int| 0 <= j < second_rest.len() && second_rest[j] == trio;
                assert(second[j] == trio && second[j] != second[second.len() - 1]);
                assert(second.contains(trio));
                assert(first.contains(trio));
                let i = choose|i: int| 0 <= i < first.len() && first[i] == trio;
                assert(first_rest[i] == trio);
            }
        }
        assert forall|i: int, j: int|
            #![trigger first_rest[i], first_rest[j]]
            0 <= i < j < first_rest.len() implies trio_le(first_rest[i], first_rest[j])
            && first_rest[i] != first_rest[j] by {
            assert(first_rest[i] == first[i] && first_rest[j] == first[j]);
        }
        assert forall|i: int, j: int|
            #![trigger second_rest[i], second_rest[j]]
            0 <= i < j < second_rest.len() implies trio_le(second_rest[i], second_rest[j])
            && second_rest[i] != second_rest[j] by {
            assert(second_rest[i] == second[i] && second_rest[j] == second[j]);
        }
        lemma_ascending_trios_unique(first_rest, second_rest);
        assert(first =~= first_rest.push(top));
        assert(second =~= second_rest.push(other));
    }
}

} // verus!
