//! Pairs and arrangements of the items of a list, drawn by `itertools`.

use itertools::Itertools;
use vstd::prelude::*;

verus! {

/// The pairs of items at two places of a list, the earlier place first:
/// first every pair of the first item with a later one, then the pairs of
/// the rest.
pub open spec fn pairs_of(items: Seq<usize>) -> Seq<(usize, usize)>
    decreases items.len(),
{
    if items.len() < 2 {
        Seq::empty()
    } else {
        Seq::new((items.len() - 1) as nat, |j: int| (items[0], items[j + 1])) + pairs_of(
            items.skip(1),
        )
    }
}

/// The arrangements of `count` items of a list at different places, in the
/// order of their places: first those that begin with the first item, then
/// those that begin with the second, and so on.
pub open spec fn arrangements(items: Seq<usize>, count: nat) -> Seq<Seq<usize>>
    decreases count, items.len() + 1,
{
    if count == 0 {
        seq![Seq::<usize>::empty()]
    } else {
        arrangements_from(items, count, 0)
    }
}

/// The arrangements of `count` items that begin with the item at place
/// `first` or a later one.
pub open spec fn arrangements_from(items: Seq<usize>, count: nat, first: nat) -> Seq<Seq<usize>>
    decreases count, items.len() - first,
{
    if count == 0 || first >= items.len() {
        Seq::empty()
    } else {
        arrangements(items.remove(first as int), (count - 1) as nat).map_values(
            |rest: Seq<usize>| seq![items[first as int]] + rest,
        ) + arrangements_from(items, count, first + 1)
    }
}

/// Calls `Itertools::tuple_combinations` for pairs, which yields the pairs
/// of items at two places of the list, in the order of the places.
#[verifier::external_body]
#[allow(deprecated)]
pub(crate) fn pair_combinations(items: &[usize]) -> (pairs: Vec<(usize, usize)>)
    ensures
        pairs@ == pairs_of(items@),
{
    items.iter().copied().tuple_combinations().collect()
}

/// Calls `Itertools::permutations`, which yields the arrangements of
/// `count` items of the list at different places, in the order of the places.
#[verifier::external_body]
pub(crate) fn permutations(items: &[usize], count: usize) -> (found: Vec<Vec<usize>>)
    ensures
        found@.map_values(|order: Vec<usize>| order@) == arrangements(items@, count as nat),
{
    items.iter().copied().permutations(count).collect()
}

/// A pair is among the pairs of a list exactly when its halves stand at an
/// earlier and a later place of the list.
pub proof fn lemma_pairs_of(items: Seq<usize>)
    ensures
        forall|a: usize, b: usize|
            pairs_of(items).contains((a, b)) <==> exists|i: int, j: int|
                0 <= i < j < items.len() && items[i] == a && items[j] == b,
    decreases items.len(),
{
    if items.len() < 2 {
        assert forall|a: usize, b: usize| pairs_of(items).contains((a, b)) implies false by {}
    } else {
        let head = Seq::new((items.len() - 1) as nat, |j: int| (items[0], items[j + 1]));
        let rest = items.skip(1);
        lemma_pairs_of(rest);
        assert forall|a: usize, b: usize|
            pairs_of(items).contains((a, b)) <==> exists|i: int, j: int|
                0 <= i < j < items.len() && items[i] == a && items[j] == b by {
            if pairs_of(items).contains((a, b)) {
                let k = choose|k: int| 0 <= k < pairs_of(items).len() && pairs_of(items)[k] == (a, b);
                if k < head.len() {
                    assert(items[0] == a && items[k + 1] == b);
                } else {
                    assert(pairs_of(rest)[k - head.len()] == (a, b));
                    assert(pairs_of(rest).contains((a, b)));
                    let (i, j) = choose|i: int, j: int|
                        0 <= i < j < rest.len() && rest[i] == a && rest[j] == b;
                    assert(items[i + 1] == a && items[j + 1] == b);
                }
            }
            if exists|i: int, j: int| 0 <= i < j < items.len() && items[i] == a && items[j] == b {
                let (i, j) = choose|i: int, j: int|
                    0 <= i < j < items.len() && items[i] == a && items[j] == b;
                if i == 0 {
                    assert(head[j - 1] == (a, b));
                    assert(pairs_of(items)[j - 1] == (a, b));
                } else {
                    assert(rest[i - 1] == a && rest[j - 1] == b);
                    assert(pairs_of(rest).contains((a, b)));
                    let k = choose|k: int| 0 <= k < pairs_of(rest).len() && pairs_of(rest)[k] == (a, b);
                    assert(pairs_of(items)[head.len() + k] == (a, b));
                }
            }
        }
    }
}

/// The six orders of three items, as `arrangements` lists them.
pub open spec fn orders_of_three(a: usize, b: usize, c: usize) -> Seq<Seq<usize>> {
    seq![seq![a, b, c], seq![a, c, b], seq![b, a, c], seq![b, c, a], seq![c, a, b], seq![c, b, a]]
}

/// The arrangements of one item of a list are its items, each alone.
pub proof fn lemma_arrangements_of_one(items: Seq<usize>, first: nat)
    requires
        first <= items.len(),
    ensures
        arrangements_from(items, 1, first) == Seq::new(
            (items.len() - first) as nat,
            |i: int| seq![items[first + i]],
        ),
    decreases items.len() - first,
{
    let expected = Seq::new((items.len() - first) as nat, |i: int| seq![items[first + i]]);
    if first < items.len() {
        lemma_arrangements_of_one(items, first + 1);
        let heads = arrangements(items.remove(first as int), 0).map_values(
            |rest: Seq<usize>| seq![items[first as int]] + rest,
        );
        assert(heads.len() == 1);
        assert(heads[0] =~= seq![items[first as int]]);
        assert(arrangements_from(items, 1, first) =~= expected);
    } else {
        assert(arrangements_from(items, 1, first) =~= expected);
    }
}

/// The arrangements of two of two items.
pub proof fn lemma_arrangements_of_pair(a: usize, b: usize)
    ensures
        arrangements(seq![a, b], 2) == seq![seq![a, b], seq![b, a]],
{
    let items = seq![a, b];
    assert(items.remove(0) =~= seq![b]);
    assert(items.remove(1) =~= seq![a]);
    lemma_arrangements_of_one(seq![b], 0);
    lemma_arrangements_of_one(seq![a], 0);
    let from_a = arrangements(seq![b], 1).map_values(|rest: Seq<usize>| seq![items[0]] + rest);
    let from_b = arrangements(seq![a], 1).map_values(|rest: Seq<usize>| seq![items[1]] + rest);
    assert(from_a.len() == 1 && from_a[0] =~= seq![a, b]);
    assert(from_b.len() == 1 && from_b[0] =~= seq![b, a]);
    assert(arrangements_from(items, 2, 2) =~= Seq::<Seq<usize>>::empty());
    assert(arrangements_from(items, 2, 1) =~= from_b);
    assert(arrangements_from(items, 2, 0) =~= from_a + from_b);
    assert(arrangements(items, 2) =~= seq![seq![a, b], seq![b, a]]);
}

/// The arrangements of three of three items are their six orders.
pub proof fn lemma_arrangements_of_three(a: usize, b: usize, c: usize)
    ensures
        arrangements(seq![a, b, c], 3) == orders_of_three(a, b, c),
{
    let items = seq![a, b, c];
    assert(items.remove(0) =~= seq![b, c]);
    assert(items.remove(1) =~= seq![a, c]);
    assert(items.remove(2) =~= seq![a, b]);
    lemma_arrangements_of_pair(b, c);
    lemma_arrangements_of_pair(a, c);
    lemma_arrangements_of_pair(a, b);
    let from_a = arrangements(seq![b, c], 2).map_values(|rest: Seq<usize>| seq![items[0]] + rest);
    let from_b = arrangements(seq![a, c], 2).map_values(|rest: Seq<usize>| seq![items[1]] + rest);
    let from_c = arrangements(seq![a, b], 2).map_values(|rest: Seq<usize>| seq![items[2]] + rest);
    assert(from_a.len() == 2 && from_a[0] =~= seq![a, b, c] && from_a[1] =~= seq![a, c, b]);
    assert(from_b.len() == 2 && from_b[0] =~= seq![b, a, c] && from_b[1] =~= seq![b, c, a]);
    assert(from_c.len() == 2 && from_c[0] =~= seq![c, a, b] && from_c[1] =~= seq![c, b, a]);
    assert(arrangements_from(items, 3, 3) =~= Seq::<Seq<usize>>::empty());
    assert(arrangements_from(items, 3, 2) =~= from_c);
    assert(arrangements_from(items, 3, 1) =~= from_b + from_c);
    assert(arrangements_from(items, 3, 0) =~= from_a + from_b + from_c);
    assert(arrangements(items, 3) =~= orders_of_three(a, b, c));
}

/// The arrangements of two items that begin with the item at one place:
/// that item with each of the others in turn.
pub proof fn lemma_arrangements_of_two_at(items: Seq<usize>, first: nat)
    requires
        first < items.len(),
    ensures
        arrangements(items.remove(first as int), 1).map_values(
            |rest: Seq<usize>| seq![items[first as int]] + rest,
        ) == Seq::new(
            (items.len() - 1) as nat,
            |i: int| seq![items[first as int], items.remove(first as int)[i]],
        ),
{
    let others = items.remove(first as int);
    lemma_arrangements_of_one(others, 0);
    let block = arrangements(others, 1).map_values(
        |rest: Seq<usize>| seq![items[first as int]] + rest,
    );
    let expected = Seq::new(
        (items.len() - 1) as nat,
        |i: int| seq![items[first as int], others[i]],
    );
    assert(block.len() == expected.len());
    assert forall|i: int| 0 <= i < block.len() implies block[i] == expected[i] by {
        assert(arrangements(others, 1)[i] == seq![others[0 + i]]);
        assert(seq![items[first as int]] + seq![others[i]] =~= seq![items[first as int], others[i]]);
    }
    assert(block =~= expected);
}

/// Two items at different places of a list are among its arrangements of
/// two, the one at the first place leading.
pub proof fn lemma_arranged_pair_listed(items: Seq<usize>, first: nat, i: int, j: int)
    requires
        first <= i < items.len(),
        0 <= j < items.len(),
        i != j,
    ensures
        arrangements_from(items, 2, first).contains(seq![items[i], items[j]]),
    decreases items.len() - first,
{
    let whole = arrangements_from(items, 2, first);
    let block = arrangements(items.remove(first as int), 1).map_values(
        |rest: Seq<usize>| seq![items[first as int]] + rest,
    );
    let rest = arrangements_from(items, 2, first + 1);
    lemma_arrangements_of_two_at(items, first);
    assert(whole == block + rest);
    if i == first {
        let place = if j < i {
            j
        } else {
            j - 1
        };
        assert(items.remove(first as int)[place] == items[j]);
        assert(block[place] == seq![items[i], items[j]]);
        assert(whole[place] == seq![items[i], items[j]]);
    } else {
        lemma_arranged_pair_listed(items, first + 1, i, j);
        let place = choose|place: int|
            0 <= place < rest.len() && rest[place] == seq![items[i], items[j]];
        assert(whole[block.len() + place] == seq![items[i], items[j]]);
    }
}

/// Every arrangement of two items of a list holds two items of the list.
pub proof fn lemma_listed_pair_arranged(items: Seq<usize>, first: nat, place: int)
    requires
        first <= items.len(),
        0 <= place < arrangements_from(items, 2, first).len(),
    ensures
        arrangements_from(items, 2, first)[place].len() == 2,
        items.contains(arrangements_from(items, 2, first)[place][0]),
        items.contains(arrangements_from(items, 2, first)[place][1]),
    decreases items.len() - first,
{
    if first < items.len() {
        let block = arrangements(items.remove(first as int), 1).map_values(
            |rest: Seq<usize>| seq![items[first as int]] + rest,
        );
        let rest = arrangements_from(items, 2, first + 1);
        lemma_arrangements_of_two_at(items, first);
        assert(arrangements_from(items, 2, first) == block + rest);
        if place < block.len() {
            let other = items.remove(first as int)[place];
            assert(block[place] == seq![items[first as int], other]);
            let origin = if place < first {
                place
            } else {
                place + 1
            };
            assert(items[origin] == other);
        } else {
            lemma_listed_pair_arranged(items, first + 1, place - block.len());
        }
    }
}

} // verus!
