//! The primitive Pythagorean triples with sides below a thousand.

use vstd::prelude::*;

use super::coprimes::{coprime_pair, CoprimesTable};
use super::numbers::{common_divisor, coprime};
use super::trios::{
    lemma_ascending_trios_unique, trio_items, trio_le, trios_insert, trios_into_vec, trios_new,
    trios_sort,
};
use crate::combinations::{lemma_arrangements_of_three, orders_of_three, permutations};

verus! {

/// One more than the largest first number that Euclid's formula is given.
pub const GENERATOR_LIMIT: usize = 100;

/// The longest side that a triple of the table can have.
pub const SIDE_LIMIT: usize = 999;

/// Three sides, the first two of which span a right angle.
#[derive(Clone, Copy, Debug, Hash, PartialEq, Eq, Structural, PartialOrd, Ord)]
pub struct PythagoreanTriple(pub usize, pub usize, pub usize);

/// Whether Euclid's formula is given the two numbers: the first from 2 to
/// 99, the second below it and coprime to it, one of them even and the other odd.
pub open spec fn generates(m: nat, n: nat) -> bool {
    2 <= m < GENERATOR_LIMIT && 1 <= n < m && coprime(m, n) && n % 2 == (m + 1) % 2
}

/// The triple that Euclid's formula makes of two numbers.
pub open spec fn euclid(m: nat, n: nat) -> (int, int, int) {
    (m * m - n * n, (2 * m * n) as int, (m * m + n * n) as int)
}

/// Whether the two numbers make the triple and no side of it is too long.
pub open spec fn makes(m: usize, n: usize, triple: (usize, usize, usize)) -> bool {
    &&& generates(m as nat, n as nat)
    &&& euclid(m as nat, n as nat) == (triple.0 as int, triple.1 as int, triple.2 as int)
    &&& triple.0 <= SIDE_LIMIT
    &&& triple.1 <= SIDE_LIMIT
    &&& triple.2 <= SIDE_LIMIT
}

/// Whether the table holds the triple: Euclid's formula makes it of two
/// numbers that it is given, and no side is longer than 999.
pub open spec fn in_triple_table(triple: (usize, usize, usize)) -> bool {
    exists|m: usize, n: usize| #[trigger] makes(m, n, triple)
}

/// Whether the table holds the three numbers in one of their six orders.
pub open spec fn is_triple_in_some_order(a: usize, b: usize, c: usize) -> bool {
    ||| in_triple_table((a, b, c))
    ||| in_triple_table((a, c, b))
    ||| in_triple_table((b, a, c))
    ||| in_triple_table((b, c, a))
    ||| in_triple_table((c, a, b))
    ||| in_triple_table((c, b, a))
}

/// The sides of a triple.
pub open spec fn sides(triple: PythagoreanTriple) -> (usize, usize, usize) {
    (triple.0, triple.1, triple.2)
}

/// Whether the triples stand in strictly ascending order: by the first
/// side, then the second, then the third.
pub open spec fn triples_ascending(list: Seq<PythagoreanTriple>) -> bool {
    forall|i: int, j: int|
        #![trigger list[i], list[j]]
        0 <= i < j < list.len() ==> trio_le(sides(list[i]), sides(list[j])) && list[i] != list[j]
}

/// Whether the list is the table of triples.
pub open spec fn is_triple_table(list: Seq<PythagoreanTriple>) -> bool {
    &&& triples_ascending(list)
    &&& forall|triple: PythagoreanTriple| #[trigger]
        list.contains(triple) <==> in_triple_table(sides(triple))
}

/// The table of triples: the one list that holds every triple of the table
/// once, in ascending order.
pub open spec fn triple_table() -> Seq<PythagoreanTriple> {
    choose|list: Seq<PythagoreanTriple>| is_triple_table(list)
}

/// A list that holds every triple of the table in ascending order is the
/// table of triples.
pub proof fn lemma_triple_table_is(list: Seq<PythagoreanTriple>)
    requires
        is_triple_table(list),
    ensures
        list == triple_table(),
{
    let other = triple_table();
    let first = list.map_values(|triple: PythagoreanTriple| sides(triple));
    let second = other.map_values(|triple: PythagoreanTriple| sides(triple));
    assert forall|i: int, j: int|
        #![trigger first[i], first[j]]
        0 <= i < j < first.len() implies trio_le(first[i], first[j]) && first[i] != first[j] by {
        assert(trio_le(sides(list[i]), sides(list[j])) && list[i] != list[j]);
    }
    assert forall|i: int, j: int|
        #![trigger second[i], second[j]]
        0 <= i < j < second.len() implies trio_le(second[i], second[j]) && second[i]
        != second[j] by {
        assert(trio_le(sides(other[i]), sides(other[j])) && other[i] != other[j]);
    }
    assert forall|trio: (usize, usize, usize)| first.contains(trio) <==> second.contains(trio) by {
        let triple = PythagoreanTriple(trio.0, trio.1, trio.2);
        if first.contains(trio) {
            let i = choose|i: int| 0 <= i < first.len() && first[i] == trio;
            assert(list[i] == triple);
            assert(list.contains(triple));
            assert(other.contains(triple));
            let j = choose|j: int| 0 <= j < other.len() && other[j] == triple;
            assert(second[j] == trio);
        }
        if second.contains(trio) {
            let j = choose|j: int| 0 <= j < second.len() && second[j] == trio;
            assert(other[j] == triple);
            assert(other.contains(triple));
            assert(list.contains(triple));
            let i = choose|i: int| 0 <= i < list.len() && list[i] == triple;
            assert(first[i] == trio);
        }
    }
    lemma_ascending_trios_unique(first, second);
    assert(list.len() == other.len());
    assert forall|i: int| 0 <= i < list.len() implies list[i] == other[i] by {
        assert(first[i] == second[i]);
    }
    assert(list =~= other);
}

/// The triples that Euclid's formula makes are Pythagorean: the squares of
/// the first two sides sum to the square of the third.
pub proof fn lemma_euclid_is_pythagorean(m: nat, n: nat)
    requires
        n <= m,
    ensures
        euclid(m, n).0 * euclid(m, n).0 + euclid(m, n).1 * euclid(m, n).1 == euclid(m, n).2
            * euclid(m, n).2,
{
    let mm = m * m;
    let nn = n * n;
    assert((mm - nn) * (mm - nn) + (2 * m * n) * (2 * m * n) == (mm + nn) * (mm + nn))
        by (nonlinear_arith)
        requires
            mm == m * m,
            nn == n * n,
    ;
}

/// Every triple of the table is Pythagorean with a longest side below a
/// thousand, and the table holds each of its six orders in some order.
pub proof fn lemma_table_triple(a: usize, b: usize, c: usize)
    requires
        in_triple_table((a, b, c)),
    ensures
        a * a + b * b == c * c,
        c < 1000,
        is_triple_in_some_order(a, b, c),
        is_triple_in_some_order(a, c, b),
        is_triple_in_some_order(b, a, c),
        is_triple_in_some_order(b, c, a),
        is_triple_in_some_order(c, a, b),
        is_triple_in_some_order(c, b, a),
{
    let (m, n) = choose|m: usize, n: usize| #[trigger] makes(m, n, (a, b, c));
    lemma_euclid_is_pythagorean(m as nat, n as nat);
}

/// The number 1 is coprime to every number.
pub proof fn lemma_one_is_coprime(m: nat)
    requires
        m >= 1,
    ensures
        coprime(m, 1),
{
    assert(common_divisor(1, m, 1));
    assert forall|other: nat| #[trigger] common_divisor(other, m, 1) implies other <= 1 by {
        if other > 1 {
            assert(1nat % other == 1) by (nonlinear_arith)
                requires
                    other > 1,
            ;
        }
    }
}

/// The sides that Euclid's formula makes of two numbers below a hundred
/// fit the machine's numbers.
proof fn lemma_euclid_bounds(m: nat, n: nat)
    requires
        n < m < GENERATOR_LIMIT,
    ensures
        0 <= n * n < m * m <= 99 * 99,
        0 <= 2 * m * n <= 2 * 99 * 99,
{
    assert(n * n < m * m <= 99 * 99) by (nonlinear_arith)
        requires
            n < m <= 99,
    ;
    assert(0 <= 2 * m * n <= 2 * 99 * 99) by (nonlinear_arith)
        requires
            n < m <= 99,
    ;
}

/// The table of Pythagorean triples
pub struct PythagoreanTriplesTable {
    triples: Vec<PythagoreanTriple>,
}

impl View for PythagoreanTriplesTable {
    type V = Seq<PythagoreanTriple>;

    closed spec fn view(&self) -> Seq<PythagoreanTriple> {
        self.triples@
    }
}

impl PythagoreanTriplesTable {
    /// The table holds the triples of Euclid's formula in ascending order.
    #[verifier::type_invariant]
    pub closed spec fn well_formed(self) -> bool {
        is_triple_table(self.triples@)
    }

    /// Builds the table from the coprime partners of the numbers 2 to 99.
    pub fn new(coprimes: &CoprimesTable) -> (table: Self)
        ensures
            table@ == triple_table(),
    {
        let mut triples = trios_new();
        // Use Euclids formula to generate all pythagorean triples, starting from the first
        // composite number
        let mut m: usize = 2;
        while m < GENERATOR_LIMIT
            invariant
                2 <= m <= GENERATOR_LIMIT,
                forall|triple: (usize, usize, usize)| #[trigger]
                    trio_items(triples).contains(triple) <==> exists|first: usize, second: usize|
                        first < m && #[trigger] makes(first, second, triple),
            decreases GENERATOR_LIMIT - m,
        {
            // Get all coprimes of m
            let partners = coprimes.coprimes_of(m);
            // When m is even we want n to be odd and vice versa
            let remainder_of_n = (m + 1) % 2;
            let mut k: usize = 0;
            while k < partners.len()
                invariant
                    2 <= m < GENERATOR_LIMIT,
                    k <= partners.len(),
                    remainder_of_n == (m + 1) % 2,
                    partners@.len() >= 1,
                    partners@.last() == 1,
                    forall|other: usize| #[trigger]
                        partners@.drop_last().contains(other) <==> coprime_pair(m, other),
                    forall|triple: (usize, usize, usize)| #[trigger]
                        trio_items(triples).contains(triple) <==> exists|first: usize, second: usize|
                            (first < m || (first == m && partners@.subrange(0, k as int).contains(
                                second,
                            ))) && #[trigger] makes(first, second, triple),
                decreases partners.len() - k,
            {
                let n = partners[k];
                let ghost before = triples;
                let ghost seen = partners@.subrange(0, k as int);
                let ghost seen_after = partners@.subrange(0, k + 1);
                proof {
                    assert(seen_after =~= seen.push(n));
                    assert forall|x: usize| seen_after.contains(x) <==> seen.contains(x) || x == n by {
                        if seen.contains(x) {
                            let i = choose|i: int| 0 <= i < seen.len() && seen[i] == x;
                            assert(seen_after[i] == x);
                        }
                        if x == n {
                            assert(seen_after[k as int] == x);
                        }
                    }
                    // every partner is coprime to m and at least 1
                    if k + 1 < partners@.len() {
                        assert(partners@.drop_last()[k as int] == n);
                        assert(partners@.drop_last().contains(n));
                        assert(coprime_pair(m, n));
                    } else {
                        lemma_one_is_coprime(m as nat);
                    }
                    assert(n >= 1 && coprime(m as nat, n as nat));
                }
                let mut added = false;
                if n < m && n % 2 == remainder_of_n {
                    proof {
                        lemma_euclid_bounds(m as nat, n as nat);
                    }
                    // Create values of a, b, c
                    let a = m * m - n * n;
                    let b = 2 * m * n;
                    let c = m * m + n * n;
                    // Make sure a,b,c are not greater than 999
                    if !(a > SIDE_LIMIT || b > SIDE_LIMIT || c > SIDE_LIMIT) {
                        trios_insert(&mut triples, (a, b, c));
                        proof {
                            assert(2 * m * n == 2 * (m * n)) by (nonlinear_arith);
                            assert(makes(m, n, (a, b, c)));
                        }
                        added = true;
                    }
                }
                proof {
                    assert forall|triple: (usize, usize, usize)| #[trigger]
                        trio_items(triples).contains(triple) <==> exists|first: usize, second: usize|
                            (first < m || (first == m && seen_after.contains(second)))
                                && #[trigger] makes(first, second, triple) by {
                        if trio_items(triples).contains(triple) {
                            if trio_items(before).contains(triple) {
                                let (first, second) = choose|first: usize, second: usize|
                                    (first < m || (first == m && seen.contains(second)))
                                        && #[trigger] makes(first, second, triple);
                                assert((first < m || (first == m && seen_after.contains(second)))
                                    && makes(first, second, triple));
                            } else {
                                assert(added);
                                assert(makes(m, n, triple));
                                assert(seen_after.contains(n));
                            }
                        }
                        if exists|first: usize, second: usize|
                            (first < m || (first == m && seen_after.contains(second)))
                                && #[trigger] makes(first, second, triple) {
                            let (first, second) = choose|first: usize, second: usize|
                                (first < m || (first == m && seen_after.contains(second)))
                                    && #[trigger] makes(first, second, triple);
                            if first == m && second == n {
                                assert(added);
                            } else {
                                assert((first < m || (first == m && seen.contains(second)))
                                    && makes(first, second, triple));
                                assert(trio_items(before).contains(triple));
                            }
                        }
                    }
                }
                k += 1;
            }
            proof {
                assert(partners@.subrange(0, k as int) =~= partners@);
                assert forall|triple: (usize, usize, usize)| #[trigger]
                    trio_items(triples).contains(triple) <==> exists|first: usize, second: usize|
                        first < m + 1 && #[trigger] makes(first, second, triple) by {
                    if trio_items(triples).contains(triple) {
                        let (first, second) = choose|first: usize, second: usize|
                            (first < m || (first == m && partners@.contains(second)))
                                && #[trigger] makes(first, second, triple);
                        assert(first < m + 1 && makes(first, second, triple));
                    }
                    if exists|first: usize, second: usize|
                        first < m + 1 && #[trigger] makes(first, second, triple) {
                        let (first, second) = choose|first: usize, second: usize|
                            first < m + 1 && #[trigger] makes(first, second, triple);
                        if first == m {
                            // the second number is among the partners of m
                            assert(coprime_pair(m, second));
                            assert(partners@.drop_last().contains(second));
                            let i = choose|i: int|
                                0 <= i < partners@.drop_last().len() && partners@.drop_last()[i]
                                    == second;
                            assert(partners@[i] == second);
                            assert(partners@.contains(second));
                        }
                        assert((first < m || (first == m && partners@.contains(second)))
                            && makes(first, second, triple));
                    }
                }
            }
            m += 1;
        }
        // Collect into a vec and order them so we can binary search
        let mut list = trios_into_vec(triples);
        let ghost unsorted = list@;
        trios_sort(&mut list);
        proof {
            unsorted.to_multiset_ensures();
            list@.to_multiset_ensures();
            unsorted.lemma_multiset_has_no_duplicates();
            list@.lemma_multiset_has_no_duplicates_conv();
            assert forall|trio: (usize, usize, usize)| list@.contains(trio) <==> in_triple_table(
                trio,
            ) by {
                assert(list@.to_multiset().count(trio) == unsorted.to_multiset().count(trio));
                assert(list@.contains(trio) <==> unsorted.contains(trio));
                assert(unsorted.contains(trio) <==> trio_items(triples).contains(trio));
                if in_triple_table(trio) {
                    let (first, second) = choose|first: usize, second: usize| #[trigger]
                        makes(first, second, trio);
                    assert(first < GENERATOR_LIMIT && makes(first, second, trio));
                }
            }
        }
        let mut table: Vec<PythagoreanTriple> = Vec::new();
        let mut i: usize = 0;
        while i < list.len()
            invariant
                i <= list.len(),
                table@.len() == i,
                forall|j: int| 0 <= j < i ==> sides(#[trigger] table@[j]) == list@[j],
            decreases list.len() - i,
        {
            let (a, b, c) = list[i];
            table.push(PythagoreanTriple(a, b, c));
            i += 1;
        }
        proof {
            assert forall|i: int, j: int| 0 <= i < j < table@.len() implies trio_le(
                sides(table@[i]),
                sides(table@[j]),
            ) && table@[i] != table@[j] by {
                assert(list@[i] != list@[j]);
            }
            assert forall|triple: PythagoreanTriple| #[trigger]
                table@.contains(triple) <==> in_triple_table(sides(triple)) by {
                if table@.contains(triple) {
                    let j = choose|j: int| 0 <= j < table@.len() && table@[j] == triple;
                    assert(list@[j] == sides(triple));
                    assert(list@.contains(sides(triple)));
                }
                if in_triple_table(sides(triple)) {
                    assert(list@.contains(sides(triple)));
                    let j = choose|j: int| 0 <= j < list@.len() && list@[j] == sides(triple);
                    assert(table@[j] == triple);
                }
            }
        }
        proof {
            lemma_triple_table_is(table@);
        }
        Self { triples: table }
    }

    /// The triples of the table in ascending order.
    pub fn triples(&self) -> (list: &Vec<PythagoreanTriple>)
        ensures
            list@ == self@,
            list@ == triple_table(),
            is_triple_table(list@),
    {
        proof {
            use_type_invariant(self);
            lemma_triple_table_is(self.triples@);
        }
        &self.triples
    }

    /// Whether the table holds the triple with its sides in this order,
    /// found by halving.
    pub fn contains(&self, triple: PythagoreanTriple) -> (found: bool)
        ensures
            found == in_triple_table(sides(triple)),
    {
        proof {
            use_type_invariant(self);
        }
        let mut low: usize = 0;
        let mut high: usize = self.triples.len();
        while low < high
            invariant
                low <= high <= self.triples.len(),
                is_triple_table(self.triples@),
                forall|i: int| 0 <= i < low ==> self.triples@[i] != triple && trio_le(
                    sides(#[trigger] self.triples@[i]),
                    sides(triple),
                ),
                forall|i: int| high <= i < self.triples.len() ==> self.triples@[i] != triple && trio_le(
                    sides(triple),
                    sides(#[trigger] self.triples@[i]),
                ),
            decreases high - low,
        {
            let middle = low + (high - low) / 2;
            let here = self.triples[middle];
            if here.0 == triple.0 && here.1 == triple.1 && here.2 == triple.2 {
                assert(self.triples@.contains(triple));
                return true;
            } else if here.0 < triple.0 || (here.0 == triple.0 && (here.1 < triple.1 || (here.1
                == triple.1 && here.2 < triple.2))) {
                low = middle + 1;
            } else {
                high = middle;
            }
        }
        proof {
            if self.triples@.contains(triple) {
                let i = choose|i: int| 0 <= i < self.triples@.len() && self.triples@[i] == triple;
                assert(false);
            }
        }
        false
    }

    /// Whether the three numbers are the sides of a triple of the table in
    /// one of their orders.
    pub fn is_triple(&self, numbers: [usize; 3]) -> (found: bool)
        ensures
            found == is_triple_in_some_order(numbers[0], numbers[1], numbers[2]),
    {
        proof {
            lemma_arrangements_of_three(numbers[0], numbers[1], numbers[2]);
            assert(numbers@ =~= seq![numbers[0], numbers[1], numbers[2]]);
        }
        // Go through every permutation
        let orders = permutations(numbers.as_slice(), 3);
        let ghost listed = orders@.map_values(|order: Vec<usize>| order@);
        let mut i: usize = 0;
        while i < orders.len()
            invariant
                i <= orders.len(),
                listed == orders@.map_values(|order: Vec<usize>| order@),
                listed == orders_of_three(numbers[0], numbers[1], numbers[2]),
                forall|j: int|
                    0 <= j < i ==> !in_triple_table(
                        ((#[trigger] listed[j])[0], listed[j][1], listed[j][2]),
                    ),
            decreases orders.len() - i,
        {
            let order = &orders[i];
            proof {
                assert(listed[i as int] == order@);
                assert(listed.len() == 6);
                assert(i == 0 || i == 1 || i == 2 || i == 3 || i == 4 || i == 5);
                assert(order@.len() == 3);
            }
            // We can use binary search as this set is sorted
            if self.contains(PythagoreanTriple(order[0], order[1], order[2])) {
                return true;
            }
            i += 1;
        }
        proof {
            assert(listed.len() == 6);
            assert(!in_triple_table((listed[0][0], listed[0][1], listed[0][2])));
            assert(!in_triple_table((listed[1][0], listed[1][1], listed[1][2])));
            assert(!in_triple_table((listed[2][0], listed[2][1], listed[2][2])));
            assert(!in_triple_table((listed[3][0], listed[3][1], listed[3][2])));
            assert(!in_triple_table((listed[4][0], listed[4][1], listed[4][2])));
            assert(!in_triple_table((listed[5][0], listed[5][1], listed[5][2])));
        }
        false
    }
}

} // verus!
