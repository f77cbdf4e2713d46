//! Three fields whose numbers are the sides of a triangle with a
//! triangular perimeter, each odd and composite, no two with a common
//! divisor.

use vstd::prelude::*;

use crate::combinations::{
    arrangements, arrangements_from, lemma_arranged_pair_listed, lemma_listed_pair_arranged,
    permutations,
};
use crate::lookup_tables::coprimes::{
    all_composite_coprime, composite, composite_coprime_pair, lemma_not_coprime_to_itself,
};
use crate::lookup_tables::graph::{graph_node_list, graph_nodes};
use crate::lookup_tables::numbers::{common_divisor, is_even, is_odd};
use crate::lookup_tables::primes::{is_table_prime, PrimeTable};
use crate::lookup_tables::triangular::{is_table_triangular, TriangularTable};
use crate::lookup_tables::trios::{
    lemma_ascending_trios_unique, lemma_ascending_without_duplicates, trio_items, trios_insert,
    trios_into_vec, trios_new, trios_sort, trios_strictly_ascending,
};
use crate::puzzle::layout::LayoutView;
use crate::puzzle::position::IdentifierVector;
use crate::puzzle::{FitError, Puzzle, PuzzleView};
use crate::rules::triangles::pythagorean_triangle::assign_three;
use crate::rules::{
    fitted, lemma_added_extend, lemma_fitted_contains, push_fit, rule_applies, views,
    LookupTables, PuzzleRule,
};

verus! {

/// 3 Sides form a triangle whose perimeter is triangular and whose sides are
/// each odd, composite and co-prime to one another
pub struct OddCompositeCoprimeRule(pub [IdentifierVector; 3]);

/// Whether the three numbers can be the sides that the rule asks for: each
/// odd, each two joined in the table of coprime composites, each shorter
/// than the other two together, and with a triangular sum.
pub open spec fn valid_trio(trio: (usize, usize, usize)) -> bool {
    &&& trio.0 % 2 == 1
    &&& trio.1 % 2 == 1
    &&& trio.2 % 2 == 1
    &&& composite_coprime_pair(trio.0, trio.1)
    &&& composite_coprime_pair(trio.0, trio.2)
    &&& composite_coprime_pair(trio.1, trio.2)
    &&& trio.0 + trio.1 > trio.2
    &&& trio.1 + trio.2 > trio.0
    &&& trio.2 + trio.0 > trio.1
    &&& is_table_triangular((trio.0 + trio.1 + trio.2) as nat)
}

/// Whether the list holds every valid trio once, in ascending order, and
/// nothing else.
pub open spec fn lists_valid_trios(trios: Seq<(usize, usize, usize)>) -> bool {
    &&& trios_strictly_ascending(trios)
    &&& forall|trio: (usize, usize, usize)| trios.contains(trio) <==> valid_trio(trio)
}

/// The valid trios: the one list that holds each of them once, in
/// ascending order.
pub open spec fn valid_trios() -> Seq<(usize, usize, usize)> {
    choose|trios: Seq<(usize, usize, usize)>| lists_valid_trios(trios)
}

/// A list that holds every valid trio in ascending order is the list of
/// the valid trios.
pub proof fn lemma_valid_trios_are(trios: Seq<(usize, usize, usize)>)
    requires
        lists_valid_trios(trios),
    ensures
        trios == valid_trios(),
{
    let chosen = valid_trios();
    assert(lists_valid_trios(chosen));
    assert forall|trio: (usize, usize, usize)| trios.contains(trio) <==> chosen.contains(trio) by {
        assert(trios.contains(trio) <==> valid_trio(trio));
        assert(chosen.contains(trio) <==> valid_trio(trio));
    }
    lemma_ascending_trios_unique(trios, chosen);
}

/// No valid trio holds two numbers with a common divisor, such as 9 and 15.
pub proof fn lemma_valid_trio_is_coprime(trio: (usize, usize, usize), divisor: nat)
    requires
        valid_trio(trio),
        divisor > 1,
    ensures
        !(trio.0 as nat % divisor == 0 && trio.1 as nat % divisor == 0),
        !(trio.0 as nat % divisor == 0 && trio.2 as nat % divisor == 0),
        !(trio.1 as nat % divisor == 0 && trio.2 as nat % divisor == 0),
{
    if trio.0 as nat % divisor == 0 && trio.1 as nat % divisor == 0 {
        assert(common_divisor(divisor, trio.0 as nat, trio.1 as nat));
    }
    if trio.0 as nat % divisor == 0 && trio.2 as nat % divisor == 0 {
        assert(common_divisor(divisor, trio.0 as nat, trio.2 as nat));
    }
    if trio.1 as nat % divisor == 0 && trio.2 as nat % divisor == 0 {
        assert(common_divisor(divisor, trio.1 as nat, trio.2 as nat));
    }
}

impl OddCompositeCoprimeRule {
    /// The three vectors name fields on the grid.
    pub open spec fn applies(&self, layout: LayoutView) -> bool {
        layout.has_field(self.0[0]) && layout.has_field(self.0[1]) && layout.has_field(self.0[2])
    }

    /// The three fields are filled, their numbers are odd and not prime,
    /// and each two of them are joined in the table of coprime composites.
    pub open spec fn holds(&self, puzzle: PuzzleView) -> bool {
        &&& puzzle.number_at(self.0[0]) is Some
        &&& puzzle.number_at(self.0[1]) is Some
        &&& puzzle.number_at(self.0[2]) is Some
        &&& forall|i: int|
            0 <= i < 3 ==> (#[trigger] puzzle.number_at(self.0[i])->0) % 2 == 1 && !is_table_prime(
                puzzle.number_at(self.0[i])->0,
            )
        &&& all_composite_coprime(
            seq![
                puzzle.number_at(self.0[0])->0 as usize,
                puzzle.number_at(self.0[1])->0 as usize,
                puzzle.number_at(self.0[2])->0 as usize,
            ],
        )
    }

    /// The rule can work on a layout exactly when the layout has fields for
    /// its vectors and what else the rule needs.
    pub proof fn lemma_applies(&self, layout: LayoutView)
        ensures
            self.applies(layout) <==> layout.has_fields(self.vectors()) && self.needs(layout),
    {
        let vectors = self.vectors();
        if layout.has_fields(vectors) {
            assert(layout.has_field(vectors[0]));
            assert(layout.has_field(vectors[1]));
            assert(layout.has_field(vectors[2]));
        }
    }

    /// A puzzle meets the rule exactly when the fields of the rule hold
    /// numbers that the rule accepts.
    pub proof fn lemma_holds(&self, puzzle: PuzzleView)
        ensures
            self.holds(puzzle) <==> puzzle.are_filled(self.vectors()) && self.accepts(
                puzzle.numbers_at(self.vectors()),
            ),
    {
        let vectors = self.vectors();
        if puzzle.are_filled(vectors) {
            assert(puzzle.number_at(vectors[0]) is Some);
            assert(puzzle.number_at(vectors[1]) is Some);
            assert(puzzle.number_at(vectors[2]) is Some);
        }
        let numbers = puzzle.numbers_at(vectors);
        if self.holds(puzzle) {
            assert forall|i: int| 0 <= i < 3 implies (#[trigger] numbers[i]) % 2 == 1
                && !is_table_prime(numbers[i]) by {
                assert(puzzle.number_at(self.0[i])->0 == numbers[i]);
            }
        }
        if puzzle.are_filled(vectors) && self.accepts(numbers) {
            assert forall|i: int| 0 <= i < 3 implies (#[trigger] puzzle.number_at(self.0[i])->0) % 2
                == 1 && !is_table_prime(puzzle.number_at(self.0[i])->0) by {
                assert(puzzle.number_at(self.0[i])->0 == numbers[i]);
            }
        }
    }

    /// The assignments that a list of trios gives, in its order: each trio
    /// for the three fields, number by number.
    pub open spec fn assignments(self, trios: Seq<(usize, usize, usize)>) -> Seq<
        Seq<(IdentifierVector, usize)>,
    > {
        Seq::new(
            trios.len(),
            |i: int| assign_three(self.0, seq![trios[i].0, trios[i].1, trios[i].2]),
        )
    }

    /// Whether the rule tries the assignment: a valid trio for the three
    /// fields, number by number.
    pub open spec fn proposes(self, assignment: Seq<(IdentifierVector, usize)>) -> bool {
        exists|trio: (usize, usize, usize)|
            valid_trio(trio) && assignment == assign_three(
                self.0,
                #[trigger] seq![trio.0, trio.1, trio.2],
            )
    }

    /// Whether the rule can work on the puzzle: its three vectors name
    /// fields on the grid.
    pub fn applies_to(&self, puzzle: &Puzzle) -> (applies: bool)
        ensures
            applies == self.applies(puzzle@.layout),
            applies == rule_applies(self, puzzle@.layout),
    {
        proof {
            self.lemma_applies(puzzle@.layout);
        }
        puzzle.has_field(self.0[0]) && puzzle.has_field(self.0[1]) && puzzle.has_field(self.0[2])
    }

    /// The rule yields a puzzle exactly when a valid trio fits the three
    /// fields, number by number, and gives it.
    pub proof fn lemma_candidates(self, before: PuzzleView, trios: Seq<(usize, usize, usize)>)
        requires
            lists_valid_trios(trios),
        ensures
            forall|after: PuzzleView|
                self.candidates(before).contains(after) <==> exists|
                    assignment: Seq<(IdentifierVector, usize)>,
                |
                    #[trigger] self.proposes(assignment) && before.fit_all(assignment) == Ok::<
                        PuzzleView,
                        FitError,
                    >(after),
    {
        lemma_valid_trios_are(trios);
        let list = self.assignments(trios);
        lemma_fitted_contains(before, list);
        assert forall|after: PuzzleView|
            self.candidates(before).contains(after) <==> exists|
                assignment: Seq<(IdentifierVector, usize)>,
            |
                #[trigger] self.proposes(assignment) && before.fit_all(assignment) == Ok::<
                    PuzzleView,
                    FitError,
                >(after) by {
            if self.candidates(before).contains(after) {
                let k = choose|k: int|
                    0 <= k < list.len() && before.fit_all(#[trigger] list[k]) == Ok::<
                        PuzzleView,
                        FitError,
                    >(after);
                assert(trios.contains(trios[k]));
                assert(valid_trio(trios[k]) && list[k] == assign_three(
                    self.0,
                    seq![trios[k].0, trios[k].1, trios[k].2],
                ));
                assert(self.proposes(list[k]));
            }
            if exists|assignment: Seq<(IdentifierVector, usize)>|
                #[trigger] self.proposes(assignment) && before.fit_all(assignment) == Ok::<
                    PuzzleView,
                    FitError,
                >(after) {
                let assignment = choose|assignment: Seq<(IdentifierVector, usize)>|
                    #[trigger] self.proposes(assignment) && before.fit_all(assignment) == Ok::<
                        PuzzleView,
                        FitError,
                    >(after);
                let trio = choose|trio: (usize, usize, usize)|
                    valid_trio(trio) && assignment == assign_three(
                        self.0,
                        #[trigger] seq![trio.0, trio.1, trio.2],
                    );
                assert(trios.contains(trio));
                let k = choose|k: int| 0 <= k < trios.len() && trios[k] == trio;
                assert(list[k] == assignment);
                assert(before.fit_all(list[k]) == Ok::<PuzzleView, FitError>(after));
            }
        }
    }

    /// Every puzzle that the rule yields meets the rule.
    pub proof fn lemma_candidates_hold(
        self,
        before: PuzzleView,
        trios: Seq<(usize, usize, usize)>,
        place: int,
    )
        requires
            before.wf(),
            self.applies(before.layout),
            lists_valid_trios(trios),
            0 <= place < self.candidates(before).len(),
        ensures
            self.holds(self.candidates(before)[place]),
    {
        lemma_valid_trios_are(trios);
        let list = self.assignments(trios);
        let after = self.candidates(before)[place];
        lemma_fitted_contains(before, list);
        assert(self.candidates(before).contains(after));
        let k = choose|k: int|
            0 <= k < list.len() && before.fit_all(#[trigger] list[k]) == Ok::<PuzzleView, FitError>(
                after,
            );
        let trio = trios[k];
        assert(trios.contains(trio));
        assert(valid_trio(trio));
        assert(list[k] == assign_three(self.0, seq![trio.0, trio.1, trio.2]));
        assert(before.has_fields(list[k]));
        before.lemma_fit_all_places_numbers(list[k], 0);
        before.lemma_fit_all_places_numbers(list[k], 1);
        before.lemma_fit_all_places_numbers(list[k], 2);
        let numbers = seq![trio.0, trio.1, trio.2];
        assert forall|i: int, j: int| 0 <= i < j < numbers.len() implies composite_coprime_pair(
            numbers[i],
            numbers[j],
        ) by {}
        assert forall|i: int| 0 <= i < 3 implies (#[trigger] after.number_at(self.0[i])->0) % 2 == 1
            && !is_table_prime(after.number_at(self.0[i])->0) by {
            assert(after.number_at(self.0[i])->0 == numbers[i]);
        }
    }
}

/// The odd numbers of a list, in its order.
fn odd_numbers(numbers: &Vec<usize>) -> (odd: Vec<usize>)
    ensures
        forall|number: usize|
            odd@.contains(number) <==> numbers@.contains(number) && number % 2 == 1,
{
    let mut odd: Vec<usize> = Vec::new();
    let mut i: usize = 0;
    while i < numbers.len()
        invariant
            i <= numbers.len(),
            forall|number: usize|
                odd@.contains(number) <==> numbers@.subrange(0, i as int).contains(number)
                    && number % 2 == 1,
        decreases numbers.len() - i,
    {
        let number = numbers[i];
        let ghost before = odd@;
        let ghost seen = numbers@.subrange(0, i as int);
        let ghost seen_after = numbers@.subrange(0, i + 1);
        let keep = is_odd(number);
        if keep {
            odd.push(number);
        }
        proof {
            assert(seen_after =~= seen.push(number));
            assert forall|x: usize| odd@.contains(x) <==> seen_after.contains(x) && x % 2 == 1 by {
                if odd@.contains(x) {
                    let k = choose|k: int| 0 <= k < odd@.len() && odd@[k] == x;
                    if k < before.len() {
                        assert(before[k] == x);
                        assert(before.contains(x));
                        let n = choose|n: int| 0 <= n < seen.len() && seen[n] == x;
                        assert(seen_after[n] == x);
                    } else {
                        assert(seen_after[i as int] == x);
                    }
                }
                if seen_after.contains(x) && x % 2 == 1 {
                    let n = choose|n: int| 0 <= n < seen_after.len() && seen_after[n] == x;
                    if n < i {
                        assert(seen[n] == x);
                        assert(seen.contains(x));
                        assert(before.contains(x));
                        let k = choose|k: int| 0 <= k < before.len() && before[k] == x;
                        assert(odd@[k] == x);
                    } else {
                        assert(odd@[before.len() as int] == x);
                    }
                }
            }
        }
        i += 1;
    }
    proof {
        assert(numbers@.subrange(0, i as int) =~= numbers@);
    }
    odd
}

/// All the trios that the rule can try, each once, in ascending order.
pub fn possible_trios(tables: &LookupTables) -> (trios: Vec<(usize, usize, usize)>)
    ensures
        lists_valid_trios(trios@),
        trios@ == valid_trios(),
{
    // Create a table of all possible trios
    let mut possible_trios = trios_new();
    // Go through all coprime nodes, filtering out the even ones (primes are already filtered)
    let graph = tables.coprimes.composite_coprimes();
    let nodes = graph_node_list(graph);
    proof {
        assert forall|node: usize| #[trigger] nodes@.contains(node) <==> composite(node) by {
            assert(nodes@.contains(node) <==> graph_nodes(*graph).contains(node));
        }
    }
    // Go through all odd and composite numbers
    let mut i: usize = 0;
    while i < nodes.len()
        invariant
            i <= nodes.len(),
            forall|node: usize| #[trigger] nodes@.contains(node) <==> composite(node),
            forall|trio: (usize, usize, usize)| #[trigger]
                trio_items(possible_trios).contains(trio) <==> valid_trio(trio) && nodes@.subrange(
                    0,
                    i as int,
                ).contains(trio.0),
        decreases nodes.len() - i,
    {
        let side_a = nodes[i];
        let ghost done = nodes@.subrange(0, i as int);
        let ghost done_after = nodes@.subrange(0, i + 1);
        proof {
            assert(nodes@.contains(side_a));
            assert(composite(side_a));
            assert(done_after =~= done.push(side_a));
            assert forall|x: usize| done_after.contains(x) <==> done.contains(x) || x == side_a by {
                if done.contains(x) {
                    let n = choose|n: int| 0 <= n < done.len() && done[n] == x;
                    assert(done_after[n] == x);
                }
                if x == side_a {
                    assert(done_after[i as int] == x);
                }
            }
        }
        if is_odd(side_a) {
            // Get the coprimes of current number and filter out the even ones (primes are
            // already filtered)
            if let Some(partners) = tables.coprimes.composite_coprimes_of(side_a) {
                let coprimes = odd_numbers(&partners);
                proof {
                    assert forall|number: usize| #[trigger]
                        coprimes@.contains(number) <==> composite_coprime_pair(side_a, number)
                            && number % 2 == 1 by {
                        assert(partners@.contains(number) <==> composite_coprime_pair(
                            side_a,
                            number,
                        ));
                    }
                }
                // Create a set of trios and add them to the set
                let pairs = permutations(coprimes.as_slice(), 2);
                let ghost listed = arrangements(coprimes@, 2);
                let mut k: usize = 0;
                while k < pairs.len()
                    invariant
                        k <= pairs.len(),
                        side_a % 2 == 1,
                        composite(side_a),
                        listed == arrangements(coprimes@, 2),
                        listed == pairs@.map_values(|order: Vec<usize>| order@),
                        forall|number: usize| #[trigger]
                            coprimes@.contains(number) <==> composite_coprime_pair(side_a, number)
                                && number % 2 == 1,
                        forall|trio: (usize, usize, usize)| #[trigger]
                            trio_items(possible_trios).contains(trio) <==> valid_trio(trio) && (
                            done.contains(trio.0) || (trio.0 == side_a && listed.subrange(
                                0,
                                k as int,
                            ).contains(seq![trio.1, trio.2]))),
                    decreases pairs.len() - k,
                {
                    let other_sides = &pairs[k];
                    let ghost tried = listed.subrange(0, k as int);
                    let ghost tried_after = listed.subrange(0, k + 1);
                    let ghost before = possible_trios;
                    proof {
                        assert(listed[k as int] == other_sides@);
                        assert(listed == arrangements_from(coprimes@, 2, 0));
                        lemma_listed_pair_arranged(coprimes@, 0, k as int);
                        assert(tried_after =~= tried.push(other_sides@));
                        assert forall|pair: Seq<usize>|
                            tried_after.contains(pair) <==> tried.contains(pair) || pair
                                == other_sides@ by {
                            if tried.contains(pair) {
                                let n = choose|n: int| 0 <= n < tried.len() && tried[n] == pair;
                                assert(tried_after[n] == pair);
                            }
                            if pair == other_sides@ {
                                assert(tried_after[k as int] == pair);
                            }
                        }
                    }
                    let (side_b, side_c) = (other_sides[0], other_sides[1]);
                    proof {
                        assert(coprimes@.contains(side_b) && coprimes@.contains(side_c));
                        assert(other_sides@ =~= seq![side_b, side_c]);
                    }
                    let mut added = false;
                    // Make sure each side actually forms a valid triangle
                    if !(side_a + side_b <= side_c || side_b + side_c <= side_a || side_c + side_a
                        <= side_b) {
                        // Check if the perimeter formed is triangular
                        let perimeter = side_a + side_b + side_c;
                        if TriangularTable::is_triangular(perimeter) {
                            // Make sure all sides are coprime partners
                            let sides = [side_a, side_b, side_c];
                            if tables.coprimes.are_composite_coprimes(sides.as_slice()) {
                                proof {
                                    assert(sides@[0] == side_a && sides@[1] == side_b && sides@[2]
                                        == side_c);
                                    assert(composite_coprime_pair(sides@[0], sides@[1]));
                                    assert(composite_coprime_pair(sides@[0], sides@[2]));
                                    assert(composite_coprime_pair(sides@[1], sides@[2]));
                                    assert(valid_trio((side_a, side_b, side_c)));
                                }
                                // This is a valid trio
                                trios_insert(&mut possible_trios, (side_a, side_b, side_c));
                                added = true;
                            } else {
                                proof {
                                    assert(sides@[0] == side_a && sides@[1] == side_b && sides@[2]
                                        == side_c);
                                    if valid_trio((side_a, side_b, side_c)) {
                                        assert forall|x: int, y: int|
                                            0 <= x < y < sides@.len() implies composite_coprime_pair(
                                            sides@[x],
                                            sides@[y],
                                        ) by {}
                                    }
                                }
                            }
                        }
                    }
                    proof {
                        assert(added <==> valid_trio((side_a, side_b, side_c)));
                        assert forall|trio: (usize, usize, usize)| #[trigger]
                            trio_items(possible_trios).contains(trio) <==> valid_trio(trio) && (
                            done.contains(trio.0) || (trio.0 == side_a && tried_after.contains(
                                seq![trio.1, trio.2],
                            ))) by {
                            if trio.0 == side_a && seq![trio.1, trio.2] == other_sides@ {
                                assert(seq![trio.1, trio.2][0] == side_b);
                                assert(seq![trio.1, trio.2][1] == side_c);
                                assert(trio == (side_a, side_b, side_c));
                            }
                            assert(trio_items(before).contains(trio) <==> valid_trio(trio) && (
                            done.contains(trio.0) || (trio.0 == side_a && tried.contains(
                                seq![trio.1, trio.2],
                            ))));
                        }
                    }
                    k += 1;
                }
                proof {
                    assert(listed.subrange(0, k as int) =~= listed);
                    assert forall|trio: (usize, usize, usize)| #[trigger]
                        trio_items(possible_trios).contains(trio) <==> valid_trio(trio)
                            && done_after.contains(trio.0) by {
                        if valid_trio(trio) && trio.0 == side_a {
                            assert(coprimes@.contains(trio.1));
                            assert(coprimes@.contains(trio.2));
                            let x = choose|x: int| 0 <= x < coprimes@.len() && coprimes@[x] == trio.1;
                            let y = choose|y: int| 0 <= y < coprimes@.len() && coprimes@[y] == trio.2;
                            // two sides of a trio differ: no composite is coprime to itself
                            if trio.1 == trio.2 {
                                lemma_not_coprime_to_itself(trio.1 as nat);
                            }
                            lemma_arranged_pair_listed(coprimes@, 0, x, y);
                            assert(listed == arrangements_from(coprimes@, 2, 0));
                            assert(listed.contains(seq![trio.1, trio.2]));
                        }
                    }
                }
            } else {
                proof {
                    // a composite number is neither 1 nor a prime
                    assert(false);
                }
            }
        } else {
            proof {
                assert forall|trio: (usize, usize, usize)| #[trigger]
                    trio_items(possible_trios).contains(trio) <==> valid_trio(trio)
                        && done_after.contains(trio.0) by {}
            }
        }
        i += 1;
    }
    proof {
        assert(nodes@.subrange(0, i as int) =~= nodes@);
    }
    // Put the trios in order, so that they are tried in the same order every time
    let mut trios = trios_into_vec(possible_trios);
    let ghost unsorted = trios@;
    trios_sort(&mut trios);
    proof {
        unsorted.to_multiset_ensures();
        trios@.to_multiset_ensures();
        unsorted.lemma_multiset_has_no_duplicates();
        trios@.lemma_multiset_has_no_duplicates_conv();
        lemma_ascending_without_duplicates(trios@);
        assert forall|trio: (usize, usize, usize)| trios@.contains(trio) <==> valid_trio(trio) by {
            assert(trios@.to_multiset().count(trio) == unsorted.to_multiset().count(trio));
            assert(unsorted.contains(trio) <==> trio_items(possible_trios).contains(trio));
        }
        lemma_valid_trios_are(trios@);
    }
    trios
}

impl PuzzleRule for OddCompositeCoprimeRule {
    open spec fn vectors(&self) -> Seq<IdentifierVector> {
        self.0@
    }

    open spec fn needs(&self, layout: LayoutView) -> bool {
        true
    }

    /// The three numbers are odd and not prime, and each two of them are
    /// joined in the table of coprime composites.
    open spec fn accepts(&self, numbers: Seq<nat>) -> bool {
        &&& forall|i: int|
            0 <= i < 3 ==> (#[trigger] numbers[i]) % 2 == 1 && !is_table_prime(numbers[i])
        &&& all_composite_coprime(
            seq![numbers[0] as usize, numbers[1] as usize, numbers[2] as usize],
        )
    }

    /// For each valid trio in ascending order, the puzzle with the trio in
    /// the three fields, number by number, where it fits.
    open spec fn candidates(&self, before: PuzzleView) -> Seq<PuzzleView> {
        fitted(before, self.assignments(valid_trios()))
    }

    fn generate(&self, tables: &LookupTables, puzzle: &Puzzle, new_puzzles: &mut Vec<Puzzle>) {
        let ghost start = new_puzzles@;
        proof {
            self.lemma_applies(puzzle@.layout);
        }
        let trios = possible_trios(tables);
        let ghost list = self.assignments(valid_trios());
        assert(list.subrange(0, 0) =~= Seq::empty());
        assert(views(new_puzzles@) =~= views(start) + fitted(puzzle@, list.subrange(0, 0)));
        assert(new_puzzles@.subrange(0, start.len() as int) =~= start);
        // Go through all possible trios and create potential puzzles
        let mut i: usize = 0;
        while i < trios.len()
            invariant
                i <= trios.len(),
                list == self.assignments(valid_trios()),
                trios@ == valid_trios(),
                self.applies(puzzle@.layout),
                start.len() <= new_puzzles@.len(),
                new_puzzles@.subrange(0, start.len() as int) == start,
                views(new_puzzles@) == views(start) + fitted(puzzle@, list.subrange(0, i as int)),
            decreases trios.len() - i,
        {
            let trio = trios[i];
            // Wrap the numbers with their positions
            let mut wrapped: Vec<(IdentifierVector, usize)> = Vec::new();
            wrapped.push((self.0[0], trio.0));
            wrapped.push((self.0[1], trio.1));
            wrapped.push((self.0[2], trio.2));
            let ghost before = new_puzzles@;
            proof {
                assert(wrapped@ =~= assign_three(self.0, seq![trio.0, trio.1, trio.2]));
                assert(list[i as int] == wrapped@);
                assert(list.subrange(0, i + 1).drop_last() =~= list.subrange(0, i as int));
                assert(list.subrange(0, i + 1).last() == list[i as int]);
            }
            push_fit(puzzle, wrapped.as_slice(), new_puzzles);
            proof {
                assert(views(new_puzzles@) =~= views(start) + fitted(
                    puzzle@,
                    list.subrange(0, i + 1),
                ));
                assert(before.subrange(0, before.len() as int) =~= before);
                assert(new_puzzles@.subrange(0, start.len() as int) =~= before.subrange(
                    0,
                    start.len() as int,
                ));
            }
            i += 1;
        }
        proof {
            assert(list.subrange(0, i as int) =~= list);
            use_type_invariant(puzzle);
            assert forall|k: int| 0 <= k < list.len() implies puzzle@.has_fields(
                #[trigger] list[k],
            ) by {

            }
            lemma_added_extend(puzzle@, list, start, new_puzzles@);
            assert forall|i: int| start.len() <= i < new_puzzles@.len() implies {
                &&& puzzle@.extended_by((#[trigger] new_puzzles@[i])@)
                &&& new_puzzles@[i]@.are_filled(self.vectors())
                &&& self.accepts(new_puzzles@[i]@.numbers_at(self.vectors()))
            } by {
                self.lemma_candidates_hold(puzzle@, trios@, i - start.len());
                self.lemma_holds(new_puzzles@[i]@);
            }
        }
    }

    fn is_valid(&self, tables: &LookupTables, puzzle: &Puzzle) -> (valid: bool) {
        proof {
            self.lemma_applies(puzzle@.layout);
            self.lemma_holds(puzzle@);
        }
        // Get all the numbers from the puzzle
        let first = match puzzle.number_at(self.0[0]) {
            Some(number) => number,
            // This cannot be valid as not all the fields are filled
            None => {
                return false;
            },
        };
        let second = match puzzle.number_at(self.0[1]) {
            Some(number) => number,
            None => {
                return false;
            },
        };
        let third = match puzzle.number_at(self.0[2]) {
            Some(number) => number,
            None => {
                return false;
            },
        };
        let numbers = [first, second, third];
        // Check that all numbers are odd and composite
        let mut i: usize = 0;
        while i < 3
            invariant
                i <= 3,
                numbers@ == seq![first, second, third],
                puzzle@.number_at(self.0[0]) == Some(first as nat),
                puzzle@.number_at(self.0[1]) == Some(second as nat),
                puzzle@.number_at(self.0[2]) == Some(third as nat),
                forall|j: int|
                    0 <= j < i ==> (#[trigger] puzzle@.number_at(self.0[j])->0) % 2 == 1
                        && !is_table_prime(puzzle@.number_at(self.0[j])->0),
            decreases 3 - i,
        {
            let number = numbers[i];
            proof {
                assert(number == puzzle@.number_at(self.0[i as int])->0);
            }
            // Check if number is even
            if is_even(number) {
                return false;
            }
            // Check if number is a prime
            if PrimeTable::is_prime(number) {
                return false;
            }
            i += 1;
        }
        // Check that all numbers are coprime with each other
        tables.coprimes.are_composite_coprimes(numbers.as_slice())
    }
}

} // verus!
