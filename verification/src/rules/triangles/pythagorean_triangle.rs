//! Three fields whose numbers are the sides of a Pythagorean triple.

use vstd::prelude::*;

use crate::combinations::{lemma_arrangements_of_three, orders_of_three, permutations};
use crate::lookup_tables::pythagorean_triples::{
    in_triple_table, is_triple_in_some_order, is_triple_table, lemma_table_triple,
    lemma_triple_table_is, sides, triple_table, PythagoreanTriple,
};
use crate::puzzle::layout::LayoutView;
use crate::puzzle::position::IdentifierVector;
use crate::puzzle::{FitError, Puzzle, PuzzleView};
use crate::rules::{
    fitted, lemma_added_extend, lemma_fitted_contains, push_fit, rule_applies, views,
    LookupTables, PuzzleRule,
};

verus! {

/// Three fields whose numbers are, in some order, the sides of a Pythagorean
/// triple of the table.
pub struct PythagoreanTriangleRule(pub [IdentifierVector; 3]);

/// The assignment of three numbers to three fields, each to the field at
/// its place.
pub open spec fn assign_three(vectors: [IdentifierVector; 3], numbers: Seq<usize>) -> Seq<
    (IdentifierVector, usize),
> {
    seq![(vectors[0], numbers[0]), (vectors[1], numbers[1]), (vectors[2], numbers[2])]
}

impl PythagoreanTriangleRule {
    /// The three vectors name fields on the grid.
    pub open spec fn applies(&self, layout: LayoutView) -> bool {
        layout.has_field(self.0[0]) && layout.has_field(self.0[1]) && layout.has_field(self.0[2])
    }

    /// The three fields are filled, and their numbers are the sides of a
    /// triple of the table in some order.
    pub open spec fn holds(&self, puzzle: PuzzleView) -> bool {
        &&& puzzle.number_at(self.0[0]) is Some
        &&& puzzle.number_at(self.0[1]) is Some
        &&& puzzle.number_at(self.0[2]) is Some
        &&& is_triple_in_some_order(
            puzzle.number_at(self.0[0])->0 as usize,
            puzzle.number_at(self.0[1])->0 as usize,
            puzzle.number_at(self.0[2])->0 as usize,
        )
    }

    /// The rule can work on a layout exactly when the layout has fields for
    /// its vectors and what else the rule needs.
    pub proof fn lemma_applies(&self, layout: LayoutView)
        ensures
            self.applies(layout) <==> layout.has_fields(self.vectors()) && self.needs(layout),
    {
        let vectors = self.vectors();
        if layout.has_fields(vectors) {
            assert(layout.has_field(vectors[0]));
            assert(layout.has_field(vectors[1]));
            assert(layout.has_field(vectors[2]));
        }
    }

    /// A puzzle meets the rule exactly when the fields of the rule hold
    /// numbers that the rule accepts.
    pub proof fn lemma_holds(&self, puzzle: PuzzleView)
        ensures
            self.holds(puzzle) <==> puzzle.are_filled(self.vectors()) && self.accepts(
                puzzle.numbers_at(self.vectors()),
            ),
    {
        let vectors = self.vectors();
        if puzzle.are_filled(vectors) {
            assert(puzzle.number_at(vectors[0]) is Some);
            assert(puzzle.number_at(vectors[1]) is Some);
            assert(puzzle.number_at(vectors[2]) is Some);
        }
    }

    /// The assignments that the rule tries, in its order: for each triple
    /// of the table in turn, the six orders of its sides.
    pub open spec fn assignments(self, table: Seq<PythagoreanTriple>) -> Seq<
        Seq<(IdentifierVector, usize)>,
    > {
        Seq::new(
            6 * table.len(),
            |i: int|
                assign_three(
                    self.0,
                    orders_of_three(table[i / 6].0, table[i / 6].1, table[i / 6].2)[i % 6],
                ),
        )
    }

    /// Whether the rule tries the assignment: the sides of a triple of the
    /// table in one of their six orders, for the three fields.
    pub open spec fn proposes(self, assignment: Seq<(IdentifierVector, usize)>) -> bool {
        exists|triple: PythagoreanTriple, order: int|
            in_triple_table(sides(triple)) && 0 <= order < 6 && assignment == assign_three(
                self.0,
                #[trigger] orders_of_three(triple.0, triple.1, triple.2)[order],
            )
    }

    /// The rule proposes exactly the assignments of its list.
    pub proof fn lemma_assignments(self, table: Seq<PythagoreanTriple>)
        requires
            is_triple_table(table),
        ensures
            forall|assignment: Seq<(IdentifierVector, usize)>| #[trigger]
                self.proposes(assignment) <==> self.assignments(table).contains(assignment),
    {
        let list = self.assignments(table);
        assert forall|assignment: Seq<(IdentifierVector, usize)>| #[trigger]
            self.proposes(assignment) <==> list.contains(assignment) by {
            if self.proposes(assignment) {
                let (triple, order) = choose|triple: PythagoreanTriple, order: int|
                    in_triple_table(sides(triple)) && 0 <= order < 6 && assignment == assign_three(
                        self.0,
                        #[trigger] orders_of_three(triple.0, triple.1, triple.2)[order],
                    );
                assert(table.contains(triple));
                let j = choose|j: int| 0 <= j < table.len() && table[j] == triple;
                let i = 6 * j + order;
                assert(i / 6 == j && i % 6 == order);
                assert(list[i] == assignment);
            }
            if list.contains(assignment) {
                let i = choose|i: int| 0 <= i < list.len() && list[i] == assignment;
                let triple = table[i / 6];
                assert(table.contains(triple));
                assert(in_triple_table(sides(triple)) && 0 <= i % 6 < 6 && assignment
                    == assign_three(self.0, orders_of_three(triple.0, triple.1, triple.2)[i % 6]));
            }
        }
    }

    /// Whether the rule can work on the puzzle: its three vectors name
    /// fields on the grid.
    pub fn applies_to(&self, puzzle: &Puzzle) -> (applies: bool)
        ensures
            applies == self.applies(puzzle@.layout),
            applies == rule_applies(self, puzzle@.layout),
    {
        proof {
            self.lemma_applies(puzzle@.layout);
        }
        puzzle.has_field(self.0[0]) && puzzle.has_field(self.0[1]) && puzzle.has_field(self.0[2])
    }

    /// The rule yields a puzzle exactly when the sides of a triple of the
    /// table, in one of their six orders, fit the three fields and give it.
    pub proof fn lemma_candidates(self, before: PuzzleView, table: Seq<PythagoreanTriple>)
        requires
            is_triple_table(table),
        ensures
            forall|after: PuzzleView|
                self.candidates(before).contains(after) <==> exists|
                    assignment: Seq<(IdentifierVector, usize)>,
                |
                    #[trigger] self.proposes(assignment) && before.fit_all(assignment) == Ok::<
                        PuzzleView,
                        FitError,
                    >(after),
    {
        lemma_triple_table_is(table);
        let list = self.assignments(table);
        self.lemma_assignments(table);
        lemma_fitted_contains(before, list);
        assert forall|after: PuzzleView|
            self.candidates(before).contains(after) <==> exists|
                assignment: Seq<(IdentifierVector, usize)>,
            |
                #[trigger] self.proposes(assignment) && before.fit_all(assignment) == Ok::<
                    PuzzleView,
                    FitError,
                >(after) by {
            if self.candidates(before).contains(after) {
                let k = choose|k: int|
                    0 <= k < list.len() && before.fit_all(#[trigger] list[k]) == Ok::<
                        PuzzleView,
                        FitError,
                    >(after);
                assert(list.contains(list[k]));
                assert(self.proposes(list[k]));
            }
            if exists|assignment: Seq<(IdentifierVector, usize)>|
                #[trigger] self.proposes(assignment) && before.fit_all(assignment) == Ok::<
                    PuzzleView,
                    FitError,
                >(after) {
                let assignment = choose|assignment: Seq<(IdentifierVector, usize)>|
                    #[trigger] self.proposes(assignment) && before.fit_all(assignment) == Ok::<
                        PuzzleView,
                        FitError,
                    >(after);
                assert(list.contains(assignment));
                let k = choose|k: int| 0 <= k < list.len() && list[k] == assignment;
                assert(before.fit_all(list[k]) == Ok::<PuzzleView, FitError>(after));
            }
        }
    }

    /// Every puzzle that the rule yields meets the rule.
    pub proof fn lemma_candidates_hold(
        self,
        before: PuzzleView,
        table: Seq<PythagoreanTriple>,
        place: int,
    )
        requires
            before.wf(),
            self.applies(before.layout),
            is_triple_table(table),
            0 <= place < self.candidates(before).len(),
        ensures
            self.holds(self.candidates(before)[place]),
    {
        lemma_triple_table_is(table);
        let list = self.assignments(table);
        let after = self.candidates(before)[place];
        lemma_fitted_contains(before, list);
        assert(self.candidates(before).contains(after));
        let k = choose|k: int|
            0 <= k < list.len() && before.fit_all(#[trigger] list[k]) == Ok::<PuzzleView, FitError>(
                after,
            );
        let triple = table[k / 6];
        let order = k % 6;
        assert(table.contains(triple));
        lemma_table_triple(triple.0, triple.1, triple.2);
        let sides = orders_of_three(triple.0, triple.1, triple.2)[order];
        assert(order == 0 || order == 1 || order == 2 || order == 3 || order == 4 || order == 5);
        assert(list[k] == assign_three(self.0, sides));
        assert(before.has_fields(list[k]));
        before.lemma_fit_all_places_numbers(list[k], 0);
        before.lemma_fit_all_places_numbers(list[k], 1);
        before.lemma_fit_all_places_numbers(list[k], 2);
    }
}

impl PuzzleRule for PythagoreanTriangleRule {
    open spec fn vectors(&self) -> Seq<IdentifierVector> {
        self.0@
    }

    open spec fn needs(&self, layout: LayoutView) -> bool {
        true
    }

    /// The three numbers are the sides of a triple of the table in some
    /// order.
    open spec fn accepts(&self, numbers: Seq<nat>) -> bool {
        is_triple_in_some_order(numbers[0] as usize, numbers[1] as usize, numbers[2] as usize)
    }

    /// For each triple of the table in turn, and for each of the six orders
    /// of its sides in turn, the puzzle with the sides in the three fields,
    /// where they fit.
    open spec fn candidates(&self, before: PuzzleView) -> Seq<PuzzleView> {
        fitted(before, self.assignments(triple_table()))
    }

    fn generate(&self, tables: &LookupTables, puzzle: &Puzzle, new_puzzles: &mut Vec<Puzzle>) {
        let ghost start = new_puzzles@;
        proof {
            self.lemma_applies(puzzle@.layout);
        }
        // Go though every pythagorean triple
        let triples = tables.triples.triples();
        let ghost list = self.assignments(triple_table());
        assert(list.subrange(0, 0) =~= Seq::empty());
        assert(views(new_puzzles@) =~= views(start) + fitted(puzzle@, list.subrange(0, 0)));
        assert(new_puzzles@.subrange(0, start.len() as int) =~= start);
        let mut t: usize = 0;
        while t < triples.len()
            invariant
                t <= triples.len(),
                triples@ == triple_table(),
                list == self.assignments(triple_table()),
                self.applies(puzzle@.layout),
                start.len() <= new_puzzles@.len(),
                new_puzzles@.subrange(0, start.len() as int) == start,
                views(new_puzzles@) == views(start) + fitted(puzzle@, list.subrange(0, 6 * t)),
            decreases triples.len() - t,
        {
            let triple = triples[t];
            // Go through every combination of the sides
            let sides = [triple.0, triple.1, triple.2];
            proof {
                lemma_arrangements_of_three(triple.0, triple.1, triple.2);
                assert(sides@ =~= seq![triple.0, triple.1, triple.2]);
            }
            let orders = permutations(sides.as_slice(), 3);
            let ghost listed = orders@.map_values(|order: Vec<usize>| order@);
            assert(listed.len() == 6 && orders@.len() == listed.len());
            let mut k: usize = 0;
            while k < orders.len()
                invariant
                    k <= orders.len(),
                    t < triples.len(),
                    triples@ == triple_table(),
                    triple == triples@[t as int],
                    list == self.assignments(triple_table()),
                    self.applies(puzzle@.layout),
                    listed == orders@.map_values(|order: Vec<usize>| order@),
                    listed == orders_of_three(triple.0, triple.1, triple.2),
                    orders@.len() == 6,
                    start.len() <= new_puzzles@.len(),
                    new_puzzles@.subrange(0, start.len() as int) == start,
                    views(new_puzzles@) == views(start) + fitted(
                        puzzle@,
                        list.subrange(0, 6 * t + k),
                    ),
                decreases orders.len() - k,
            {
                let order = &orders[k];
                proof {
                    assert(listed.len() == 6);
                    assert(listed[k as int] == order@);
                    assert(k == 0 || k == 1 || k == 2 || k == 3 || k == 4 || k == 5);
                    assert(order@.len() == 3);
                }
                // Wrap each side with their position vector
                let mut wrapped: Vec<(IdentifierVector, usize)> = Vec::new();
                wrapped.push((self.0[0], order[0]));
                wrapped.push((self.0[1], order[1]));
                wrapped.push((self.0[2], order[2]));
                let ghost place = 6 * t + k;
                let ghost before = new_puzzles@;
                proof {
                    assert(place / 6 == t && place % 6 == k);
                    assert(wrapped@ =~= assign_three(self.0, order@));
                    assert(list[place] == wrapped@);
                    assert(list.subrange(0, place + 1).drop_last() =~= list.subrange(0, place));
                    assert(list.subrange(0, place + 1).last() == list[place]);
                }
                // Attempt to insert this permutation sides into the puzzle
                push_fit(puzzle, wrapped.as_slice(), new_puzzles);
                proof {
                    assert(views(new_puzzles@) =~= views(start) + fitted(
                        puzzle@,
                        list.subrange(0, place + 1),
                    ));
                    assert(new_puzzles@.subrange(0, start.len() as int) =~= before.subrange(
                        0,
                        before.len() as int,
                    ).subrange(0, start.len() as int));
                    assert(before.subrange(0, before.len() as int) =~= before);
                }
                k += 1;
            }
            t += 1;
        }
        proof {
            assert(list.subrange(0, 6 * t) =~= list);
            use_type_invariant(puzzle);
            assert forall|k: int| 0 <= k < list.len() implies puzzle@.has_fields(
                #[trigger] list[k],
            ) by {
                let order = k % 6;
                assert(order == 0 || order == 1 || order == 2 || order == 3 || order == 4 || order
                    == 5);
            }
            lemma_added_extend(puzzle@, list, start, new_puzzles@);
            assert forall|i: int| start.len() <= i < new_puzzles@.len() implies {
                &&& puzzle@.extended_by((#[trigger] new_puzzles@[i])@)
                &&& new_puzzles@[i]@.are_filled(self.vectors())
                &&& self.accepts(new_puzzles@[i]@.numbers_at(self.vectors()))
            } by {
                self.lemma_candidates_hold(puzzle@, triples@, i - start.len());
                self.lemma_holds(new_puzzles@[i]@);
            }
        }
    }

    fn is_valid(&self, tables: &LookupTables, puzzle: &Puzzle) -> (valid: bool) {
        proof {
            self.lemma_applies(puzzle@.layout);
            self.lemma_holds(puzzle@);
        }
        // Get all the numbers from the puzzle
        let first = match puzzle.number_at(self.0[0]) {
            Some(number) => number,
            // This cannot be valid as not all the fields are filled
            None => {
                return false;
            },
        };
        let second = match puzzle.number_at(self.0[1]) {
            Some(number) => number,
            None => {
                return false;
            },
        };
        let third = match puzzle.number_at(self.0[2]) {
            Some(number) => number,
            None => {
                return false;
            },
        };
        // Get through every permutation
        tables.triples.is_triple([first, second, third])
    }
}

} // verus!
