//! Two fields of the same length whose numbers sum to a square.

use vstd::prelude::*;

use crate::lookup_tables::square::{
    is_table_square, lemma_squares_ascending, squares_spec, SquareTable, ROOT_LIMIT,
};
use crate::puzzle::layout::LayoutView;
use crate::puzzle::position::IdentifierVector;
use crate::puzzle::{FitError, Puzzle, PuzzleView};
use crate::puzzle::runs::{digits_of, lemma_digit_count};
use crate::rules::{
    fitted, fitting_places, lemma_added_extend, lemma_fitted_contains, lemma_fitting_places,
    push_fit, rule_applies, views, LookupTables, PuzzleRule,
};

verus! {

/// Two fields of the same length whose numbers sum to a square of the table.
pub struct SumSquare(pub [IdentifierVector; 2]);

/// The assignment of two numbers to two fields, the first number to the
/// first field.
pub open spec fn assign_two(vectors: [IdentifierVector; 2], first: usize, second: usize) -> Seq<
    (IdentifierVector, usize),
> {
    seq![(vectors[0], first), (vectors[1], second)]
}

/// Ten to the power of the exponent.
pub open spec fn power_of_ten(exponent: nat) -> nat
    decreases exponent,
{
    if exponent == 0 {
        1
    } else {
        10 * power_of_ten((exponent - 1) as nat)
    }
}

/// The assignments that one square gives: every way to part it in two
/// numbers that are both at least `minimum`, the first number rising.
pub open spec fn parts_of_square(vectors: [IdentifierVector; 2], square: usize, minimum: usize) -> Seq<
    Seq<(IdentifierVector, usize)>,
> {
    if square >= 2 * minimum {
        Seq::new(
            (square - 2 * minimum + 1) as nat,
            |i: int| assign_two(vectors, (minimum + i) as usize, (square - minimum - i) as usize),
        )
    } else {
        Seq::empty()
    }
}

/// The assignments that the first `count` squares of the table give, square
/// after square.
pub open spec fn parts_of_squares(vectors: [IdentifierVector; 2], minimum: usize, count: nat) -> Seq<
    Seq<(IdentifierVector, usize)>,
>
    decreases count,
{
    if count == 0 {
        Seq::empty()
    } else {
        parts_of_squares(vectors, minimum, (count - 1) as nat) + parts_of_square(
            vectors,
            squares_spec()[count - 1],
            minimum,
        )
    }
}

/// Every square of the table is at most the square of 44.
pub proof fn lemma_square_bound(index: int)
    requires
        0 <= index < ROOT_LIMIT - 1,
    ensures
        squares_spec()[index] == (index + 1) * (index + 1),
        1 <= squares_spec()[index] <= 1936,
        is_table_square(squares_spec()[index] as nat),
{
    assert(1 <= (index + 1) * (index + 1) <= 1936) by (nonlinear_arith)
        requires
            0 <= index < 44,
    ;
    let root = (index + 1) as nat;
    assert(root * root == squares_spec()[index]);
}

/// Whether the assignment parts the square at `index` in `first` and the
/// rest, both at least `minimum`.
pub open spec fn is_part(
    vectors: [IdentifierVector; 2],
    minimum: usize,
    index: int,
    first: usize,
    assignment: Seq<(IdentifierVector, usize)>,
) -> bool {
    &&& 0 <= index < ROOT_LIMIT - 1
    &&& minimum <= first
    &&& first + minimum <= squares_spec()[index]
    &&& assignment == assign_two(vectors, first, (squares_spec()[index] - first) as usize)
}

/// Every part of one of the first `count` squares is among their assignments.
pub proof fn lemma_part_is_listed(
    vectors: [IdentifierVector; 2],
    minimum: usize,
    count: nat,
    index: int,
    first: usize,
    assignment: Seq<(IdentifierVector, usize)>,
)
    requires
        count <= ROOT_LIMIT - 1,
        index < count,
        is_part(vectors, minimum, index, first, assignment),
    ensures
        parts_of_squares(vectors, minimum, count).contains(assignment),
    decreases count,
{
    let whole = parts_of_squares(vectors, minimum, count);
    let front = parts_of_squares(vectors, minimum, (count - 1) as nat);
    let block = parts_of_square(vectors, squares_spec()[count - 1], minimum);
    if index < count - 1 {
        lemma_part_is_listed(vectors, minimum, (count - 1) as nat, index, first, assignment);
        let k = choose|k: int| 0 <= k < front.len() && front[k] == assignment;
        assert(whole[k] == assignment);
    } else {
        let i = first - minimum;
        assert(block[i] == assignment);
        assert(whole[front.len() + i] == assignment);
    }
}

/// Every assignment of the first `count` squares is a part of one of them.
pub proof fn lemma_listed_is_part(
    vectors: [IdentifierVector; 2],
    minimum: usize,
    count: nat,
    place: int,
) -> (found: (int, usize))
    requires
        count <= ROOT_LIMIT - 1,
        0 <= place < parts_of_squares(vectors, minimum, count).len(),
    ensures
        found.0 < count,
        is_part(
            vectors,
            minimum,
            found.0,
            found.1,
            parts_of_squares(vectors, minimum, count)[place],
        ),
    decreases count,
{
    let front = parts_of_squares(vectors, minimum, (count - 1) as nat);
    if place < front.len() {
        lemma_listed_is_part(vectors, minimum, (count - 1) as nat, place)
    } else {
        lemma_square_bound(count - 1);
        let i = place - front.len();
        (count - 1, (minimum + i) as usize)
    }
}

/// No assignment occurs twice among those of the first `count` squares.
pub proof fn lemma_parts_differ(vectors: [IdentifierVector; 2], minimum: usize, count: nat)
    requires
        count <= ROOT_LIMIT - 1,
    ensures
        parts_of_squares(vectors, minimum, count).no_duplicates(),
    decreases count,
{
    let whole = parts_of_squares(vectors, minimum, count);
    if count > 0 {
        let front = parts_of_squares(vectors, minimum, (count - 1) as nat);
        let square = squares_spec()[count - 1];
        let block = parts_of_square(vectors, square, minimum);
        lemma_parts_differ(vectors, minimum, (count - 1) as nat);
        lemma_square_bound(count - 1);
        lemma_squares_ascending();
        assert forall|i: int, j: int| 0 <= i < j < whole.len() implies whole[i] != whole[j] by {
            if j < front.len() {
                assert(whole[i] == front[i] && whole[j] == front[j]);
            } else if i >= front.len() {
                let a = i - front.len();
                let b = j - front.len();
                assert(whole[i] == block[a] && whole[j] == block[b]);
                assert(block[a][0].1 == minimum + a);
                assert(block[b][0].1 == minimum + b);
            } else {
                let b = j - front.len();
                let (index, first) = lemma_listed_is_part(
                    vectors,
                    minimum,
                    (count - 1) as nat,
                    i,
                );
                lemma_square_bound(index);
                assert(squares_spec()[index] < square);
                assert(whole[i] == front[i] && whole[j] == block[b]);
                // the two numbers of the earlier assignment sum to an earlier square
                assert(front[i][0].1 + front[i][1].1 == squares_spec()[index]);
                assert(block[b][0].1 + block[b][1].1 == square);
            }
        }
    }
}

impl SumSquare {
    /// The two vectors name fields on the grid that are equally long.
    pub open spec fn applies(&self, layout: LayoutView) -> bool {
        &&& layout.has_field(self.0[0])
        &&& layout.has_field(self.0[1])
        &&& layout.field_length(self.0[0]) == layout.field_length(self.0[1])
    }

    /// The two fields are filled, and their numbers sum to a square of the
    /// table.
    pub open spec fn holds(&self, puzzle: PuzzleView) -> bool {
        &&& puzzle.number_at(self.0[0]) is Some
        &&& puzzle.number_at(self.0[1]) is Some
        &&& is_table_square(puzzle.number_at(self.0[0])->0 + puzzle.number_at(self.0[1])->0)
    }

    /// The rule can work on a layout exactly when the layout has fields for
    /// its vectors and what else the rule needs.
    pub proof fn lemma_applies(&self, layout: LayoutView)
        ensures
            self.applies(layout) <==> layout.has_fields(self.vectors()) && self.needs(layout),
    {
        let vectors = self.vectors();
        if layout.has_fields(vectors) {
            assert(layout.has_field(vectors[0]));
            assert(layout.has_field(vectors[1]));
        }
    }

    /// A puzzle meets the rule exactly when the fields of the rule hold
    /// numbers that the rule accepts.
    pub proof fn lemma_holds(&self, puzzle: PuzzleView)
        ensures
            self.holds(puzzle) <==> puzzle.are_filled(self.vectors()) && self.accepts(
                puzzle.numbers_at(self.vectors()),
            ),
    {
        let vectors = self.vectors();
        if puzzle.are_filled(vectors) {
            assert(puzzle.number_at(vectors[0]) is Some);
            assert(puzzle.number_at(vectors[1]) is Some);
        }
    }

    /// The smallest number that fills the fields of the rule.
    pub open spec fn minimum(self, layout: LayoutView) -> nat {
        power_of_ten((layout.field_length(self.0[0]) - 1) as nat)
    }

    /// The assignments that the rule tries, in its order: for each square
    /// of the table in turn, its parts.
    pub open spec fn assignments(self, layout: LayoutView) -> Seq<Seq<(IdentifierVector, usize)>> {
        parts_of_squares(self.0, self.minimum(layout) as usize, (ROOT_LIMIT - 1) as nat)
    }

    /// Whether the rule tries the assignment: it gives the two fields two
    /// numbers that sum to a square of the table and are both at least the
    /// smallest number of the fields' length.
    pub open spec fn proposes(
        self,
        layout: LayoutView,
        assignment: Seq<(IdentifierVector, usize)>,
    ) -> bool {
        exists|first: usize, second: usize|
            self.minimum(layout) <= first && self.minimum(layout) <= second && is_table_square(
                (first + second) as nat,
            ) && assignment == #[trigger] assign_two(self.0, first, second)
    }

    /// The rule proposes exactly the assignments of its list.
    pub proof fn lemma_assignments(self, layout: LayoutView)
        requires
            1 <= layout.field_length(self.0[0]) <= 3,
        ensures
            forall|assignment: Seq<(IdentifierVector, usize)>| #[trigger]
                self.proposes(layout, assignment) <==> self.assignments(layout).contains(assignment),
    {
        reveal_with_fuel(power_of_ten, 4);
        let minimum = self.minimum(layout) as usize;
        let list = self.assignments(layout);
        assert forall|assignment: Seq<(IdentifierVector, usize)>| #[trigger]
            self.proposes(layout, assignment) <==> list.contains(assignment) by {
            if self.proposes(layout, assignment) {
                let (first, second) = choose|first: usize, second: usize|
                    self.minimum(layout) <= first && self.minimum(layout) <= second
                        && is_table_square((first + second) as nat) && assignment
                        == #[trigger] assign_two(self.0, first, second);
                let root = choose|root: nat|
                    1 <= root < ROOT_LIMIT && #[trigger] (root * root) == first + second;
                let index = root - 1;
                lemma_square_bound(index);
                assert(squares_spec()[index] == first + second);
                lemma_part_is_listed(
                    self.0,
                    minimum,
                    (ROOT_LIMIT - 1) as nat,
                    index,
                    first,
                    assignment,
                );
            }
            if list.contains(assignment) {
                let place = choose|place: int| 0 <= place < list.len() && list[place] == assignment;
                let (index, first) = lemma_listed_is_part(
                    self.0,
                    minimum,
                    (ROOT_LIMIT - 1) as nat,
                    place,
                );
                lemma_square_bound(index);
                let second = (squares_spec()[index] - first) as usize;
                assert(assignment == assign_two(self.0, first, second));
            }
        }
    }

    /// Whether the rule can work on the puzzle: its two vectors name
    /// fields on the grid that are equally long.
    pub fn applies_to(&self, puzzle: &Puzzle) -> (applies: bool)
        ensures
            applies == self.applies(puzzle@.layout),
            applies == rule_applies(self, puzzle@.layout),
    {
        proof {
            self.lemma_applies(puzzle@.layout);
        }
        puzzle.has_field(self.0[0]) && puzzle.has_field(self.0[1]) && puzzle.size_of_field(
            self.0[0],
        ) == puzzle.size_of_field(self.0[1])
    }

    /// The rule yields a puzzle exactly when two numbers that sum to a
    /// square of the table, both at least the smallest number of the
    /// fields' length, fit the two fields and give it.
    pub proof fn lemma_candidates(self, before: PuzzleView)
        requires
            1 <= before.layout.field_length(self.0[0]) <= 3,
        ensures
            forall|after: PuzzleView|
                self.candidates(before).contains(after) <==> exists|
                    assignment: Seq<(IdentifierVector, usize)>,
                |
                    #[trigger] self.proposes(before.layout, assignment) && before.fit_all(
                        assignment,
                    ) == Ok::<PuzzleView, FitError>(after),
    {
        let list = self.assignments(before.layout);
        self.lemma_assignments(before.layout);
        lemma_fitted_contains(before, list);
        assert forall|after: PuzzleView|
            self.candidates(before).contains(after) <==> exists|
                assignment: Seq<(IdentifierVector, usize)>,
            |
                #[trigger] self.proposes(before.layout, assignment) && before.fit_all(assignment)
                    == Ok::<PuzzleView, FitError>(after) by {
            if self.candidates(before).contains(after) {
                let k = choose|k: int|
                    0 <= k < list.len() && before.fit_all(#[trigger] list[k]) == Ok::<
                        PuzzleView,
                        FitError,
                    >(after);
                assert(list.contains(list[k]));
                assert(self.proposes(before.layout, list[k]));
            }
            if exists|assignment: Seq<(IdentifierVector, usize)>|
                #[trigger] self.proposes(before.layout, assignment) && before.fit_all(assignment)
                    == Ok::<PuzzleView, FitError>(after) {
                let assignment = choose|assignment: Seq<(IdentifierVector, usize)>|
                    #[trigger] self.proposes(before.layout, assignment) && before.fit_all(
                        assignment,
                    ) == Ok::<PuzzleView, FitError>(after);
                assert(list.contains(assignment));
                let k = choose|k: int| 0 <= k < list.len() && list[k] == assignment;
                assert(before.fit_all(list[k]) == Ok::<PuzzleView, FitError>(after));
            }
        }
    }

    /// Whether the two fields of the puzzle hold the two numbers.
    pub open spec fn holds_pair(self, puzzle: PuzzleView, first: usize, second: usize) -> bool {
        puzzle.number_at(self.0[0]) == Some(first as nat) && puzzle.number_at(self.0[1]) == Some(
            second as nat,
        )
    }

    /// Each pair of numbers that the rule tries and that fits the puzzle
    /// is in exactly one of the puzzles that the rule yields.
    pub proof fn lemma_pair_occurs_once(self, before: PuzzleView, first: usize, second: usize)
        requires
            before.wf(),
            self.applies(before.layout),
            self.proposes(before.layout, assign_two(self.0, first, second)),
            before.fit_all(assign_two(self.0, first, second)) is Ok,
        ensures
            exists|i: int|
                0 <= i < self.candidates(before).len() && self.holds_pair(
                    #[trigger] self.candidates(before)[i],
                    first,
                    second,
                ) && forall|j: int|
                    0 <= j < self.candidates(before).len() && self.holds_pair(
                        #[trigger] self.candidates(before)[j],
                        first,
                        second,
                    ) ==> j == i,
    {
        let list = self.assignments(before.layout);
        let found = self.candidates(before);
        let places = fitting_places(before, list);
        let pair = assign_two(self.0, first, second);
        let minimum = self.minimum(before.layout) as usize;
        before.lemma_field_on_grid(self.0[0]);
        reveal_with_fuel(power_of_ten, 4);
        self.lemma_assignments(before.layout);
        lemma_fitting_places(before, list);
        lemma_parts_differ(self.0, minimum, (ROOT_LIMIT - 1) as nat);
        assert(list.contains(pair));
        let k = choose|k: int| 0 <= k < list.len() && list[k] == pair;
        assert(before.fit_all(list[k]) is Ok);
        let i = choose|i: int| 0 <= i < found.len() && #[trigger] places[i] == k;
        assert(before.has_fields(pair));
        before.lemma_fit_all_places_numbers(pair, 0);
        before.lemma_fit_all_places_numbers(pair, 1);
        assert(self.holds_pair(found[i], first, second));
        assert forall|j: int|
            0 <= j < found.len() && self.holds_pair(#[trigger] found[j], first, second) implies j
            == i by {
            let from = places[j];
            let (index, other) = lemma_listed_is_part(
                self.0,
                minimum,
                (ROOT_LIMIT - 1) as nat,
                from,
            );
            lemma_square_bound(index);
            let rest = (squares_spec()[index] - other) as usize;
            assert(list[from] == assign_two(self.0, other, rest));
            assert(before.has_fields(list[from]));
            before.lemma_fit_all_places_numbers(list[from], 0);
            before.lemma_fit_all_places_numbers(list[from], 1);
            assert(other == first && rest == second);
            assert(list[from] == list[k]);
            if j < i {
                assert(places[j] < places[i]);
            } else if i < j {
                assert(places[i] < places[j]);
            }
        }
    }

    /// Two numbers of the right length, neither of them zero, that sum to a
    /// square of the table fit two fields that share no cell and are unset,
    /// and so they are in exactly one of the puzzles that the rule yields.
    pub proof fn lemma_free_fields_take_pair(self, before: PuzzleView, first: usize, second: usize)
        requires
            before.wf(),
            self.applies(before.layout),
            digits_of(first as nat).len() == before.field_length(self.0[0]),
            digits_of(second as nat).len() == before.field_length(self.0[1]),
            first >= 1,
            second >= 1,
            is_table_square((first + second) as nat),
            forall|i: nat, j: nat|
                i < before.field_length(self.0[0]) && j < before.field_length(self.0[1])
                    ==> before.cell(self.0[0], i) != before.cell(self.0[1], j),
            forall|offset: int|
                0 <= offset < before.field_length(self.0[0]) ==> (#[trigger] before.digits_at(
                    self.0[0],
                )[offset]) is None,
            forall|offset: int|
                0 <= offset < before.field_length(self.0[1]) ==> (#[trigger] before.digits_at(
                    self.0[1],
                )[offset]) is None,
        ensures
            exists|i: int|
                0 <= i < self.candidates(before).len() && self.holds_pair(
                    #[trigger] self.candidates(before)[i],
                    first,
                    second,
                ) && forall|j: int|
                    0 <= j < self.candidates(before).len() && self.holds_pair(
                        #[trigger] self.candidates(before)[j],
                        first,
                        second,
                    ) ==> j == i,
    {
        let pair = assign_two(self.0, first, second);
        before.lemma_field_on_grid(self.0[0]);
        reveal_with_fuel(power_of_ten, 4);
        lemma_digit_count(first as nat);
        lemma_digit_count(second as nat);
        // the first number fits, and leaves the second field unset
        before.lemma_fit_into_unset_field(self.0[0], first as nat);
        let next = before.fit(self.0[0], first as nat)->Ok_0;
        before.lemma_fit_keeps_form(self.0[0], first as nat);
        before.lemma_fit_leaves_other_field(self.0[0], first as nat, self.0[1]);
        next.lemma_fit_into_unset_field(self.0[1], second as nat);
        assert(pair.skip(1) =~= seq![(self.0[1], second)]);
        assert(pair.skip(1).skip(1) =~= Seq::<(IdentifierVector, usize)>::empty());
        assert(next.fit_all(pair.skip(1)) is Ok) by {
            reveal_with_fuel(PuzzleView::fit_all, 3);
        }
        assert(before.fit_all(pair) is Ok);
        assert(self.minimum(before.layout) <= first && self.minimum(before.layout) <= second);
        assert(self.proposes(before.layout, pair));
        self.lemma_pair_occurs_once(before, first, second);
    }

    /// In two unset fields of two cells each that share no cell, each way
    /// to part a hundred in two numbers of two digits is in exactly one of
    /// the puzzles that the rule yields.
    pub proof fn lemma_parts_of_hundred(self, before: PuzzleView, first: usize)
        requires
            before.wf(),
            self.applies(before.layout),
            before.field_length(self.0[0]) == 2,
            10 <= first <= 90,
            forall|i: nat, j: nat|
                i < before.field_length(self.0[0]) && j < before.field_length(self.0[1])
                    ==> before.cell(self.0[0], i) != before.cell(self.0[1], j),
            forall|offset: int|
                0 <= offset < before.field_length(self.0[0]) ==> (#[trigger] before.digits_at(
                    self.0[0],
                )[offset]) is None,
            forall|offset: int|
                0 <= offset < before.field_length(self.0[1]) ==> (#[trigger] before.digits_at(
                    self.0[1],
                )[offset]) is None,
        ensures
            exists|i: int|
                0 <= i < self.candidates(before).len() && self.holds_pair(
                    #[trigger] self.candidates(before)[i],
                    first,
                    (100 - first) as usize,
                ) && forall|j: int|
                    0 <= j < self.candidates(before).len() && self.holds_pair(
                        #[trigger] self.candidates(before)[j],
                        first,
                        (100 - first) as usize,
                    ) ==> j == i,
    {
        let second = (100 - first) as usize;
        lemma_digit_count(first as nat);
        lemma_digit_count(second as nat);
        assert(is_table_square(100)) by {
            assert(10nat * 10nat == 100);
        }
        self.lemma_free_fields_take_pair(before, first, second);
    }

    /// Every puzzle that the rule yields meets the rule, and holds in each
    /// of the two fields a number that is at least the smallest number of
    /// the fields' length.
    pub proof fn lemma_candidates_hold(self, before: PuzzleView, place: int)
        requires
            before.wf(),
            self.applies(before.layout),
            0 <= place < self.candidates(before).len(),
        ensures
            self.holds(self.candidates(before)[place]),
            self.candidates(before)[place].number_at(self.0[0])->0 >= self.minimum(before.layout),
            self.candidates(before)[place].number_at(self.0[1])->0 >= self.minimum(before.layout),
    {
        let list = self.assignments(before.layout);
        let after = self.candidates(before)[place];
        let minimum = self.minimum(before.layout) as usize;
        before.lemma_field_on_grid(self.0[0]);
        reveal_with_fuel(power_of_ten, 4);
        lemma_fitted_contains(before, list);
        assert(self.candidates(before).contains(after));
        let k = choose|k: int|
            0 <= k < list.len() && before.fit_all(#[trigger] list[k]) == Ok::<PuzzleView, FitError>(
                after,
            );
        let (index, first) = lemma_listed_is_part(self.0, minimum, (ROOT_LIMIT - 1) as nat, k);
        lemma_square_bound(index);
        let square = squares_spec()[index];
        let second = (square - first) as usize;
        assert(list[k] == assign_two(self.0, first, second));
        assert(before.has_fields(list[k]));
        before.lemma_fit_all_places_numbers(list[k], 0);
        before.lemma_fit_all_places_numbers(list[k], 1);
    }
}

impl PuzzleRule for SumSquare {
    open spec fn vectors(&self) -> Seq<IdentifierVector> {
        self.0@
    }

    open spec fn needs(&self, layout: LayoutView) -> bool {
        layout.field_length(self.0[0]) == layout.field_length(self.0[1])
    }

    /// The two numbers sum to a square of the table.
    open spec fn accepts(&self, numbers: Seq<nat>) -> bool {
        is_table_square(numbers[0] + numbers[1])
    }

    /// For each square of the table in turn, and for each way to part it
    /// in two numbers that are both at least the smallest number of the
    /// fields' length, the first number rising, the puzzle with the two
    /// numbers in the two fields, where they fit.
    open spec fn candidates(&self, before: PuzzleView) -> Seq<PuzzleView> {
        fitted(before, self.assignments(before.layout))
    }

    fn generate(&self, tables: &LookupTables, puzzle: &Puzzle, new_puzzles: &mut Vec<Puzzle>) {
        let ghost start = new_puzzles@;
        proof {
            self.lemma_applies(puzzle@.layout);
        }
        // Make sure that both fields are the same size
        let size_of_fields = puzzle.size_of_field(self.0[0]);
        // Get all squares
        let squares = SquareTable::squares();
        // Get the minimum number the square must be to have two numbers that both have the
        // size of the fields
        let mut minimum_field: usize = 1;
        let mut exponent: usize = 1;
        while exponent < size_of_fields
            invariant
                1 <= exponent <= size_of_fields <= 3,
                minimum_field == power_of_ten((exponent - 1) as nat),
                minimum_field <= 100,
            decreases size_of_fields - exponent,
        {
            proof {
                reveal_with_fuel(power_of_ten, 4);
            }
            minimum_field = minimum_field * 10;
            exponent += 1;
        }
        let minimum_square = minimum_field * 2;
        let ghost list = self.assignments(puzzle@.layout);
        assert(minimum_field == self.minimum(puzzle@.layout));
        assert(views(new_puzzles@) =~= views(start) + fitted(
            puzzle@,
            parts_of_squares(self.0, minimum_field, 0),
        ));
        assert(new_puzzles@.subrange(0, start.len() as int) =~= start);
        // Go through all potential squares
        let mut j: usize = 0;
        while j < squares.len()
            invariant
                j <= squares.len(),
                squares@ == squares_spec(),
                minimum_square == 2 * minimum_field,
                minimum_field <= 100,
                self.applies(puzzle@.layout),
                start.len() <= new_puzzles@.len(),
                new_puzzles@.subrange(0, start.len() as int) == start,
                views(new_puzzles@) == views(start) + fitted(
                    puzzle@,
                    parts_of_squares(self.0, minimum_field, j as nat),
                ),
            decreases squares.len() - j,
        {
            let square = squares[j];
            let ghost front = parts_of_squares(self.0, minimum_field, j as nat);
            let ghost block = parts_of_square(self.0, square, minimum_field);
            proof {
                lemma_square_bound(j as int);
                assert(front + block.subrange(0, 0) =~= front);
            }
            if square >= minimum_square {
                let max_sub = square - minimum_field + 1;
                // Go through all numbers that add to this square and fulfill the minimum
                // number of digits
                let mut num_a: usize = minimum_field;
                while num_a < max_sub
                    invariant
                        minimum_field <= num_a <= max_sub,
                        max_sub == square - minimum_field + 1,
                        square >= 2 * minimum_field,
                        square <= 1936,
                        front == parts_of_squares(self.0, minimum_field, j as nat),
                        block == parts_of_square(self.0, square, minimum_field),
                        self.applies(puzzle@.layout),
                        start.len() <= new_puzzles@.len(),
                        new_puzzles@.subrange(0, start.len() as int) == start,
                        views(new_puzzles@) == views(start) + fitted(
                            puzzle@,
                            front + block.subrange(0, num_a - minimum_field),
                        ),
                    decreases max_sub - num_a,
                {
                    let num_b = square - num_a;
                    // Wrap the numbers with their positions
                    let mut wrapped: Vec<(IdentifierVector, usize)> = Vec::new();
                    wrapped.push((self.0[0], num_a));
                    wrapped.push((self.0[1], num_b));
                    let ghost place = num_a - minimum_field;
                    let ghost before = new_puzzles@;
                    let ghost tried = front + block.subrange(0, place);
                    let ghost tried_after = front + block.subrange(0, place + 1);
                    proof {
                        assert(wrapped@ =~= assign_two(self.0, num_a, num_b));
                        assert(block[place] == wrapped@);
                        assert(tried_after.drop_last() =~= tried);
                        assert(tried_after.last() == block[place]);
                    }
                    push_fit(puzzle, wrapped.as_slice(), new_puzzles);
                    proof {
                        assert(views(new_puzzles@) =~= views(start) + fitted(puzzle@, tried_after));
                        assert(before.subrange(0, before.len() as int) =~= before);
                        assert(new_puzzles@.subrange(0, start.len() as int) =~= before.subrange(
                            0,
                            start.len() as int,
                        ));
                    }
                    num_a += 1;
                }
                proof {
                    assert(block.subrange(0, num_a - minimum_field) =~= block);
                }
            } else {
                proof {
                    assert(block =~= Seq::empty());
                    assert(front + block =~= front);
                }
            }
            proof {
                assert(parts_of_squares(self.0, minimum_field, (j + 1) as nat) == front + block);
            }
            j += 1;
        }
        proof {
            assert(list == parts_of_squares(self.0, minimum_field, j as nat));
            use_type_invariant(puzzle);
            assert forall|k: int| 0 <= k < list.len() implies puzzle@.has_fields(
                #[trigger] list[k],
            ) by {
                let _ = lemma_listed_is_part(self.0, minimum_field, (ROOT_LIMIT - 1) as nat, k);
            }
            lemma_added_extend(puzzle@, list, start, new_puzzles@);
            assert forall|i: int| start.len() <= i < new_puzzles@.len() implies {
                &&& puzzle@.extended_by((#[trigger] new_puzzles@[i])@)
                &&& new_puzzles@[i]@.are_filled(self.vectors())
                &&& self.accepts(new_puzzles@[i]@.numbers_at(self.vectors()))
            } by {
                self.lemma_candidates_hold(puzzle@, i - start.len());
                self.lemma_holds(new_puzzles@[i]@);
            }
        }
    }

    fn is_valid(&self, tables: &LookupTables, puzzle: &Puzzle) -> (valid: bool) {
        proof {
            self.lemma_applies(puzzle@.layout);
            self.lemma_holds(puzzle@);
        }
        // Get all the numbers from the puzzle
        let first = match puzzle.number_at(self.0[0]) {
            Some(number) => number,
            // This cannot be valid as not all the fields are filled
            None => {
                return false;
            },
        };
        let second = match puzzle.number_at(self.0[1]) {
            Some(number) => number,
            None => {
                return false;
            },
        };
        SquareTable::is_square(first + second)
    }
}

} // verus!
