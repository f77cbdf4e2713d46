//! The puzzle grid and the fields on it.
//!
//! A puzzle is a fixed layout, shared by all the puzzles that a search
//! derives from one another, and an array of cells that each hold a digit or
//! nothing. A field is a run of one to three cells that starts at a named
//! anchor and goes across or down until a wall or the edge of the grid.

use std::sync::Arc;
use vstd::prelude::*;

use layout::{LayoutView, SharedPuzzle};
use position::{GridPosition, IdentifierVector, PuzzleDirection, PuzzleIdentifier};
use runs::{
    cells_as_slice, cells_new, cells_push, digits_as_slice, digits_new, digits_of, digits_push,
    leading_digits, lemma_digit_count, lemma_digits_are_decimal, lemma_digits_decide_number,
    lemma_leading_digits_of_tenth, lemma_number_of_digits, lemma_prefix_spells_less, number_of,
    run_cells, run_digits, MAX_FIELD_LENGTH,
};
use wall::WallDirection;

pub mod layout;
pub mod position;
pub mod runs;
pub mod wall;

verus! {

/// Why a number cannot be placed in a field.
#[derive(Clone, Copy, Debug, PartialEq, Eq, Structural)]
pub enum FitError {
    TooSmall,
    TooLarge,
    DigitsDoNotMatch,
}

/// A puzzle as mathematics: its layout and its cells in row-major order.
pub struct PuzzleView {
    pub layout: LayoutView,
    pub digits: Seq<Option<u8>>,
}

impl PuzzleView {
    /// There is one cell for each position of the grid, and what a cell
    /// holds is a decimal digit.
    pub open spec fn wf(self) -> bool {
        &&& self.digits.len() == self.layout.num_columns * self.layout.num_rows
        &&& forall|i: int|
            0 <= i < self.digits.len() && (#[trigger] self.digits[i]) is Some
                ==> self.digits[i]->0 <= 9
    }

    /// What the cell at a position holds.
    pub open spec fn digit_at(self, position: GridPosition) -> Option<u8> {
        self.digits[self.layout.index_of(position)]
    }

    /// Whether the vector names a field that starts on the grid.
    pub open spec fn has_field(self, vector: IdentifierVector) -> bool {
        self.layout.has_field(vector)
    }

    /// The position of the cell that comes `offset` cells after the anchor
    /// of the field.
    pub open spec fn cell(self, vector: IdentifierVector, offset: nat) -> GridPosition {
        self.layout.cell(vector, offset)
    }

    /// The number of cells of a field: the cells from its anchor up to and
    /// with the first one at which the run is blocked, three at most.
    pub open spec fn field_length(self, vector: IdentifierVector) -> nat {
        self.layout.field_length(vector)
    }

    /// Whether the position is one of the cells of the field.
    pub open spec fn in_field(self, vector: IdentifierVector, position: GridPosition) -> bool {
        exists|offset: nat|
            offset < self.field_length(vector) && position == #[trigger] self.cell(vector, offset)
    }

    /// What the cells of a field hold, from the anchor on.
    pub open spec fn digits_at(self, vector: IdentifierVector) -> Seq<Option<u8>> {
        Seq::new(
            self.field_length(vector),
            |offset: int| self.digit_at(self.cell(vector, offset as nat)),
        )
    }

    /// Whether every cell of the field holds a digit.
    pub open spec fn is_filled(self, vector: IdentifierVector) -> bool {
        forall|offset: int|
            0 <= offset < self.field_length(vector) ==> (#[trigger] self.digits_at(
                vector,
            )[offset]) is Some
    }

    /// The digits of a filled field.
    pub open spec fn filled_digits(self, vector: IdentifierVector) -> Seq<u8> {
        Seq::new(self.field_length(vector), |offset: int| self.digits_at(vector)[offset]->0)
    }

    /// The number that a field holds, read from the anchor on as a decimal
    /// number; nothing where a cell of the field is empty.
    pub open spec fn number_at(self, vector: IdentifierVector) -> Option<nat> {
        if self.is_filled(vector) {
            Some(number_of(self.filled_digits(vector)))
        } else {
            None
        }
    }

    /// Whether a cell of the field already holds another digit than the one
    /// that `digits` has for it.
    pub open spec fn conflicts(self, vector: IdentifierVector, digits: Seq<u8>) -> bool {
        exists|offset: int|
            0 <= offset < self.field_length(vector) && (#[trigger] self.digits_at(vector)[offset])
                is Some && self.digits_at(vector)[offset]->0 != digits[offset]
    }

    /// The cells after the first `count` digits were written into the field.
    pub open spec fn written(self, vector: IdentifierVector, digits: Seq<u8>, count: nat) -> Seq<
        Option<u8>,
    >
        decreases count,
    {
        if count == 0 {
            self.digits
        } else {
            self.written(vector, digits, (count - 1) as nat).update(
                self.layout.index_of(self.cell(vector, (count - 1) as nat)),
                Some(digits[count - 1]),
            )
        }
    }

    /// The puzzle with the digits written over the cells of the field.
    pub open spec fn overlay(self, vector: IdentifierVector, digits: Seq<u8>) -> PuzzleView {
        PuzzleView {
            layout: self.layout,
            digits: self.written(vector, digits, self.field_length(vector)),
        }
    }

    /// Whether the other puzzle has the same layout and holds every digit
    /// that this one holds, in the same cell.
    pub open spec fn extended_by(self, other: PuzzleView) -> bool {
        &&& other.layout == self.layout
        &&& other.digits.len() == self.digits.len()
        &&& forall|place: int|
            0 <= place < self.digits.len() && (#[trigger] self.digits[place]) is Some
                ==> other.digits[place] == self.digits[place]
    }

    /// Whether each of the fields holds a number.
    pub open spec fn are_filled(self, vectors: Seq<IdentifierVector>) -> bool {
        forall|i: int| 0 <= i < vectors.len() ==> self.number_at(#[trigger] vectors[i]) is Some
    }

    /// The numbers that the fields hold, in the order of the fields.
    pub open spec fn numbers_at(self, vectors: Seq<IdentifierVector>) -> Seq<nat> {
        Seq::new(vectors.len(), |i: int| self.number_at(vectors[i])->0)
    }

    /// Whether digits can be placed in a field: there must be as many of
    /// them as the field has cells, and no cell may already hold another
    /// digit than the one that is to go there.
    pub open spec fn check(self, vector: IdentifierVector, digits: Seq<u8>) -> Result<
        (),
        FitError,
    > {
        if digits.len() < self.field_length(vector) {
            Err(FitError::TooSmall)
        } else if digits.len() > self.field_length(vector) {
            Err(FitError::TooLarge)
        } else if self.conflicts(vector, digits) {
            Err(FitError::DigitsDoNotMatch)
        } else {
            Ok(())
        }
    }

    /// What placing a number in a field gives: where its digits can be
    /// placed, the puzzle with the digits written over the field.
    pub open spec fn fit(self, vector: IdentifierVector, number: nat) -> Result<
        PuzzleView,
        FitError,
    > {
        match self.check(vector, digits_of(number)) {
            Ok(_) => Ok(self.overlay(vector, digits_of(number))),
            Err(error) => Err(error),
        }
    }

    /// What placing the numbers one after the other gives: each in the
    /// puzzle that the one before left, up to the first that fails.
    pub open spec fn fit_all(self, numbers: Seq<(IdentifierVector, usize)>) -> Result<
        PuzzleView,
        FitError,
    >
        decreases numbers.len(),
    {
        if numbers.len() == 0 {
            Ok(self)
        } else {
            match self.fit(numbers[0].0, numbers[0].1 as nat) {
                Ok(next) => next.fit_all(numbers.skip(1)),
                Err(error) => Err(error),
            }
        }
    }

    /// A field has one to three cells, all of them on the grid, each the
    /// step after the one before.
    pub proof fn lemma_field_on_grid(self, vector: IdentifierVector)
        requires
            self.has_field(vector),
        ensures
            1 <= self.field_length(vector) <= MAX_FIELD_LENGTH,
            forall|offset: nat|
                offset < self.field_length(vector) ==> self.layout.in_grid(
                    #[trigger] self.cell(vector, offset),
                ),
            forall|offset: nat|
                offset + 1 < self.field_length(vector) ==> self.cell(vector, offset + 1)
                    == (#[trigger] self.cell(vector, offset)).step(vector.direction),
    {
        let direction = vector.direction;
        let first = self.cell(vector, 0);
        let second = self.cell(vector, 1);
        let third = self.cell(vector, 2);
        assert(first == self.layout.anchor(vector.identifier));
        assert(second == first.step(direction));
        if !self.layout.blocked(first, direction) {
            assert(self.layout.in_grid(second));
            assert(third == second.step(direction));
        }
        assert forall|offset: nat| offset < self.field_length(vector) implies self.layout.in_grid(
            #[trigger] self.cell(vector, offset),
        ) by {
            assert(offset == 0 || offset == 1 || offset == 2);
        }
        assert forall|offset: nat| offset + 1 < self.field_length(vector) implies self.cell(
            vector,
            offset + 1,
        ) == (#[trigger] self.cell(vector, offset)).step(direction) by {
            assert(offset == 0 || offset == 1);
        }
    }

    /// The length of a field is the number of cells from its anchor to the
    /// first cell at which a wall or the edge stops the run, capped at three:
    /// no cell before the last is blocked, and a field of fewer than three
    /// cells ends at a blocked cell.
    pub proof fn lemma_field_length_counts_run(self, vector: IdentifierVector)
        requires
            self.has_field(vector),
        ensures
            1 <= self.field_length(vector) <= MAX_FIELD_LENGTH,
            forall|offset: nat|
                offset + 1 < self.field_length(vector) ==> !self.layout.blocked(
                    #[trigger] self.cell(vector, offset),
                    vector.direction,
                ),
            self.field_length(vector) < MAX_FIELD_LENGTH ==> self.layout.blocked(
                self.cell(vector, (self.field_length(vector) - 1) as nat),
                vector.direction,
            ),
    {
        assert forall|offset: nat| offset + 1 < self.field_length(vector) implies !self.layout.blocked(
            #[trigger] self.cell(vector, offset),
            vector.direction,
        ) by {
            assert(offset == 0 || offset == 1);
        }
    }

    /// Two cells of one field at different offsets have different places in
    /// the array of digits.
    pub proof fn lemma_cells_apart(self, vector: IdentifierVector, a: nat, b: nat)
        requires
            self.has_field(vector),
            a < self.field_length(vector),
            b < self.field_length(vector),
            a != b,
        ensures
            self.layout.index_of(self.cell(vector, a)) != self.layout.index_of(
                self.cell(vector, b),
            ),
    {
        self.lemma_field_on_grid(vector);
        if self.layout.index_of(self.cell(vector, a)) == self.layout.index_of(
            self.cell(vector, b),
        ) {
            self.layout.lemma_index_decides_cell(self.cell(vector, a), self.cell(vector, b));
        }
    }

    /// What writing the first `count` digits into a field does to the cells:
    /// the cells of the field that were reached hold their digits, and every
    /// other cell is as before.
    pub proof fn lemma_written(self, vector: IdentifierVector, digits: Seq<u8>, count: nat)
        requires
            self.wf(),
            self.has_field(vector),
            count <= self.field_length(vector),
        ensures
            self.written(vector, digits, count).len() == self.digits.len(),
            forall|offset: nat|
                offset < count ==> self.written(vector, digits, count)[self.layout.index_of(
                    #[trigger] self.cell(vector, offset),
                )] == Some(digits[offset as int]),
            forall|place: int|
                0 <= place < self.digits.len() && (forall|offset: nat|
                    offset < count ==> place != self.layout.index_of(
                        #[trigger] self.cell(vector, offset),
                    )) ==> #[trigger] self.written(vector, digits, count)[place]
                    == self.digits[place],
        decreases count,
    {
        self.lemma_field_on_grid(vector);
        if count > 0 {
            let before = (count - 1) as nat;
            self.lemma_written(vector, digits, before);
            let last = self.cell(vector, before);
            self.layout.lemma_index_in_range(last);
            assert forall|offset: nat| offset < count implies self.written(
                vector,
                digits,
                count,
            )[self.layout.index_of(#[trigger] self.cell(vector, offset))] == Some(
                digits[offset as int],
            ) by {
                self.layout.lemma_index_in_range(self.cell(vector, offset));
                if offset < before {
                    self.lemma_cells_apart(vector, offset, before);
                }
            }
            assert forall|place: int|
                0 <= place < self.digits.len() && (forall|offset: nat|
                    offset < count ==> place != self.layout.index_of(
                        #[trigger] self.cell(vector, offset),
                    )) implies #[trigger] self.written(vector, digits, count)[place]
                == self.digits[place] by {
                assert(place != self.layout.index_of(self.cell(vector, before)));
                assert forall|offset: nat| offset < before implies place
                    != self.layout.index_of(#[trigger] self.cell(vector, offset)) by {}
            }
        }
    }

    /// The cells of a field hold decimal digits.
    pub proof fn lemma_cells_are_decimal(self, vector: IdentifierVector)
        requires
            self.wf(),
            self.has_field(vector),
        ensures
            forall|offset: int|
                0 <= offset < self.field_length(vector) && (#[trigger] self.digits_at(
                    vector,
                )[offset]) is Some ==> self.digits_at(vector)[offset]->0 <= 9,
    {
        self.lemma_field_on_grid(vector);
        assert forall|offset: int|
            0 <= offset < self.field_length(vector) && (#[trigger] self.digits_at(
                vector,
            )[offset]) is Some implies self.digits_at(vector)[offset]->0 <= 9 by {
            self.layout.lemma_index_in_range(self.cell(vector, offset as nat));
        }
    }

    /// A puzzle that a fit gives is well formed and has the layout of the
    /// puzzle that it came from.
    pub proof fn lemma_fit_keeps_form(self, vector: IdentifierVector, number: nat)
        requires
            self.wf(),
            self.has_field(vector),
            self.fit(vector, number) is Ok,
        ensures
            self.fit(vector, number)->Ok_0.wf(),
            self.fit(vector, number)->Ok_0.layout == self.layout,
    {
        let digits = digits_of(number);
        let after = self.overlay(vector, digits);
        self.lemma_field_on_grid(vector);
        self.lemma_written(vector, digits, self.field_length(vector));
        lemma_digits_are_decimal(number);
        assert forall|place: int|
            0 <= place < after.digits.len() && (#[trigger] after.digits[place])
                is Some implies after.digits[place]->0 <= 9 by {
            if exists|offset: nat|
                offset < self.field_length(vector) && place == self.layout.index_of(
                    #[trigger] self.cell(vector, offset),
                ) {
                let offset = choose|offset: nat|
                    offset < self.field_length(vector) && place == self.layout.index_of(
                        #[trigger] self.cell(vector, offset),
                    );
                assert(after.digits[self.layout.index_of(self.cell(vector, offset))] == Some(
                    digits[offset as int],
                ));
            } else {
                assert(after.digits[place] == self.digits[place]);
            }
        }
    }

    /// After a fit every cell of the field holds its digit of the number.
    pub proof fn lemma_fit_writes_field(self, vector: IdentifierVector, number: nat)
        requires
            self.wf(),
            self.has_field(vector),
            self.fit(vector, number) is Ok,
        ensures
            self.fit(vector, number)->Ok_0.digits_at(vector) == digits_of(number).map_values(
                |digit: u8| Some(digit),
            ),
    {
        let digits = digits_of(number);
        let after = self.fit(vector, number)->Ok_0;
        self.lemma_field_on_grid(vector);
        self.lemma_written(vector, digits, self.field_length(vector));
        assert forall|offset: int| 0 <= offset < after.field_length(vector) implies after.digits_at(
            vector,
        )[offset] == Some(digits[offset]) by {
            assert(after.digits[self.layout.index_of(self.cell(vector, offset as nat))] == Some(
                digits[offset],
            ));
        }
        assert(after.digits_at(vector) =~= digits.map_values(|digit: u8| Some(digit)));
    }

    /// Where a number fits, the field holds that number afterwards, the
    /// layout is the same, and every cell outside the field is as it was.
    pub proof fn lemma_fit_places_number(self, vector: IdentifierVector, number: nat)
        requires
            self.wf(),
            self.has_field(vector),
            self.fit(vector, number) is Ok,
        ensures
            self.fit(vector, number)->Ok_0.number_at(vector) == Some(number),
            self.fit(vector, number)->Ok_0.layout == self.layout,
            self.fit(vector, number)->Ok_0.wf(),
            forall|position: GridPosition|
                self.layout.in_grid(position) && !self.in_field(vector, position) ==> (
                #[trigger] self.fit(vector, number)->Ok_0.digit_at(position)) == self.digit_at(
                    position,
                ),
    {
        let digits = digits_of(number);
        let after = self.fit(vector, number)->Ok_0;
        self.lemma_fit_keeps_form(vector, number);
        self.lemma_fit_writes_field(vector, number);
        self.lemma_field_on_grid(vector);
        self.lemma_written(vector, digits, self.field_length(vector));
        assert forall|offset: int| 0 <= offset < after.field_length(vector) implies (
        #[trigger] after.digits_at(vector)[offset]) is Some by {}
        assert(after.filled_digits(vector) =~= digits);
        lemma_number_of_digits(number);
        assert forall|position: GridPosition|
            self.layout.in_grid(position) && !self.in_field(vector, position) implies (
        #[trigger] after.digit_at(position)) == self.digit_at(position) by {
            let place = self.layout.index_of(position);
            self.layout.lemma_index_in_range(position);
            assert forall|offset: nat| offset < self.field_length(vector) implies place
                != self.layout.index_of(#[trigger] self.cell(vector, offset)) by {
                if place == self.layout.index_of(self.cell(vector, offset)) {
                    self.layout.lemma_index_decides_cell(position, self.cell(vector, offset));
                }
            }
            assert(after.digits[place] == self.digits[place]);
        }
    }

    /// Fitting the same number into the same field once more succeeds and
    /// changes nothing.
    pub proof fn lemma_fit_is_idempotent(self, vector: IdentifierVector, number: nat)
        requires
            self.wf(),
            self.has_field(vector),
            self.fit(vector, number) is Ok,
        ensures
            self.fit(vector, number)->Ok_0.fit(vector, number) == self.fit(vector, number),
    {
        let digits = digits_of(number);
        let after = self.fit(vector, number)->Ok_0;
        self.lemma_fit_keeps_form(vector, number);
        self.lemma_fit_writes_field(vector, number);
        assert(!after.conflicts(vector, digits));
        after.lemma_field_on_grid(vector);
        after.lemma_written(vector, digits, after.field_length(vector));
        let again = after.overlay(vector, digits);
        assert forall|place: int| 0 <= place < after.digits.len() implies again.digits[place]
            == after.digits[place] by {
            if exists|offset: nat|
                offset < after.field_length(vector) && place == after.layout.index_of(
                    #[trigger] after.cell(vector, offset),
                ) {
                let offset = choose|offset: nat|
                    offset < after.field_length(vector) && place == after.layout.index_of(
                        #[trigger] after.cell(vector, offset),
                    );
                assert(again.digits[after.layout.index_of(after.cell(vector, offset))] == Some(
                    digits[offset as int],
                ));
                assert(after.digits_at(vector)[offset as int] == Some(digits[offset as int]));
            }
        }
        assert(again.digits =~= after.digits);
    }

    /// After a number was fitted into a field, a number for a field that
    /// shares a cell with it is refused for its digits where the two numbers
    /// have different digits for the shared cell.
    pub proof fn lemma_fit_detects_conflict(
        self,
        first: IdentifierVector,
        number: nat,
        second: IdentifierVector,
        other: nat,
        first_offset: nat,
        second_offset: nat,
    )
        requires
            self.wf(),
            self.has_field(first),
            self.has_field(second),
            self.fit(first, number) is Ok,
            digits_of(other).len() == self.field_length(second),
            first_offset < self.field_length(first),
            second_offset < self.field_length(second),
            self.cell(first, first_offset) == self.cell(second, second_offset),
            digits_of(number)[first_offset as int] != digits_of(other)[second_offset as int],
        ensures
            self.fit(first, number)->Ok_0.fit(second, other) == Err::<PuzzleView, FitError>(
                FitError::DigitsDoNotMatch,
            ),
    {
        let after = self.fit(first, number)->Ok_0;
        self.lemma_fit_writes_field(first, number);
        assert(after.digits_at(first)[first_offset as int] == Some(
            digits_of(number)[first_offset as int],
        ));
        assert(after.digits_at(second)[second_offset as int] == after.digits_at(
            first,
        )[first_offset as int]);
    }

    /// After a number was fitted into a field, another number with as many
    /// digits is refused for its digits in the same field.
    pub proof fn lemma_fit_refuses_other_number(
        self,
        vector: IdentifierVector,
        number: nat,
        other: nat,
    )
        requires
            self.wf(),
            self.has_field(vector),
            self.fit(vector, number) is Ok,
            digits_of(other).len() == digits_of(number).len(),
            other != number,
        ensures
            self.fit(vector, number)->Ok_0.fit(vector, other) == Err::<PuzzleView, FitError>(
                FitError::DigitsDoNotMatch,
            ),
    {
        if digits_of(number) =~= digits_of(other) {
            lemma_digits_decide_number(number, other);
        }
        let offset = choose|offset: int|
            0 <= offset < digits_of(number).len() && digits_of(number)[offset] != digits_of(
                other,
            )[offset];
        self.lemma_fit_detects_conflict(
            vector,
            number,
            vector,
            other,
            offset as nat,
            offset as nat,
        );
    }

    /// A field that is filled holds the same digits after a number was
    /// fitted into any field.
    pub proof fn lemma_fit_keeps_filled_field(
        self,
        vector: IdentifierVector,
        number: nat,
        filled: IdentifierVector,
    )
        requires
            self.wf(),
            self.has_field(vector),
            self.has_field(filled),
            self.is_filled(filled),
            self.fit(vector, number) is Ok,
        ensures
            self.fit(vector, number)->Ok_0.digits_at(filled) == self.digits_at(filled),
            self.fit(vector, number)->Ok_0.is_filled(filled),
            self.fit(vector, number)->Ok_0.number_at(filled) == self.number_at(filled),
    {
        let digits = digits_of(number);
        let after = self.fit(vector, number)->Ok_0;
        self.lemma_field_on_grid(vector);
        self.lemma_field_on_grid(filled);
        self.lemma_written(vector, digits, self.field_length(vector));
        assert forall|offset: int| 0 <= offset < self.field_length(filled) implies after.digits_at(
            filled,
        )[offset] == self.digits_at(filled)[offset] by {
            let position = self.cell(filled, offset as nat);
            let place = self.layout.index_of(position);
            self.layout.lemma_index_in_range(position);
            assert(self.digits_at(filled)[offset] is Some);
            if exists|other: nat|
                other < self.field_length(vector) && place == self.layout.index_of(
                    #[trigger] self.cell(vector, other),
                ) {
                let other = choose|other: nat|
                    other < self.field_length(vector) && place == self.layout.index_of(
                        #[trigger] self.cell(vector, other),
                    );
                assert(after.digits[self.layout.index_of(self.cell(vector, other))] == Some(
                    digits[other as int],
                ));
                assert(self.digits_at(vector)[other as int] == self.digits[place]);
                assert(!self.conflicts(vector, digits));
            } else {
                assert(after.digits[place] == self.digits[place]);
            }
        }
        assert(after.digits_at(filled) =~= self.digits_at(filled));
        assert(after.filled_digits(filled) =~= self.filled_digits(filled));
    }

    /// Placing numbers one after the other leaves a well formed puzzle of
    /// the same layout, in which a field that was filled holds the same
    /// digits.
    pub proof fn lemma_fit_all_keeps_filled_field(
        self,
        numbers: Seq<(IdentifierVector, usize)>,
        filled: IdentifierVector,
    )
        requires
            self.wf(),
            self.has_fields(numbers),
            self.has_field(filled),
            self.is_filled(filled),
            self.fit_all(numbers) is Ok,
        ensures
            self.fit_all(numbers)->Ok_0.wf(),
            self.fit_all(numbers)->Ok_0.layout == self.layout,
            self.fit_all(numbers)->Ok_0.digits_at(filled) == self.digits_at(filled),
            self.fit_all(numbers)->Ok_0.number_at(filled) == self.number_at(filled),
        decreases numbers.len(),
    {
        if numbers.len() > 0 {
            let vector = numbers[0].0;
            let number = numbers[0].1 as nat;
            let next = self.fit(vector, number)->Ok_0;
            assert(self.has_field(vector));
            self.lemma_fit_keeps_form(vector, number);
            self.lemma_fit_keeps_filled_field(vector, number, filled);
            let rest = numbers.skip(1);
            assert forall|i: int| 0 <= i < rest.len() implies next.has_field(
                (#[trigger] rest[i]).0,
            ) by {
                assert(rest[i] == numbers[i + 1]);
            }
            next.lemma_fit_all_keeps_filled_field(rest, filled);
        }
    }

    /// Where numbers fit one after the other, each of their fields holds
    /// its number afterwards.
    pub proof fn lemma_fit_all_places_numbers(
        self,
        numbers: Seq<(IdentifierVector, usize)>,
        place: int,
    )
        requires
            self.wf(),
            self.has_fields(numbers),
            self.fit_all(numbers) is Ok,
            0 <= place < numbers.len(),
        ensures
            self.fit_all(numbers)->Ok_0.number_at(numbers[place].0) == Some(
                numbers[place].1 as nat,
            ),
        decreases numbers.len(),
    {
        let vector = numbers[0].0;
        let number = numbers[0].1 as nat;
        let next = self.fit(vector, number)->Ok_0;
        assert(self.has_field(vector));
        self.lemma_fit_places_number(vector, number);
        let rest = numbers.skip(1);
        assert forall|i: int| 0 <= i < rest.len() implies next.has_field((#[trigger] rest[i]).0) by {
            assert(rest[i] == numbers[i + 1]);
        }
        if place == 0 {
            assert(next.is_filled(vector));
            next.lemma_fit_all_keeps_filled_field(rest, vector);
        } else {
            assert(rest[place - 1] == numbers[place]);
            next.lemma_fit_all_places_numbers(rest, place - 1);
        }
    }

    /// A puzzle that a fit gives holds every digit that was there before.
    pub proof fn lemma_fit_extends(self, vector: IdentifierVector, number: nat)
        requires
            self.wf(),
            self.has_field(vector),
            self.fit(vector, number) is Ok,
        ensures
            self.extended_by(self.fit(vector, number)->Ok_0),
    {
        let digits = digits_of(number);
        let after = self.fit(vector, number)->Ok_0;
        self.lemma_field_on_grid(vector);
        self.lemma_written(vector, digits, self.field_length(vector));
        assert forall|place: int|
            0 <= place < self.digits.len() && (#[trigger] self.digits[place])
                is Some implies after.digits[place] == self.digits[place] by {
            if exists|offset: nat|
                offset < self.field_length(vector) && place == self.layout.index_of(
                    #[trigger] self.cell(vector, offset),
                ) {
                let offset = choose|offset: nat|
                    offset < self.field_length(vector) && place == self.layout.index_of(
                        #[trigger] self.cell(vector, offset),
                    );
                assert(after.digits[self.layout.index_of(self.cell(vector, offset))] == Some(
                    digits[offset as int],
                ));
                assert(self.digits_at(vector)[offset as int] == self.digits[place]);
                assert(!self.conflicts(vector, digits));
            } else {
                assert(after.digits[place] == self.digits[place]);
            }
        }
    }

    /// A puzzle that fitting numbers one after the other gives is well
    /// formed and holds every digit that was there before.
    pub proof fn lemma_fit_all_extends(self, numbers: Seq<(IdentifierVector, usize)>)
        requires
            self.wf(),
            self.has_fields(numbers),
            self.fit_all(numbers) is Ok,
        ensures
            self.fit_all(numbers)->Ok_0.wf(),
            self.extended_by(self.fit_all(numbers)->Ok_0),
        decreases numbers.len(),
    {
        if numbers.len() > 0 {
            let vector = numbers[0].0;
            let number = numbers[0].1 as nat;
            let next = self.fit(vector, number)->Ok_0;
            assert(self.has_field(vector));
            self.lemma_fit_keeps_form(vector, number);
            self.lemma_fit_extends(vector, number);
            let rest = numbers.skip(1);
            assert forall|i: int| 0 <= i < rest.len() implies next.has_field(
                (#[trigger] rest[i]).0,
            ) by {
                assert(rest[i] == numbers[i + 1]);
            }
            next.lemma_fit_all_extends(rest);
        }
    }

    /// A field that is filled holds the same number in every puzzle that
    /// holds the digits of this one.
    pub proof fn lemma_extension_keeps_number(self, other: PuzzleView, filled: IdentifierVector)
        requires
            self.wf(),
            self.has_field(filled),
            self.is_filled(filled),
            self.extended_by(other),
        ensures
            other.is_filled(filled),
            other.number_at(filled) == self.number_at(filled),
    {
        self.lemma_field_on_grid(filled);
        assert forall|offset: int| 0 <= offset < self.field_length(filled) implies other.digits_at(
            filled,
        )[offset] == self.digits_at(filled)[offset] by {
            self.layout.lemma_index_in_range(self.cell(filled, offset as nat));
            assert(self.digits_at(filled)[offset] is Some);
        }
        assert(other.digits_at(filled) =~= self.digits_at(filled));
        assert(other.filled_digits(filled) =~= self.filled_digits(filled));
    }

    /// Fields that hold numbers hold the same numbers in every puzzle that
    /// holds the digits of this one.
    pub proof fn lemma_extension_keeps_numbers(
        self,
        other: PuzzleView,
        vectors: Seq<IdentifierVector>,
    )
        requires
            self.wf(),
            self.layout.has_fields(vectors),
            self.are_filled(vectors),
            self.extended_by(other),
        ensures
            other.are_filled(vectors),
            other.numbers_at(vectors) == self.numbers_at(vectors),
    {
        assert forall|i: int| 0 <= i < vectors.len() implies other.number_at(
            #[trigger] vectors[i],
        ) == self.number_at(vectors[i]) && other.number_at(vectors[i]) is Some by {
            assert(self.number_at(vectors[i]) is Some);
            assert(self.layout.has_field(vectors[i]));
            self.lemma_extension_keeps_number(other, vectors[i]);
        }
        assert(other.numbers_at(vectors) =~= self.numbers_at(vectors));
    }

    /// A number with as many digits as a field has cells fits the field
    /// where every cell of the field is unset.
    pub proof fn lemma_fit_into_unset_field(self, vector: IdentifierVector, number: nat)
        requires
            digits_of(number).len() == self.field_length(vector),
            forall|offset: int|
                0 <= offset < self.field_length(vector) ==> (#[trigger] self.digits_at(
                    vector,
                )[offset]) is None,
        ensures
            self.fit(vector, number) is Ok,
    {
    }

    /// A field that shares no cell with the field that a number was fitted
    /// into holds what it held before.
    pub proof fn lemma_fit_leaves_other_field(
        self,
        vector: IdentifierVector,
        number: nat,
        other: IdentifierVector,
    )
        requires
            self.wf(),
            self.has_field(vector),
            self.has_field(other),
            self.fit(vector, number) is Ok,
            forall|i: nat, j: nat|
                i < self.field_length(vector) && j < self.field_length(other) ==> self.cell(
                    vector,
                    i,
                ) != self.cell(other, j),
        ensures
            self.fit(vector, number)->Ok_0.digits_at(other) == self.digits_at(other),
    {
        let after = self.fit(vector, number)->Ok_0;
        self.lemma_fit_places_number(vector, number);
        self.lemma_field_on_grid(other);
        assert forall|offset: int| 0 <= offset < self.field_length(other) implies after.digits_at(
            other,
        )[offset] == self.digits_at(other)[offset] by {
            let position = self.cell(other, offset as nat);
            assert(!self.in_field(vector, position));
            assert(after.digit_at(position) == self.digit_at(position));
        }
        assert(after.digits_at(other) =~= self.digits_at(other));
    }

    /// Placing numbers does not change the layout.
    pub proof fn lemma_fit_all_keeps_layout(self, numbers: Seq<(IdentifierVector, usize)>)
        requires
            self.fit_all(numbers) is Ok,
        ensures
            self.fit_all(numbers)->Ok_0.layout == self.layout,
        decreases numbers.len(),
    {
        if numbers.len() > 0 {
            let next = self.fit(numbers[0].0, numbers[0].1 as nat)->Ok_0;
            next.lemma_fit_all_keeps_layout(numbers.skip(1));
        }
    }

    /// Whether every vector of the list names a field that starts on the grid.
    pub open spec fn has_fields(self, numbers: Seq<(IdentifierVector, usize)>) -> bool {
        forall|i: int| 0 <= i < numbers.len() ==> self.has_field((#[trigger] numbers[i]).0)
    }
}


/// Calls `Arc::clone`, which hands out another handle to the same value.
#[verifier::external_body]
fn share_layout(layout: &Arc<SharedPuzzle>) -> (shared: Arc<SharedPuzzle>)
    ensures
        shared == *layout,
{
    Arc::clone(layout)
}

/// The puzzle to solve through backtracking
#[derive(Debug)]
pub struct Puzzle {
    digits: Vec<Option<u8>>,
    shared: Arc<SharedPuzzle>,
}

impl View for Puzzle {
    type V = PuzzleView;

    closed spec fn view(&self) -> PuzzleView {
        PuzzleView { layout: (*self.shared).view(), digits: self.digits@ }
    }
}

impl Puzzle {
    /// Every puzzle is well formed.
    #[verifier::type_invariant]
    pub open spec fn well_formed(self) -> bool {
        self.view().wf()
    }

    /// Create a new puzzle of a given size, rules and locations where the walls are located
    pub fn new(
        num_columns: usize,
        num_rows: usize,
        identifiers: Vec<(PuzzleIdentifier, GridPosition)>,
        walls: Vec<(GridPosition, WallDirection)>,
    ) -> (puzzle: Self)
        requires
            num_columns * num_rows <= usize::MAX,
        ensures
            puzzle@.wf(),
            puzzle@.layout == (LayoutView {
                num_columns,
                num_rows,
                anchors: layout::anchors_of(identifiers@),
                walls: layout::walls_of(walls@),
            }),
            forall|i: int| 0 <= i < puzzle@.digits.len() ==> puzzle@.digits[i] is None,
    {
        // Create a unset grid of digits
        let count = num_columns * num_rows;
        let mut digits: Vec<Option<u8>> = Vec::new();
        let mut i: usize = 0;
        while i < count
            invariant
                i <= count,
                digits@.len() == i,
                forall|j: int| 0 <= j < i ==> digits@[j] is None,
            decreases count - i,
        {
            digits.push(None);
            i += 1;
        }
        let shared = SharedPuzzle::new(num_columns, num_rows, identifiers, walls);
        Self { digits, shared: Arc::new(shared) }
    }

    /// The number of columns of the grid.
    pub fn num_columns(&self) -> (count: usize)
        ensures
            count == self@.layout.num_columns,
    {
        self.shared.num_columns()
    }

    /// The number of rows of the grid.
    pub fn num_rows(&self) -> (count: usize)
        ensures
            count == self@.layout.num_rows,
    {
        self.shared.num_rows()
    }

    /// Get all puzzle identifiers
    pub fn identifers(&self) -> (list: Vec<PuzzleIdentifier>)
        ensures
            list@.no_duplicates(),
            forall|identifier: PuzzleIdentifier|
                list@.contains(identifier) <==> self@.layout.declares(identifier),
    {
        self.shared.identifiers()
    }

    /// Whether the puzzle declares the identifier.
    pub fn has_identifier(&self, identifier: PuzzleIdentifier) -> (declared: bool)
        ensures
            declared == self@.layout.declares(identifier),
    {
        self.shared.lookup(identifier).is_some()
    }

    /// Whether the vector names a field whose anchor is a cell of the grid.
    pub fn has_field(&self, vector: IdentifierVector) -> (found: bool)
        ensures
            found == self@.has_field(vector),
    {
        match self.shared.lookup(vector.identifier) {
            Some(anchor) => anchor.column < self.shared.num_columns() && anchor.row
                < self.shared.num_rows(),
            None => false,
        }
    }

    /// Whether every declared identifier starts on a cell of the grid.
    pub fn anchors_on_grid(&self) -> (inside: bool)
        ensures
            inside == self@.layout.anchors_in_grid(),
    {
        let identifiers = self.identifers();
        let mut i: usize = 0;
        while i < identifiers.len()
            invariant
                i <= identifiers.len(),
                forall|identifier: PuzzleIdentifier|
                    identifiers@.contains(identifier) <==> self@.layout.declares(identifier),
                forall|j: int|
                    0 <= j < i ==> self@.layout.in_grid(
                        self@.layout.anchor(#[trigger] identifiers@[j]),
                    ),
            decreases identifiers.len() - i,
        {
            proof {
                assert(identifiers@.contains(identifiers@[i as int]));
            }
            let anchor = self.identifer_to_grid(identifiers[i]);
            if !self.contains(anchor) {
                return false;
            }
            i += 1;
        }
        proof {
            assert forall|identifier: PuzzleIdentifier| #[trigger]
                self@.layout.declares(identifier) implies self@.layout.in_grid(
                self@.layout.anchor(identifier),
            ) by {
                assert(identifiers@.contains(identifier));
                let j = choose|j: int| 0 <= j < identifiers@.len() && identifiers@[j] == identifier;
                assert(identifiers@[j] == identifier);
            }
        }
        true
    }

    /// Whether the position is a cell of the grid.
    pub fn contains(&self, position: GridPosition) -> (inside: bool)
        ensures
            inside == self@.layout.in_grid(position),
    {
        position.column < self.shared.num_columns() && position.row < self.shared.num_rows()
    }

    /// Lookup the identifer and convert it to an actual grid position
    pub fn identifer_to_grid(&self, identifier: PuzzleIdentifier) -> (anchor: GridPosition)
        requires
            self@.layout.declares(identifier),
        ensures
            anchor == self@.layout.anchor(identifier),
    {
        match self.shared.lookup(identifier) {
            Some(anchor) => anchor,
            None => GridPosition::new(0, 0),
        }
    }

    /// Convert grid position to index
    fn position_to_index(&self, position: GridPosition) -> (index: usize)
        requires
            self@.layout.in_grid(position),
        ensures
            index == self@.layout.index_of(position),
            index < self@.digits.len(),
    {
        proof {
            use_type_invariant(self);
            self@.layout.lemma_index_in_range(position);
            assert(self.digits@.len() == self.digits.len());
            assert(0 <= position.row * self@.layout.num_columns) by (nonlinear_arith);
        }
        position.column + (position.row * self.shared.num_columns())
    }

    /// Lookup digit at position
    pub fn digit_at(&self, position: GridPosition) -> (digit: Option<u8>)
        requires
            self@.layout.in_grid(position),
        ensures
            digit == self@.digit_at(position),
            digit is Some ==> digit->0 <= 9,
    {
        let digit_index = self.position_to_index(position);
        proof {
            use_type_invariant(self);
        }
        self.digits[digit_index]
    }

    /// Check if the position ahead of us in our direction is blocked
    pub fn is_direction_blocked(
        &self,
        position: GridPosition,
        direction: PuzzleDirection,
    ) -> (blocked: bool)
        requires
            self@.layout.in_grid(position),
        ensures
            blocked == self@.layout.blocked(position, direction),
    {
        self.shared.is_direction_blocked(position, direction)
    }

    /// Get the size of a field inside the puzzle
    pub fn size_of_field(&self, vector: IdentifierVector) -> (length: usize)
        requires
            self@.has_field(vector),
        ensures
            length == self@.field_length(vector),
            1 <= length <= MAX_FIELD_LENGTH,
    {
        // Convert identifer to actual grid position
        let mut position = self.identifer_to_grid(vector.identifier);
        proof {
            self@.lemma_field_on_grid(vector);
        }
        // Begin at current position and continue in the same direction until we hit a wall or the edge
        let mut i: usize = 0;
        loop
            invariant_except_break
                i < MAX_FIELD_LENGTH,
                i < self@.field_length(vector),
                position == self@.cell(vector, i as nat),
            invariant
                self@.has_field(vector),
            ensures
                i == self@.field_length(vector),
            decreases MAX_FIELD_LENGTH - i,
        {
            proof {
                self@.lemma_field_on_grid(vector);
            }
            i += 1;
            // Check if the path ahead of us is blocked
            if i == MAX_FIELD_LENGTH || self.is_direction_blocked(position, vector.direction) {
                // We cannot go any further
                break ;
            }
            // Increment row or column dependent on what direction we are travelling in
            match vector.direction {
                PuzzleDirection::Across => position.column += 1,
                PuzzleDirection::Down => position.row += 1,
            }
        }
        i
    }

    /// Get the digits at the identifier in the given direction
    pub fn digits_at(&self, vector: IdentifierVector) -> (cells: tinyvec::ArrayVec<
        [Option<u8>; 3],
    >)
        requires
            self@.has_field(vector),
        ensures
            run_cells(cells) == self@.digits_at(vector),
    {
        // Convert identifer to actual grid position
        let mut position = self.identifer_to_grid(vector.identifier);
        proof {
            self@.lemma_field_on_grid(vector);
        }
        // Begin at current position and continue in the same direction until we hit a wall or the edge
        let mut buffer = cells_new();
        let mut i: usize = 0;
        loop
            invariant_except_break
                i < MAX_FIELD_LENGTH,
                i < self@.field_length(vector),
                position == self@.cell(vector, i as nat),
                run_cells(buffer) == self@.digits_at(vector).subrange(0, i as int),
            invariant
                self@.has_field(vector),
            ensures
                run_cells(buffer) == self@.digits_at(vector),
            decreases MAX_FIELD_LENGTH - i,
        {
            proof {
                self@.lemma_field_on_grid(vector);
            }
            // Get digit at position
            let digit = self.digit_at(position);
            // Insert current digit
            cells_push(&mut buffer, digit);
            assert(run_cells(buffer) =~= self@.digits_at(vector).subrange(0, i + 1));
            i += 1;
            // Check if the path ahead of us is blocked
            if i == MAX_FIELD_LENGTH || self.is_direction_blocked(position, vector.direction) {
                // We cannot go any further
                assert(self@.digits_at(vector).subrange(0, i as int) =~= self@.digits_at(vector));
                break ;
            }
            // Increment row or column dependent on what direction we are travelling in
            match vector.direction {
                PuzzleDirection::Across => position.column += 1,
                PuzzleDirection::Down => position.row += 1,
            }
        }
        buffer
    }

    /// Get the number at a named position, returns None if the number has missing digits
    pub fn number_at(&self, vector: IdentifierVector) -> (number: Option<usize>)
        requires
            self@.has_field(vector),
        ensures
            number is Some <==> self@.number_at(vector) is Some,
            number is Some ==> number->0 == self@.number_at(vector)->0,
            number is Some ==> number->0 <= 999,
    {
        // Get the digits at the position
        let digits = self.digits_at(vector);
        let cells = cells_as_slice(&digits);
        let mut full_digits = digits_new();
        proof {
            use_type_invariant(self);
            self@.lemma_field_on_grid(vector);
            self@.lemma_cells_are_decimal(vector);
        }
        let mut i: usize = 0;
        while i < cells.len()
            invariant
                i <= cells.len(),
                cells@ == self@.digits_at(vector),
                cells@.len() <= MAX_FIELD_LENGTH,
                run_digits(full_digits).len() == i,
                forall|j: int|
                    0 <= j < i ==> cells@[j] == Some(#[trigger] run_digits(full_digits)[j]),
            decreases cells.len() - i,
        {
            match cells[i] {
                None => {
                    // This is not a complete field
                    return None;
                },
                Some(digit) => {
                    // Add this digit as it is valid
                    digits_push(&mut full_digits, digit);
                },
            }
            i += 1;
        }
        proof {
            assert forall|offset: int| 0 <= offset < self@.field_length(vector) implies (
            #[trigger] self@.digits_at(vector)[offset]) is Some by {
                assert(cells@[offset] == Some(run_digits(full_digits)[offset]));
            }
            assert forall|offset: int| 0 <= offset < self@.field_length(vector) implies (
            #[trigger] run_digits(full_digits)[offset]) == self@.filled_digits(vector)[offset] by {
                assert(cells@[offset] == Some(run_digits(full_digits)[offset]));
            }
            assert(run_digits(full_digits) =~= self@.filled_digits(vector));
            assert forall|offset: int| 0 <= offset < self@.field_length(vector) implies (
            #[trigger] self@.filled_digits(vector)[offset]) <= 9 by {
                assert(self@.digits_at(vector)[offset] is Some);
            }
            lemma_short_number_bound(self@.filled_digits(vector));
        }
        // Convert the digits to a number and return
        Some(Self::digits_to_number(digits_as_slice(&full_digits)))
    }

    /// Set the digits at the identifier in the given direction,
    fn set_digits_at(
        &self,
        cells: &mut Vec<Option<u8>>,
        vector: IdentifierVector,
        digits: &tinyvec::ArrayVec<[u8; 3]>,
    )
        requires
            self@.has_field(vector),
            old(cells)@ == self@.digits,
            run_digits(*digits).len() == self@.field_length(vector),
        ensures
            final(cells)@ == self@.overlay(vector, run_digits(*digits)).digits,
    {
        proof {
            use_type_invariant(self);
            self@.lemma_field_on_grid(vector);
        }
        let values = digits_as_slice(digits);
        // Convert identifer to actual grid position
        let mut position = self.identifer_to_grid(vector.identifier);
        // Begin at current position and continue in the same direction until we hit a wall or the edge
        let mut i: usize = 0;
        while i < values.len()
            invariant_except_break
                i < values.len() ==> position == self@.cell(vector, i as nat),
            invariant
                i <= values.len(),
                values@ == run_digits(*digits),
                values@.len() == self@.field_length(vector),
                self@.wf(),
                self@.has_field(vector),
                cells@ == self@.written(vector, values@, i as nat),
            ensures
                i == values.len(),
            decreases values.len() - i,
        {
            proof {
                self@.lemma_field_on_grid(vector);
                self@.lemma_written(vector, values@, i as nat);
            }
            // Convert position to index
            let digit_index = self.position_to_index(position);
            cells.set(digit_index, Some(values[i]));
            i += 1;
            // Check if the path ahead of us is blocked
            if self.is_direction_blocked(position, vector.direction) {
                // We cannot go any further
                break ;
            }
            // Increment row or column dependent on what direction we are travelling in
            match vector.direction {
                PuzzleDirection::Across => position.column += 1,
                PuzzleDirection::Down => position.row += 1,
            }
        }
    }

    /// A copy of the cells of the puzzle.
    fn copy_cells(&self) -> (cells: Vec<Option<u8>>)
        ensures
            cells@ == self@.digits,
    {
        let mut cells: Vec<Option<u8>> = Vec::new();
        let mut i: usize = 0;
        while i < self.digits.len()
            invariant
                i <= self.digits.len(),
                cells@ == self.digits@.subrange(0, i as int),
            decreases self.digits.len() - i,
        {
            cells.push(self.digits[i]);
            assert(cells@ =~= self.digits@.subrange(0, i + 1));
            i += 1;
        }
        assert(cells@ =~= self.digits@);
        cells
    }

    /// Check if a number can fit within a field
    fn can_digits_fit(
        &self,
        vector: IdentifierVector,
        num_digits: &tinyvec::ArrayVec<[u8; 3]>,
    ) -> (result: Result<(), FitError>)
        requires
            self@.has_field(vector),
        ensures
            result == self@.check(vector, run_digits(*num_digits)),
    {
        let values = digits_as_slice(num_digits);
        // Get the length of the field
        let field_length = self.size_of_field(vector);
        // Check if the number is too small to be stored
        if values.len() < field_length {
            return Err(FitError::TooSmall);
        }
        // Check if the number is too large to be stored
        if values.len() > field_length {
            return Err(FitError::TooLarge);
        }
        // Get the currently stored digits
        let current_digits = self.digits_at(vector);
        let cells = cells_as_slice(&current_digits);
        // Check if the digits match
        let mut i: usize = 0;
        while i < cells.len()
            invariant
                i <= cells.len(),
                cells@ == self@.digits_at(vector),
                values@ == run_digits(*num_digits),
                values@.len() == cells@.len(),
                forall|j: int|
                    0 <= j < i && (#[trigger] cells@[j]) is Some ==> cells@[j]->0 == values@[j],
            decreases cells.len() - i,
        {
            match cells[i] {
                None => {
                    // This slot is empty so we do not need to check anything
                },
                Some(digit) => {
                    if digit != values[i] {
                        return Err(FitError::DigitsDoNotMatch);
                    }
                },
            }
            i += 1;
        }
        Ok(())
    }

    /// Try and fit a number into a field, returns a new copy of the puzzle if the number fits
    pub fn try_fit_number(&self, vector: IdentifierVector, number: usize) -> (result: Result<
        Self,
        FitError,
    >)
        requires
            self@.has_field(vector),
        ensures
            match result {
                Ok(puzzle) => self@.fit(vector, number as nat) == Ok::<PuzzleView, FitError>(
                    puzzle@,
                ),
                Err(error) => self@.fit(vector, number as nat) == Err::<PuzzleView, FitError>(
                    error,
                ),
            },
    {
        proof {
            self@.lemma_field_on_grid(vector);
            lemma_digit_count(number as nat);
            lemma_digits_are_decimal(number as nat);
        }
        // A number of more than three digits is longer than any field
        if number >= 1000 {
            return Err(FitError::TooLarge);
        }
        // Convert the number into digits
        let num_digits = Self::number_to_digits(number);
        // Check if the number can fit
        match self.can_digits_fit(vector, &num_digits) {
            Err(error) => Err(error),
            Ok(_) => {
                // Apply digits as we do fit, to cells of our own so that
                // the receiver stays as it is
                let mut digits = self.copy_cells();
                self.set_digits_at(&mut digits, vector, &num_digits);
                proof {
                    use_type_invariant(self);
                    self@.lemma_fit_keeps_form(vector, number as nat);
                }
                Ok(Self { digits, shared: share_layout(&self.shared) })
            },
        }
    }

    /// Try and fit a set of numbers into a field, returns a new copy of the puzzle if all
    /// numbers in the set fit
    pub fn try_fit_numbers(&self, numbers: &[(IdentifierVector, usize)]) -> (result: Result<
        Self,
        FitError,
    >)
        requires
            self@.has_fields(numbers@),
        ensures
            match result {
                Ok(puzzle) => self@.fit_all(numbers@) == Ok::<PuzzleView, FitError>(puzzle@),
                Err(error) => self@.fit_all(numbers@) == Err::<PuzzleView, FitError>(error),
            },
    {
        // Then clone self so we can change the digits
        let mut new_puzzle = self.clone();
        assert(numbers@.skip(0) =~= numbers@);
        let mut i: usize = 0;
        while i < numbers.len()
            invariant
                i <= numbers.len(),
                self@.has_fields(numbers@),
                new_puzzle@.layout == self@.layout,
                new_puzzle@.fit_all(numbers@.skip(i as int)) == self@.fit_all(numbers@),
            decreases numbers.len() - i,
        {
            let (vector, number) = numbers[i];
            proof {
                assert(numbers@.skip(i as int)[0] == numbers@[i as int]);
                assert(numbers@.skip(i as int).skip(1) =~= numbers@.skip(i + 1));
                assert(self@.has_field(numbers@[i as int].0));
            }
            // Apply digits as we do fit
            match new_puzzle.try_fit_number(vector, number) {
                Ok(next) => {
                    new_puzzle = next;
                },
                Err(error) => {
                    return Err(error);
                },
            }
            i += 1;
        }
        Ok(new_puzzle)
    }

    /// Convert the provided number into digits, any extra digits are truncated
    pub fn number_to_digits(number: usize) -> (run: tinyvec::ArrayVec<[u8; 3]>)
        ensures
            run_digits(run) == leading_digits(number as nat),
    {
        let mut lead: usize = number;
        while lead >= 1000
            invariant
                leading_digits(lead as nat) == leading_digits(number as nat),
            decreases lead,
        {
            proof {
                lemma_leading_digits_of_tenth(lead as nat);
            }
            lead = lead / 10;
        }
        proof {
            lemma_digit_count(lead as nat);
            reveal_with_fuel(digits_of, 4);
        }
        // Begin with the most significant digit, which is placed at index 0
        let mut run = digits_new();
        if lead >= 100 {
            digits_push(&mut run, (lead / 100) as u8);
            digits_push(&mut run, ((lead / 10) % 10) as u8);
            digits_push(&mut run, (lead % 10) as u8);
            assert(run_digits(run) =~= digits_of(lead as nat));
        } else if lead >= 10 {
            digits_push(&mut run, (lead / 10) as u8);
            digits_push(&mut run, (lead % 10) as u8);
            assert(run_digits(run) =~= digits_of(lead as nat));
        } else {
            digits_push(&mut run, lead as u8);
            assert(run_digits(run) =~= digits_of(lead as nat));
        }
        run
    }

    /// Convert the provided digits into a number
    pub fn digits_to_number(digits: &[u8]) -> (number: usize)
        requires
            number_of(digits@) <= usize::MAX,
        ensures
            number == number_of(digits@),
    {
        let mut number: usize = 0;
        let mut i: usize = 0;
        while i < digits.len()
            invariant
                i <= digits.len(),
                number == number_of(digits@.subrange(0, i as int)),
                number_of(digits@) <= usize::MAX,
            decreases digits.len() - i,
        {
            proof {
                lemma_prefix_spells_less(digits@, i + 1);
                assert(digits@.subrange(0, i + 1).drop_last() =~= digits@.subrange(0, i as int));
            }
            number = number * 10 + digits[i] as usize;
            i += 1;
        }
        assert(digits@.subrange(0, i as int) =~= digits@);
        number
    }
}

impl Clone for Puzzle {
    /// A copy with cells of its own and the same shared layout.
    fn clone(&self) -> (copy: Self)
        ensures
            copy@ == self@,
    {
        proof {
            use_type_invariant(self);
        }
        Self { digits: self.copy_cells(), shared: share_layout(&self.shared) }
    }
}

impl PartialEq for Puzzle {
    /// Two puzzles are equal when their cells and their layouts are.
    fn eq(&self, other: &Self) -> (equal: bool) {
        if self.digits.len() != other.digits.len() {
            return false;
        }
        let mut i: usize = 0;
        while i < self.digits.len()
            invariant
                i <= self.digits.len(),
                self.digits.len() == other.digits.len(),
                self.digits@.subrange(0, i as int) == other.digits@.subrange(0, i as int),
            decreases self.digits.len() - i,
        {
            let same = match (self.digits[i], other.digits[i]) {
                (Some(a), Some(b)) => a == b,
                (None, None) => true,
                _ => false,
            };
            if !same {
                assert(self.digits@[i as int] != other.digits@[i as int]);
                return false;
            }
            assert(self.digits@.subrange(0, i + 1) =~= self.digits@.subrange(0, i as int).push(
                self.digits@[i as int],
            ));
            assert(other.digits@.subrange(0, i + 1) =~= other.digits@.subrange(0, i as int).push(
                other.digits@[i as int],
            ));
            i += 1;
        }
        assert(self.digits@.subrange(0, i as int) =~= self.digits@);
        assert(other.digits@.subrange(0, i as int) =~= other.digits@);
        self.shared.same_as(&other.shared)
    }
}

impl vstd::std_specs::cmp::PartialEqSpecImpl for Puzzle {
    open spec fn obeys_eq_spec() -> bool {
        true
    }

    open spec fn eq_spec(&self, other: &Self) -> bool {
        self@ == other@
    }
}

impl Eq for Puzzle {

}

/// Up to three decimal digits spell a number below a thousand.
pub proof fn lemma_short_number_bound(digits: Seq<u8>)
    requires
        digits.len() <= MAX_FIELD_LENGTH,
        forall|i: int| 0 <= i < digits.len() ==> #[trigger] digits[i] <= 9,
    ensures
        number_of(digits) <= 999,
{
    reveal_with_fuel(number_of, 4);
}

} // verus!
