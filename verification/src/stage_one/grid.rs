//! A grid of nine digits, read off the decimal digits of a number.

use vstd::prelude::*;

verus! {

/// The number of cells of the grid.
pub const NUM_OF_ELEMENTS: usize = 9;

/// Ten to the power of the exponent.
pub open spec fn power_of_ten(exponent: nat) -> nat
    decreases exponent,
{
    if exponent == 0 {
        1
    } else {
        10 * power_of_ten((exponent - 1) as nat)
    }
}

/// The decimal digit of a number at a position, the ones at position 0.
pub open spec fn digit_of(number: nat, position: nat) -> nat {
    (number / power_of_ten(position)) % 10
}

/// The powers of ten up to the ninth.
pub proof fn lemma_powers_of_ten()
    ensures
        power_of_ten(0) == 1,
        power_of_ten(1) == 10,
        power_of_ten(2) == 100,
        power_of_ten(3) == 1_000,
        power_of_ten(4) == 10_000,
        power_of_ten(5) == 100_000,
        power_of_ten(6) == 1_000_000,
        power_of_ten(7) == 10_000_000,
        power_of_ten(8) == 100_000_000,
        power_of_ten(9) == 1_000_000_000,
{
    reveal_with_fuel(power_of_ten, 11);
}

/// Ten to the power of the exponent, for the exponents that fit 32 bits.
fn ten_to_the(exponent: u8) -> (power: u32)
    requires
        exponent <= 9,
    ensures
        power == power_of_ten(exponent as nat),
{
    proof {
        lemma_powers_of_ten();
    }
    let mut power: u32 = 1;
    let mut done: u8 = 0;
    while done < exponent
        invariant
            done <= exponent <= 9,
            power == power_of_ten(done as nat),
            power <= 100_000_000 || done == 9,
        decreases exponent - done,
    {
        proof {
            lemma_powers_of_ten();
            reveal_with_fuel(power_of_ten, 2);
            assert(done <= 8);
            if done == 8 {
            } else {
                assert(power_of_ten(done as nat) <= 10_000_000) by {
                    lemma_powers_of_ten();
                    assert(done == 0 || done == 1 || done == 2 || done == 3 || done == 4 || done == 5
                        || done == 6 || done == 7);
                }
            }
        }
        power = power * 10;
        done += 1;
    }
    power
}

/// Nine digits in three rows of three.
#[derive(Debug)]
pub struct Grid(pub [u8; 9]);

impl View for Grid {
    type V = Seq<u8>;

    open spec fn view(&self) -> Seq<u8> {
        self.0@
    }
}

impl Grid {
    /// Convert the index to a digit within the grid
    fn index_to_digit(index: u32, digit_position: u8) -> (digit: u8)
        requires
            digit_position <= 9,
        ensures
            digit == digit_of(index as nat, digit_position as nat),
    {
        let divisor = ten_to_the(digit_position);
        proof {
            lemma_powers_of_ten();
            assert(divisor >= 1) by {
                assert(digit_position == 0 || digit_position == 1 || digit_position == 2
                    || digit_position == 3 || digit_position == 4 || digit_position == 5
                    || digit_position == 6 || digit_position == 7 || digit_position == 8
                    || digit_position == 9);
            }
        }
        ((index / divisor) % 10) as u8
    }

    /// Get the max number of possible forms the grid can be expressed as
    pub fn max_permutations() -> (count: u32)
        ensures
            count == power_of_ten(NUM_OF_ELEMENTS as nat),
            count == 1_000_000_000,
    {
        proof {
            lemma_powers_of_ten();
        }
        ten_to_the(9)
    }

    /// Get the row of the grid at an index
    pub fn row(&self, index: usize) -> (row: [u8; 3])
        requires
            index < 3,
        ensures
            row@ == self@.subrange(3 * index as int, 3 * index + 3),
    {
        let start = index * 3;
        let row = [self.0[start], self.0[start + 1], self.0[start + 2]];
        assert(row@ =~= self@.subrange(3 * index as int, 3 * index + 3));
        row
    }

    /// Get the column of the grid at an index
    pub fn column(&self, index: usize) -> (column: [u8; 3])
        requires
            index < 3,
        ensures
            column@ == seq![self@[index as int], self@[index + 3], self@[index + 6]],
    {
        let first = self.0[index];
        let second = self.0[index + 3];
        let third = self.0[index + 6];
        let column = [first, second, third];
        assert(column@ =~= seq![self@[index as int], self@[index + 3], self@[index + 6]]);
        column
    }

    /// The grid whose cell at each place holds the decimal digit of the
    /// number at that position, the ones first.
    pub fn new(init_sequence: u32) -> (grid: Self)
        ensures
            forall|i: int|
                0 <= i < NUM_OF_ELEMENTS ==> #[trigger] grid@[i] == digit_of(
                    init_sequence as nat,
                    i as nat,
                ),
    {
        // Convert code into a grid of numbers
        let mut digits: [u8; 9] = [0, 0, 0, 0, 0, 0, 0, 0, 0];
        let mut i: usize = 0;
        while i < NUM_OF_ELEMENTS
            invariant
                i <= NUM_OF_ELEMENTS,
                forall|j: int|
                    0 <= j < i ==> #[trigger] digits@[j] == digit_of(init_sequence as nat, j as nat),
            decreases NUM_OF_ELEMENTS - i,
        {
            digits[i] = Self::index_to_digit(init_sequence, i as u8);
            i += 1;
        }
        Self(digits)
    }
}

} // verus!
