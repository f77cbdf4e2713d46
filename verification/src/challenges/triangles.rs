//! The challenge of the triangles: a grid of six by four cells whose
//! fields hold the sides of triangles.

use vstd::prelude::*;

use crate::combinations::{lemma_pairs_of, pair_combinations, pairs_of};
use crate::puzzle::layout::{anchors_of, walls_of};
use crate::puzzle::position::{GridPosition, IdentifierVector, PuzzleDirection, PuzzleIdentifier};
use crate::puzzle::wall::WallDirection;
use crate::puzzle::Puzzle;
use crate::rules::triangles::pythagorean_triangle::PythagoreanTriangleRule;
use crate::rules::triangles::square::SumSquare;
use crate::rules::triangles::triangle_trio::OddCompositeCoprimeRule;

verus! {

/// The challenge of the triangles.
pub struct TrianglesChallenge;

/// The rules of the challenge, in the order in which they are applied.
pub struct TriangleRules {
    pub perimeter: OddCompositeCoprimeRule,
    pub left: PythagoreanTriangleRule,
    pub middle: PythagoreanTriangleRule,
    pub right: PythagoreanTriangleRule,
    pub squares: SumSquare,
}

/// The vector of an identifier read across.
pub open spec fn across(identifier: usize) -> IdentifierVector {
    IdentifierVector {
        identifier: PuzzleIdentifier(identifier),
        direction: PuzzleDirection::Across,
    }
}

/// The vector of an identifier read down.
pub open spec fn down(identifier: usize) -> IdentifierVector {
    IdentifierVector { identifier: PuzzleIdentifier(identifier), direction: PuzzleDirection::Down }
}

/// The anchor of an identifier at a column and a row.
pub open spec fn anchor_at(identifier: usize, column: usize, row: usize) -> (
    PuzzleIdentifier,
    GridPosition,
) {
    (PuzzleIdentifier(identifier), GridPosition { column, row })
}

/// A wall at a column and a row.
pub open spec fn wall_at(column: usize, row: usize, wall: WallDirection) -> (
    GridPosition,
    WallDirection,
) {
    (GridPosition { column, row }, wall)
}

/// The sum of the numbers of a list.
pub open spec fn sum_of(numbers: Seq<usize>) -> nat
    decreases numbers.len(),
{
    if numbers.len() == 0 {
        0
    } else {
        sum_of(numbers.drop_last()) + numbers.last() as nat
    }
}

/// The first numbers of a list sum to no more than the whole list.
pub proof fn lemma_sum_of_prefix(numbers: Seq<usize>, count: int)
    requires
        0 <= count <= numbers.len(),
    ensures
        sum_of(numbers.subrange(0, count)) <= sum_of(numbers),
    decreases numbers.len(),
{
    if count == numbers.len() {
        assert(numbers.subrange(0, count) =~= numbers);
    } else {
        lemma_sum_of_prefix(numbers.drop_last(), count);
        assert(numbers.drop_last().subrange(0, count) =~= numbers.subrange(0, count));
    }
}

/// How far two numbers are apart.
pub open spec fn distance(a: usize, b: usize) -> nat {
    if a <= b {
        (b - a) as nat
    } else {
        (a - b) as nat
    }
}

impl TrianglesChallenge {
    /// Where the fourteen identifiers of the grid stand.
    pub open spec fn anchors() -> Seq<(PuzzleIdentifier, GridPosition)> {
        seq![
            anchor_at(1, 0, 0),
            anchor_at(2, 2, 0),
            anchor_at(3, 3, 0),
            anchor_at(4, 4, 0),
            anchor_at(5, 5, 0),
            anchor_at(6, 0, 1),
            anchor_at(7, 1, 1),
            anchor_at(8, 3, 1),
            anchor_at(9, 4, 1),
            anchor_at(10, 0, 2),
            anchor_at(11, 2, 2),
            anchor_at(12, 5, 2),
            anchor_at(13, 0, 3),
            anchor_at(14, 3, 3),
        ]
    }

    /// Where the walls of the grid stand.
    pub open spec fn walls() -> Seq<(GridPosition, WallDirection)> {
        seq![
            wall_at(1, 0, WallDirection::Both),
            wall_at(3, 0, WallDirection::Right),
            wall_at(4, 0, WallDirection::Down),
            wall_at(0, 1, WallDirection::Down),
            wall_at(2, 1, WallDirection::Right),
            wall_at(5, 1, WallDirection::Down),
            wall_at(0, 2, WallDirection::Right),
            wall_at(1, 2, WallDirection::Right),
            wall_at(2, 2, WallDirection::Down),
            wall_at(3, 2, WallDirection::Both),
            wall_at(4, 2, WallDirection::Right),
            wall_at(2, 3, WallDirection::Right),
        ]
    }

    /// The grid of the challenge, every cell unset.
    pub fn puzzle() -> (puzzle: Puzzle)
        ensures
            puzzle@.wf(),
            puzzle@.layout.num_columns == 6,
            puzzle@.layout.num_rows == 4,
            puzzle@.layout.anchors == anchors_of(Self::anchors()),
            puzzle@.layout.walls == walls_of(Self::walls()),
            forall|i: int| 0 <= i < puzzle@.digits.len() ==> puzzle@.digits[i] is None,
    {
        let mut identifiers: Vec<(PuzzleIdentifier, GridPosition)> = Vec::new();
        identifiers.push((PuzzleIdentifier(1), GridPosition::new(0, 0)));
        identifiers.push((PuzzleIdentifier(2), GridPosition::new(2, 0)));
        identifiers.push((PuzzleIdentifier(3), GridPosition::new(3, 0)));
        identifiers.push((PuzzleIdentifier(4), GridPosition::new(4, 0)));
        identifiers.push((PuzzleIdentifier(5), GridPosition::new(5, 0)));
        identifiers.push((PuzzleIdentifier(6), GridPosition::new(0, 1)));
        identifiers.push((PuzzleIdentifier(7), GridPosition::new(1, 1)));
        identifiers.push((PuzzleIdentifier(8), GridPosition::new(3, 1)));
        identifiers.push((PuzzleIdentifier(9), GridPosition::new(4, 1)));
        identifiers.push((PuzzleIdentifier(10), GridPosition::new(0, 2)));
        identifiers.push((PuzzleIdentifier(11), GridPosition::new(2, 2)));
        identifiers.push((PuzzleIdentifier(12), GridPosition::new(5, 2)));
        identifiers.push((PuzzleIdentifier(13), GridPosition::new(0, 3)));
        identifiers.push((PuzzleIdentifier(14), GridPosition::new(3, 3)));
        let mut walls: Vec<(GridPosition, WallDirection)> = Vec::new();
        walls.push((GridPosition::new(1, 0), WallDirection::Both));
        walls.push((GridPosition::new(3, 0), WallDirection::Right));
        walls.push((GridPosition::new(4, 0), WallDirection::Down));
        walls.push((GridPosition::new(0, 1), WallDirection::Down));
        walls.push((GridPosition::new(2, 1), WallDirection::Right));
        walls.push((GridPosition::new(5, 1), WallDirection::Down));
        walls.push((GridPosition::new(0, 2), WallDirection::Right));
        walls.push((GridPosition::new(1, 2), WallDirection::Right));
        walls.push((GridPosition::new(2, 2), WallDirection::Down));
        walls.push((GridPosition::new(3, 2), WallDirection::Both));
        walls.push((GridPosition::new(4, 2), WallDirection::Right));
        walls.push((GridPosition::new(2, 3), WallDirection::Right));
        assert(identifiers@ =~= Self::anchors());
        assert(walls@ =~= Self::walls());
        // Create a new puzzle with the given rules
        Puzzle::new(6, 4, identifiers, walls)
    }

    /// The rules of the challenge: the sides of the triangle with the
    /// triangular perimeter, the three Pythagorean triangles, and the two
    /// numbers that sum to a square.
    pub fn rules() -> (rules: TriangleRules)
        ensures
            rules.perimeter.0@ == seq![across(1), across(2), across(4)],
            rules.left.0@ == seq![across(11), down(10), down(12)],
            rules.middle.0@ == seq![across(13), down(7), down(1)],
            rules.right.0@ == seq![across(14), down(9), down(5)],
            rules.squares.0@ == seq![down(2), down(3)],
    {
        let rules = TriangleRules {
            perimeter: OddCompositeCoprimeRule(Self::perimeter_vectors()),
            left: PythagoreanTriangleRule(
                [
                    IdentifierVector::new(PuzzleIdentifier(11), PuzzleDirection::Across),
                    IdentifierVector::new(PuzzleIdentifier(10), PuzzleDirection::Down),
                    IdentifierVector::new(PuzzleIdentifier(12), PuzzleDirection::Down),
                ],
            ),
            middle: PythagoreanTriangleRule(
                [
                    IdentifierVector::new(PuzzleIdentifier(13), PuzzleDirection::Across),
                    IdentifierVector::new(PuzzleIdentifier(7), PuzzleDirection::Down),
                    IdentifierVector::new(PuzzleIdentifier(1), PuzzleDirection::Down),
                ],
            ),
            right: PythagoreanTriangleRule(
                [
                    IdentifierVector::new(PuzzleIdentifier(14), PuzzleDirection::Across),
                    IdentifierVector::new(PuzzleIdentifier(9), PuzzleDirection::Down),
                    IdentifierVector::new(PuzzleIdentifier(5), PuzzleDirection::Down),
                ],
            ),
            squares: SumSquare(
                [
                    IdentifierVector::new(PuzzleIdentifier(2), PuzzleDirection::Down),
                    IdentifierVector::new(PuzzleIdentifier(3), PuzzleDirection::Down),
                ],
            ),
        };
        assert(rules.left.0@ =~= seq![across(11), down(10), down(12)]);
        assert(rules.middle.0@ =~= seq![across(13), down(7), down(1)]);
        assert(rules.right.0@ =~= seq![across(14), down(9), down(5)]);
        assert(rules.squares.0@ =~= seq![down(2), down(3)]);
        rules
    }

    /// The fields whose numbers are the sides of the triangle with the
    /// triangular perimeter.
    pub fn perimeter_vectors() -> (vectors: [IdentifierVector; 3])
        ensures
            vectors@ == seq![across(1), across(2), across(4)],
    {
        let vectors = [
            IdentifierVector::new(PuzzleIdentifier(1), PuzzleDirection::Across),
            IdentifierVector::new(PuzzleIdentifier(2), PuzzleDirection::Across),
            IdentifierVector::new(PuzzleIdentifier(4), PuzzleDirection::Across),
        ];
        assert(vectors@ =~= seq![across(1), across(2), across(4)]);
        vectors
    }

    /// The fields that are read across.
    pub fn across_clues() -> (vectors: [IdentifierVector; 8])
        ensures
            vectors@ == seq![
                across(1),
                across(2),
                across(4),
                across(6),
                across(8),
                across(11),
                across(13),
                across(14),
            ],
    {
        let vectors = [
            IdentifierVector::new(PuzzleIdentifier(1), PuzzleDirection::Across),
            IdentifierVector::new(PuzzleIdentifier(2), PuzzleDirection::Across),
            IdentifierVector::new(PuzzleIdentifier(4), PuzzleDirection::Across),
            IdentifierVector::new(PuzzleIdentifier(6), PuzzleDirection::Across),
            IdentifierVector::new(PuzzleIdentifier(8), PuzzleDirection::Across),
            IdentifierVector::new(PuzzleIdentifier(11), PuzzleDirection::Across),
            IdentifierVector::new(PuzzleIdentifier(13), PuzzleDirection::Across),
            IdentifierVector::new(PuzzleIdentifier(14), PuzzleDirection::Across),
        ];
        assert(vectors@ =~= seq![
            across(1),
            across(2),
            across(4),
            across(6),
            across(8),
            across(11),
            across(13),
            across(14),
        ]);
        vectors
    }

    /// The fields that are read down.
    pub fn down_clues() -> (vectors: [IdentifierVector; 8])
        ensures
            vectors@ == seq![
                down(10),
                down(12),
                down(7),
                down(1),
                down(9),
                down(5),
                down(2),
                down(3),
            ],
    {
        let vectors = [
            IdentifierVector::new(PuzzleIdentifier(10), PuzzleDirection::Down),
            IdentifierVector::new(PuzzleIdentifier(12), PuzzleDirection::Down),
            IdentifierVector::new(PuzzleIdentifier(7), PuzzleDirection::Down),
            IdentifierVector::new(PuzzleIdentifier(1), PuzzleDirection::Down),
            IdentifierVector::new(PuzzleIdentifier(9), PuzzleDirection::Down),
            IdentifierVector::new(PuzzleIdentifier(5), PuzzleDirection::Down),
            IdentifierVector::new(PuzzleIdentifier(2), PuzzleDirection::Down),
            IdentifierVector::new(PuzzleIdentifier(3), PuzzleDirection::Down),
        ];
        assert(vectors@ =~= seq![
            down(10),
            down(12),
            down(7),
            down(1),
            down(9),
            down(5),
            down(2),
            down(3),
        ]);
        vectors
    }

    /// The numbers of the fields, in their order; nothing where a field is
    /// not filled.
    pub fn numbers_of(puzzle: &Puzzle, vectors: &[IdentifierVector]) -> (numbers: Option<Vec<usize>>)
        requires
            forall|i: int| 0 <= i < vectors@.len() ==> puzzle@.has_field(#[trigger] vectors@[i]),
        ensures
            numbers is Some <==> forall|i: int|
                0 <= i < vectors@.len() ==> puzzle@.number_at(#[trigger] vectors@[i]) is Some,
            numbers matches Some(list) ==> list@.len() == vectors@.len() && forall|i: int|
                0 <= i < vectors@.len() ==> puzzle@.number_at(vectors@[i]) == Some(
                    #[trigger] list@[i] as nat,
                ) && list@[i] <= 999,
    {
        let mut numbers: Vec<usize> = Vec::new();
        let mut i: usize = 0;
        while i < vectors.len()
            invariant
                i <= vectors.len(),
                numbers@.len() == i,
                forall|j: int| 0 <= j < vectors@.len() ==> puzzle@.has_field(#[trigger] vectors@[j]),
                forall|j: int|
                    0 <= j < i ==> puzzle@.number_at(vectors@[j]) == Some(
                        #[trigger] numbers@[j] as nat,
                    ) && numbers@[j] <= 999,
            decreases vectors.len() - i,
        {
            match puzzle.number_at(vectors[i]) {
                Some(number) => {
                    numbers.push(number);
                },
                None => {
                    return None;
                },
            }
            i += 1;
        }
        proof {
            assert forall|j: int| 0 <= j < vectors@.len() implies puzzle@.number_at(
                #[trigger] vectors@[j],
            ) is Some by {
                assert(puzzle@.number_at(vectors@[j]) == Some(numbers@[j] as nat));
            }
        }
        Some(numbers)
    }

    /// Whether no number occurs twice in the list.
    pub fn all_different(numbers: &[usize]) -> (different: bool)
        ensures
            different == numbers@.no_duplicates(),
    {
        proof {
            lemma_pairs_of(numbers@);
        }
        let pairs = pair_combinations(numbers);
        let mut k: usize = 0;
        while k < pairs.len()
            invariant
                k <= pairs.len(),
                pairs@ == pairs_of(numbers@),
                forall|n: int| 0 <= n < k ==> (#[trigger] pairs@[n]).0 != pairs@[n].1,
            decreases pairs.len() - k,
        {
            let (number_a, number_b) = pairs[k];
            if number_a == number_b {
                proof {
                    lemma_pairs_of(numbers@);
                    assert(pairs_of(numbers@).contains((number_a, number_b)));
                    let (i, j) = choose|i: int, j: int|
                        0 <= i < j < numbers@.len() && numbers@[i] == number_a && numbers@[j]
                            == number_b;
                    assert(numbers@[i] == numbers@[j]);
                }
                return false;
            }
            k += 1;
        }
        proof {
            assert forall|i: int, j: int|
                0 <= i < numbers@.len() && 0 <= j < numbers@.len() && i != j implies numbers@[i]
                != numbers@[j] by {
                let (low, high) = if i < j {
                    (i, j)
                } else {
                    (j, i)
                };
                assert(pairs@.contains((numbers@[low], numbers@[high])));
                let n = choose|n: int|
                    0 <= n < pairs@.len() && pairs@[n] == (numbers@[low], numbers@[high]);
                assert(pairs@[n].0 != pairs@[n].1);
            }
        }
        true
    }

    /// The sum of the numbers.
    pub fn sum(numbers: &[usize]) -> (total: usize)
        requires
            sum_of(numbers@) <= usize::MAX,
        ensures
            total == sum_of(numbers@),
    {
        let mut total: usize = 0;
        let mut i: usize = 0;
        while i < numbers.len()
            invariant
                i <= numbers.len(),
                sum_of(numbers@) <= usize::MAX,
                total == sum_of(numbers@.subrange(0, i as int)),
            decreases numbers.len() - i,
        {
            proof {
                assert(numbers@.subrange(0, i + 1).drop_last() =~= numbers@.subrange(0, i as int));
                lemma_sum_of_prefix(numbers@, i + 1);
            }
            total += numbers[i];
            i += 1;
        }
        proof {
            assert(numbers@.subrange(0, i as int) =~= numbers@);
        }
        total
    }

    /// The places of the pairs of numbers that are `apart` apart, the
    /// earlier place first, in the order of the places.
    pub fn places_apart(numbers: &[usize], apart: usize) -> (places: Vec<(usize, usize)>)
        ensures
            forall|i: usize, j: usize|
                places@.contains((i, j)) <==> i < j < numbers@.len() && distance(
                    numbers@[i as int],
                    numbers@[j as int],
                ) == apart,
            forall|m: int, n: int|
                0 <= m < n < places@.len() ==> places@[m].0 < places@[n].0 || (places@[m].0
                    == places@[n].0 && places@[m].1 < places@[n].1),
    {
        let mut places: Vec<(usize, usize)> = Vec::new();
        let mut i: usize = 0;
        while i < numbers.len()
            invariant
                i <= numbers.len(),
                forall|a: usize, b: usize|
                    places@.contains((a, b)) <==> a < i && a < b < numbers@.len() && distance(
                        numbers@[a as int],
                        numbers@[b as int],
                    ) == apart,
                forall|m: int, n: int|
                    0 <= m < n < places@.len() ==> places@[m].0 < places@[n].0 || (places@[m].0
                        == places@[n].0 && places@[m].1 < places@[n].1),
            decreases numbers.len() - i,
        {
            let mut j: usize = i + 1;
            while j < numbers.len()
                invariant
                    i < numbers.len(),
                    i < j <= numbers.len(),
                    forall|a: usize, b: usize|
                        places@.contains((a, b)) <==> a < b < numbers@.len() && distance(
                            numbers@[a as int],
                            numbers@[b as int],
                        ) == apart && (a < i || (a == i && b < j)),
                    forall|m: int, n: int|
                        0 <= m < n < places@.len() ==> places@[m].0 < places@[n].0 || (
                        places@[m].0 == places@[n].0 && places@[m].1 < places@[n].1),
                decreases numbers.len() - j,
            {
                let number_a = numbers[i];
                let number_b = numbers[j];
                let gap = if number_a <= number_b {
                    number_b - number_a
                } else {
                    number_a - number_b
                };
                let ghost before = places@;
                if gap == apart {
                    places.push((i, j));
                }
                proof {
                    assert forall|a: usize, b: usize|
                        places@.contains((a, b)) <==> a < b < numbers@.len() && distance(
                            numbers@[a as int],
                            numbers@[b as int],
                        ) == apart && (a < i || (a == i && b < j + 1)) by {
                        if places@.contains((a, b)) {
                            let n = choose|n: int| 0 <= n < places@.len() && places@[n] == (a, b);
                            if n < before.len() {
                                assert(before[n] == (a, b));
                                assert(before.contains((a, b)));
                            }
                        }
                        if a < b < numbers@.len() && distance(
                            numbers@[a as int],
                            numbers@[b as int],
                        ) == apart && (a < i || (a == i && b < j + 1)) {
                            if a == i && b == j {
                                assert(places@[before.len() as int] == (a, b));
                            } else {
                                assert(before.contains((a, b)));
                                let n = choose|n: int| 0 <= n < before.len() && before[n] == (a, b);
                                assert(places@[n] == (a, b));
                            }
                        }
                    }
                    assert forall|m: int, n: int| 0 <= m < n < places@.len() implies places@[m].0
                        < places@[n].0 || (places@[m].0 == places@[n].0 && places@[m].1
                        < places@[n].1) by {
                        if n == before.len() {
                            assert(before[m] == places@[m]);
                            assert(before.contains((places@[m].0, places@[m].1)));
                        } else {
                            assert(before[m] == places@[m] && before[n] == places@[n]);
                        }
                    }
                }
                j += 1;
            }
            i += 1;
        }
        places
    }
}

} // verus!
