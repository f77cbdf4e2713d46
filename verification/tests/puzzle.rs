use std::iter;

use the_finale::puzzle::position::{
    GridPosition, IdentifierVector, PuzzleDirection, PuzzleIdentifier,
};
use the_finale::puzzle::wall::WallDirection;
use the_finale::puzzle::{FitError, Puzzle};
use tinyvec::ArrayVec;

fn create_puzzle() -> Puzzle {
    Puzzle::new(
        6,
        4,
        vec![
            (PuzzleIdentifier(1), GridPosition::new(0, 0)),
            (PuzzleIdentifier(2), GridPosition::new(2, 0)),
            (PuzzleIdentifier(3), GridPosition::new(3, 0)),
            (PuzzleIdentifier(4), GridPosition::new(4, 0)),
            (PuzzleIdentifier(5), GridPosition::new(5, 0)),
            (PuzzleIdentifier(6), GridPosition::new(0, 1)),
            (PuzzleIdentifier(7), GridPosition::new(1, 1)),
            (PuzzleIdentifier(8), GridPosition::new(3, 1)),
            (PuzzleIdentifier(9), GridPosition::new(4, 1)),
            (PuzzleIdentifier(10), GridPosition::new(0, 2)),
            (PuzzleIdentifier(11), GridPosition::new(2, 2)),
            (PuzzleIdentifier(12), GridPosition::new(5, 2)),
            (PuzzleIdentifier(13), GridPosition::new(0, 3)),
            (PuzzleIdentifier(14), GridPosition::new(3, 3)),
        ],
        vec![
            (GridPosition::new(1, 0), WallDirection::Both),
            (GridPosition::new(3, 0), WallDirection::Right),
            (GridPosition::new(4, 0), WallDirection::Down),
            (GridPosition::new(0, 1), WallDirection::Down),
            (GridPosition::new(2, 1), WallDirection::Right),
            (GridPosition::new(5, 1), WallDirection::Down),
            (GridPosition::new(0, 2), WallDirection::Right),
            (GridPosition::new(1, 2), WallDirection::Right),
            (GridPosition::new(2, 2), WallDirection::Down),
            (GridPosition::new(3, 2), WallDirection::Both),
            (GridPosition::new(4, 2), WallDirection::Right),
            (GridPosition::new(2, 3), WallDirection::Right),
        ],
    )
}

fn across(identifier: usize) -> IdentifierVector {
    IdentifierVector::new(PuzzleIdentifier(identifier), PuzzleDirection::Across)
}

fn down(identifier: usize) -> IdentifierVector {
    IdentifierVector::new(PuzzleIdentifier(identifier), PuzzleDirection::Down)
}

fn all_cells(puzzle: &Puzzle) -> Vec<Option<u8>> {
    let mut cells = Vec::new();
    for row in 0..puzzle.num_rows() {
        for column in 0..puzzle.num_columns() {
            cells.push(puzzle.digit_at(GridPosition::new(column, row)));
        }
    }
    cells
}

#[test]
fn test_try_fit() -> Result<(), FitError> {
    let puzzle = create_puzzle();

    let across_vector = IdentifierVector {
        identifier: PuzzleIdentifier(13),
        direction: PuzzleDirection::Across,
    };

    let down_vector = IdentifierVector {
        identifier: PuzzleIdentifier(7),
        direction: PuzzleDirection::Down,
    };

    let puzzle = puzzle.try_fit_number(down_vector, 123)?;

    puzzle
        .try_fit_number(across_vector, 456)
        .expect_err("This should not be possible");

    assert_eq!(puzzle.digit_at(GridPosition::new(1, 3)), Some(3));

    Ok(())
}

#[test]
fn test_digit_conversion() {
    let mut expected = ArrayVec::<[u8; 3]>::new();
    expected.push(7);
    expected.push(8);
    expected.push(9);
    assert_eq!(Puzzle::number_to_digits(789), expected);

    assert_eq!(Puzzle::digits_to_number(&[1, 2, 3]), 123);
}

#[test]
fn test_digits() {
    let mut puzzle = create_puzzle();

    let test_identifiers =
        [1, 2, 4, 6, 8, 11, 13, 14].map(|identifier| PuzzleIdentifier(identifier));

    let mut i = 100;
    let mut sequence = iter::repeat_with(|| {
        let tmp = i;
        i += 1;
        tmp
    });

    for identifier in test_identifiers {
        let grid_vector = IdentifierVector::new(identifier, PuzzleDirection::Across);

        let field_length = puzzle.size_of_field(grid_vector);

        let result = puzzle.try_fit_number(grid_vector, sequence.next().unwrap());

        if field_length == 2 {
            puzzle = puzzle.try_fit_number(grid_vector, 99).unwrap()
        } else {
            assert!(result.is_ok());
            puzzle = result.unwrap();
        }
    }

    for identifier in test_identifiers {
        let grid_vector = IdentifierVector::new(identifier, PuzzleDirection::Across);

        let field_length = puzzle.size_of_field(grid_vector);

        let digits = puzzle.digits_at(grid_vector);
        let filled_digit_count = digits.iter().filter(|x| x.is_some()).count();

        assert_eq!(filled_digit_count, field_length);
    }
}

#[test]
fn new_puzzle_is_unset() {
    let puzzle = create_puzzle();
    assert_eq!(puzzle.num_columns(), 6);
    assert_eq!(puzzle.num_rows(), 4);
    assert_eq!(all_cells(&puzzle), vec![None; 24]);
    assert_eq!(puzzle.number_at(across(1)), None);
}

#[test]
fn identifiers_are_listed_once() {
    let puzzle = create_puzzle();
    let mut identifiers: Vec<usize> = puzzle.identifers().into_iter().map(|i| i.0).collect();
    identifiers.sort();
    assert_eq!(identifiers, (1..=14).collect::<Vec<usize>>());
    assert!(puzzle.has_identifier(PuzzleIdentifier(14)));
    assert!(!puzzle.has_identifier(PuzzleIdentifier(15)));
    assert_eq!(puzzle.identifer_to_grid(PuzzleIdentifier(11)), GridPosition::new(2, 2));
}

#[test]
fn later_anchor_and_wall_replace_earlier() {
    let puzzle = Puzzle::new(
        4,
        1,
        vec![
            (PuzzleIdentifier(1), GridPosition::new(0, 0)),
            (PuzzleIdentifier(1), GridPosition::new(1, 0)),
        ],
        vec![
            (GridPosition::new(1, 0), WallDirection::Right),
            (GridPosition::new(1, 0), WallDirection::Down),
        ],
    );
    assert_eq!(puzzle.identifers().len(), 1);
    assert_eq!(puzzle.identifer_to_grid(PuzzleIdentifier(1)), GridPosition::new(1, 0));
    // the wall that stands at (1, 0) blocks downwards only
    assert!(!puzzle.is_direction_blocked(GridPosition::new(1, 0), PuzzleDirection::Across));
    assert_eq!(puzzle.size_of_field(across(1)), 3);
}

#[test]
fn has_field_needs_an_anchor_on_the_grid() {
    let puzzle = Puzzle::new(
        2,
        2,
        vec![
            (PuzzleIdentifier(1), GridPosition::new(1, 1)),
            (PuzzleIdentifier(2), GridPosition::new(2, 0)),
        ],
        vec![],
    );
    assert!(puzzle.has_field(across(1)));
    assert!(!puzzle.has_field(across(2)));
    assert!(!puzzle.has_field(across(3)));
    assert!(puzzle.contains(GridPosition::new(1, 1)));
    assert!(!puzzle.contains(GridPosition::new(0, 2)));
}

#[test]
fn field_length_counts_cells_to_wall_or_edge() {
    let puzzle = create_puzzle();
    // (0,0) (1,0) then a wall
    assert_eq!(puzzle.size_of_field(across(1)), 2);
    // (2,0) (3,0) then a wall to the right
    assert_eq!(puzzle.size_of_field(across(2)), 2);
    // (4,0) (5,0) then the edge
    assert_eq!(puzzle.size_of_field(across(4)), 2);
    // (5,0) and the edge at once
    assert_eq!(puzzle.size_of_field(across(5)), 1);
    // three cells without a wall
    assert_eq!(puzzle.size_of_field(across(6)), 3);
    assert_eq!(puzzle.size_of_field(down(7)), 3);
    assert_eq!(puzzle.size_of_field(across(13)), 3);
    // the wall under (4,0) stops a run downwards at its first cell
    assert_eq!(puzzle.size_of_field(down(4)), 1);
    // (0,2) (0,3) then the edge
    assert_eq!(puzzle.size_of_field(down(10)), 2);
    // a wall to the right does not stop a run downwards
    assert_eq!(puzzle.size_of_field(down(3)), 3);
}

#[test]
fn field_length_is_capped_at_three() {
    let puzzle = Puzzle::new(6, 5, vec![(PuzzleIdentifier(1), GridPosition::new(0, 0))], vec![]);
    assert_eq!(puzzle.size_of_field(across(1)), 3);
    assert_eq!(puzzle.size_of_field(down(1)), 3);
}

#[test]
fn walls_block_their_directions() {
    assert!(WallDirection::Right.is_blocked(PuzzleDirection::Across));
    assert!(!WallDirection::Right.is_blocked(PuzzleDirection::Down));
    assert!(!WallDirection::Down.is_blocked(PuzzleDirection::Across));
    assert!(WallDirection::Down.is_blocked(PuzzleDirection::Down));
    assert!(WallDirection::Both.is_blocked(PuzzleDirection::Across));
    assert!(WallDirection::Both.is_blocked(PuzzleDirection::Down));
}

#[test]
fn direction_is_blocked_by_wall_or_edge() {
    let puzzle = create_puzzle();
    assert!(puzzle.is_direction_blocked(GridPosition::new(1, 0), PuzzleDirection::Across));
    assert!(puzzle.is_direction_blocked(GridPosition::new(1, 0), PuzzleDirection::Down));
    assert!(!puzzle.is_direction_blocked(GridPosition::new(0, 0), PuzzleDirection::Across));
    assert!(puzzle.is_direction_blocked(GridPosition::new(5, 3), PuzzleDirection::Across));
    assert!(puzzle.is_direction_blocked(GridPosition::new(5, 3), PuzzleDirection::Down));
    assert!(!puzzle.is_direction_blocked(GridPosition::new(5, 2), PuzzleDirection::Down));
}

#[test]
fn fit_places_the_number_and_leaves_the_rest() {
    let puzzle = create_puzzle();
    let fitted = puzzle.try_fit_number(down(7), 123).unwrap();
    assert_eq!(fitted.number_at(down(7)), Some(123));
    assert_eq!(fitted.digit_at(GridPosition::new(1, 1)), Some(1));
    assert_eq!(fitted.digit_at(GridPosition::new(1, 2)), Some(2));
    assert_eq!(fitted.digit_at(GridPosition::new(1, 3)), Some(3));
    let cells = all_cells(&fitted);
    for (index, cell) in cells.iter().enumerate() {
        if index != 7 && index != 13 && index != 19 {
            assert_eq!(*cell, None);
        }
    }
    // the receiver is as it was
    assert_eq!(all_cells(&puzzle), vec![None; 24]);
    let cells_of_field: Vec<Option<u8>> = fitted.digits_at(down(7)).iter().copied().collect();
    assert_eq!(cells_of_field, vec![Some(1), Some(2), Some(3)]);
}

#[test]
fn fit_is_idempotent() {
    let puzzle = create_puzzle();
    let once = puzzle.try_fit_number(across(13), 456).unwrap();
    let twice = once.try_fit_number(across(13), 456).unwrap();
    assert!(once == twice);
    assert_eq!(all_cells(&once), all_cells(&twice));
    assert!(puzzle != once);
}

#[test]
fn fit_detects_conflicts() {
    let puzzle = create_puzzle();
    let fitted = puzzle.try_fit_number(across(13), 456).unwrap();
    assert_eq!(
        fitted.try_fit_number(across(13), 457).unwrap_err(),
        FitError::DigitsDoNotMatch
    );
    assert_eq!(
        fitted.try_fit_number(across(13), 956).unwrap_err(),
        FitError::DigitsDoNotMatch
    );
    // 7 down ends in the second cell of 13 across
    assert_eq!(
        fitted.try_fit_number(down(7), 123).unwrap_err(),
        FitError::DigitsDoNotMatch
    );
    let crossed = fitted.try_fit_number(down(7), 125).unwrap();
    assert_eq!(crossed.number_at(down(7)), Some(125));
    assert_eq!(crossed.number_at(across(13)), Some(456));
}

#[test]
fn fit_rejects_wrong_lengths() {
    let puzzle = create_puzzle();
    assert_eq!(puzzle.try_fit_number(across(13), 45).unwrap_err(), FitError::TooSmall);
    assert_eq!(puzzle.try_fit_number(across(13), 0).unwrap_err(), FitError::TooSmall);
    assert_eq!(puzzle.try_fit_number(across(1), 456).unwrap_err(), FitError::TooLarge);
    assert_eq!(puzzle.try_fit_number(across(5), 10).unwrap_err(), FitError::TooLarge);
    // a number of four digits is not cut down to three
    assert_eq!(puzzle.try_fit_number(across(13), 1234).unwrap_err(), FitError::TooLarge);
    assert_eq!(puzzle.try_fit_number(across(1), 1234).unwrap_err(), FitError::TooLarge);
    assert_eq!(
        puzzle.try_fit_number(across(13), usize::MAX).unwrap_err(),
        FitError::TooLarge
    );
    // the length is looked at before the digits
    let fitted = puzzle.try_fit_number(across(13), 456).unwrap();
    assert_eq!(fitted.try_fit_number(across(13), 99).unwrap_err(), FitError::TooSmall);
}

#[test]
fn fit_accepts_zeros_inside_a_number() {
    let puzzle = create_puzzle();
    let fitted = puzzle.try_fit_number(across(13), 100).unwrap();
    assert_eq!(fitted.number_at(across(13)), Some(100));
    assert_eq!(fitted.digit_at(GridPosition::new(1, 3)), Some(0));
}

#[test]
fn single_cell_field_takes_every_digit() {
    let puzzle = Puzzle::new(6, 4, vec![(PuzzleIdentifier(1), GridPosition::new(5, 0))], vec![]);
    assert_eq!(puzzle.size_of_field(across(1)), 1);
    for digit in 0..=9usize {
        let fitted = puzzle.try_fit_number(across(1), digit).unwrap();
        assert_eq!(fitted.digit_at(GridPosition::new(5, 0)), Some(digit as u8));
        assert_eq!(fitted.number_at(across(1)), Some(digit));
    }
}

#[test]
fn fit_numbers_applies_all_or_nothing() {
    let puzzle = create_puzzle();
    let fitted = puzzle
        .try_fit_numbers(&[(down(7), 123), (across(13), 436), (across(1), 17)])
        .unwrap();
    assert_eq!(fitted.number_at(down(7)), Some(123));
    assert_eq!(fitted.number_at(across(13)), Some(436));
    assert_eq!(fitted.number_at(across(1)), Some(17));
    // the first failure is the one that is reported
    assert_eq!(
        puzzle
            .try_fit_numbers(&[(down(7), 123), (across(13), 456), (across(1), 4)])
            .unwrap_err(),
        FitError::DigitsDoNotMatch
    );
    assert_eq!(
        puzzle
            .try_fit_numbers(&[(down(7), 123), (across(1), 4), (across(13), 456)])
            .unwrap_err(),
        FitError::TooSmall
    );
    assert_eq!(all_cells(&puzzle), vec![None; 24]);
    // no number at all changes nothing
    let same = puzzle.try_fit_numbers(&[]).unwrap();
    assert!(same == puzzle);
}

#[test]
fn number_at_needs_every_digit() {
    let puzzle = create_puzzle();
    let fitted = puzzle.try_fit_number(down(7), 123).unwrap();
    // 13 across has only its second cell set
    assert_eq!(fitted.number_at(across(13)), None);
    let cells: Vec<Option<u8>> = fitted.digits_at(across(13)).iter().copied().collect();
    assert_eq!(cells, vec![None, Some(3), None]);
}

#[test]
fn number_to_digits_keeps_three_leading_digits() {
    let digits = |number: usize| -> Vec<u8> {
        Puzzle::number_to_digits(number).iter().copied().collect()
    };
    assert_eq!(digits(0), vec![0]);
    assert_eq!(digits(7), vec![7]);
    assert_eq!(digits(10), vec![1, 0]);
    assert_eq!(digits(99), vec![9, 9]);
    assert_eq!(digits(100), vec![1, 0, 0]);
    assert_eq!(digits(999), vec![9, 9, 9]);
    assert_eq!(digits(1000), vec![1, 0, 0]);
    assert_eq!(digits(12345), vec![1, 2, 3]);
}

#[test]
fn digits_to_number_reads_most_significant_first() {
    assert_eq!(Puzzle::digits_to_number(&[]), 0);
    assert_eq!(Puzzle::digits_to_number(&[0]), 0);
    assert_eq!(Puzzle::digits_to_number(&[0, 7]), 7);
    assert_eq!(Puzzle::digits_to_number(&[9, 0, 4]), 904);
    assert_eq!(Puzzle::digits_to_number(&[1, 2, 3, 4, 5]), 12345);
}

#[test]
fn puzzles_are_equal_by_cells_and_layout() {
    let first = create_puzzle();
    let second = create_puzzle();
    assert!(first == second);
    assert!(first.clone() == first);
    let filled = first.try_fit_number(down(7), 123).unwrap();
    assert!(filled.clone() == filled);
    assert!(filled != second);
    let other_walls = Puzzle::new(6, 4, vec![], vec![]);
    let no_walls = Puzzle::new(6, 4, vec![], vec![]);
    let one_wall = Puzzle::new(6, 4, vec![], vec![(GridPosition::new(0, 0), WallDirection::Both)]);
    let other_wall =
        Puzzle::new(6, 4, vec![], vec![(GridPosition::new(0, 0), WallDirection::Down)]);
    let one_name = Puzzle::new(6, 4, vec![(PuzzleIdentifier(1), GridPosition::new(0, 0))], vec![]);
    let other_name =
        Puzzle::new(6, 4, vec![(PuzzleIdentifier(1), GridPosition::new(1, 0))], vec![]);
    assert!(other_walls == no_walls);
    assert!(one_wall != no_walls);
    assert!(one_wall != other_wall);
    assert!(one_name != no_walls);
    assert!(one_name != other_name);
    assert!(Puzzle::new(4, 6, vec![], vec![]) != no_walls);
}

#[test]
fn positions_add_by_coordinate() {
    let mut sum = GridPosition::new(1, 2) + GridPosition::new(3, 4);
    assert_eq!(sum, GridPosition::new(4, 6));
    sum += GridPosition::new(0, 0);
    assert_eq!(sum, GridPosition::new(4, 6));
    sum += GridPosition::new(5, 1);
    assert_eq!(sum, GridPosition::new(9, 7));
    sum = GridPosition::new(4, 6);
    assert_eq!(sum.column, 4);
    assert_eq!(sum.row, 6);
    let vector = IdentifierVector::new(PuzzleIdentifier(3), PuzzleDirection::Down);
    assert_eq!(vector.identifier, PuzzleIdentifier(3));
    assert_eq!(vector.direction, PuzzleDirection::Down);
}
