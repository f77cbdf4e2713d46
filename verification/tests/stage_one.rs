use the_finale::challenges::number_soup::NumberSoupChallenge;
use the_finale::puzzle::position::GridPosition;
use the_finale::stage_one::grid::Grid;
use the_finale::stage_one::position::{PuzzleDirection, PuzzlePosition};
use the_finale::stage_one::result::ValidationResult;

#[test]
fn grid_holds_the_digits_of_its_number() {
    let grid = Grid::new(123456789);
    assert_eq!(grid.0, [9, 8, 7, 6, 5, 4, 3, 2, 1]);
    assert_eq!(grid.row(0), [9, 8, 7]);
    assert_eq!(grid.row(1), [6, 5, 4]);
    assert_eq!(grid.row(2), [3, 2, 1]);
    assert_eq!(grid.column(0), [9, 6, 3]);
    assert_eq!(grid.column(1), [8, 5, 2]);
    assert_eq!(grid.column(2), [7, 4, 1]);
}

#[test]
fn grid_pads_small_numbers_with_zeros() {
    assert_eq!(Grid::new(0).0, [0; 9]);
    assert_eq!(Grid::new(42).0, [2, 4, 0, 0, 0, 0, 0, 0, 0]);
    // the tenth digit of a number has no cell
    assert_eq!(Grid::new(4_123_456_789).0, [9, 8, 7, 6, 5, 4, 3, 2, 1]);
    assert_eq!(Grid::new(u32::MAX).0, [5, 9, 2, 7, 6, 9, 4, 9, 2]);
}

#[test]
fn grid_has_a_billion_forms() {
    assert_eq!(Grid::max_permutations(), 1_000_000_000);
}

#[test]
fn positions_keep_number_and_direction() {
    let position = PuzzlePosition::new(3, PuzzleDirection::Down);
    assert_eq!(position.index(), 3);
    assert_eq!(position.direction(), PuzzleDirection::Down);
    let across = PuzzlePosition::new_across(1);
    assert_eq!(across.index(), 1);
    assert_eq!(across.direction(), PuzzleDirection::Across);
    let down = PuzzlePosition::new_down(5);
    assert_eq!(down.index(), 5);
    assert_eq!(down.direction(), PuzzleDirection::Down);
}

#[test]
fn validation_result_starts_invalid() {
    let mut result = ValidationResult::new_invalid();
    assert_eq!(result.results(), [false, false, false, false]);
    assert!(!result.is_any_valid());
    *result.q_mut() = true;
    assert_eq!(result.results(), [false, true, false, false]);
    assert!(result.is_any_valid());
    *result.p_mut() = true;
    *result.s_mut() = true;
    assert_eq!(result.results(), [true, true, false, true]);
    *result.q_mut() = false;
    *result.r_mut() = true;
    assert_eq!(result.results(), [true, false, true, true]);
    *result.p_mut() = false;
    *result.r_mut() = false;
    *result.s_mut() = false;
    assert!(!result.is_any_valid());
}

#[test]
fn number_soup_is_an_empty_grid() {
    NumberSoupChallenge::compute();
    let puzzle = NumberSoupChallenge::puzzle();
    assert_eq!(puzzle.num_columns(), 9);
    assert_eq!(puzzle.num_rows(), 4);
    assert!(puzzle.identifers().is_empty());
    for row in 0..4 {
        for column in 0..9 {
            assert_eq!(puzzle.digit_at(GridPosition::new(column, row)), None);
        }
    }
}
