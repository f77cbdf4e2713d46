use the_finale::lookup_tables::primes::PrimeTable;
use the_finale::lookup_tables::triangular::TriangularTable;
use the_finale::puzzle::position::{
    GridPosition, IdentifierVector, PuzzleDirection, PuzzleIdentifier,
};
use the_finale::puzzle::wall::WallDirection;
use the_finale::puzzle::Puzzle;
use the_finale::rules::executor::RuleExecutor;
use the_finale::rules::triangles::pythagorean_triangle::PythagoreanTriangleRule;
use the_finale::rules::triangles::square::SumSquare;
use the_finale::rules::triangles::triangle_trio::{possible_trios, OddCompositeCoprimeRule};
use the_finale::rules::{LookupTables, PuzzleRule};

fn plain_gcd(a: usize, b: usize) -> usize {
    if b == 0 {
        a
    } else {
        plain_gcd(b, a % b)
    }
}

fn across(identifier: usize) -> IdentifierVector {
    IdentifierVector::new(PuzzleIdentifier(identifier), PuzzleDirection::Across)
}

fn down(identifier: usize) -> IdentifierVector {
    IdentifierVector::new(PuzzleIdentifier(identifier), PuzzleDirection::Down)
}

/// Three rows of `width` cells, with the identifiers 1, 2 and 3 at the
/// start of the rows.
fn rows_puzzle(width: usize) -> Puzzle {
    Puzzle::new(
        width,
        3,
        vec![
            (PuzzleIdentifier(1), GridPosition::new(0, 0)),
            (PuzzleIdentifier(2), GridPosition::new(0, 1)),
            (PuzzleIdentifier(3), GridPosition::new(0, 2)),
        ],
        vec![],
    )
}

#[test]
fn sum_square_parts_squares_in_two_digit_numbers() {
    let tables = LookupTables::new();
    let puzzle = rows_puzzle(2);
    let rule = SumSquare([across(1), across(2)]);
    let mut candidates = Vec::new();
    rule.generate(&tables, &puzzle, &mut candidates);
    let pairs: Vec<(usize, usize)> = candidates
        .iter()
        .map(|candidate| {
            (candidate.number_at(across(1)).unwrap(), candidate.number_at(across(2)).unwrap())
        })
        .collect();
    let mut expected = Vec::new();
    for root in 1..45usize {
        for a in 10..100usize {
            let square = root * root;
            if square >= a + 10 && square - a <= 99 {
                expected.push((a, square - a));
            }
        }
    }
    assert_eq!(pairs, expected);
    assert_eq!(pairs.len(), 407);
    assert_eq!(pairs[0], (10, 15));
    for a in 10..=90usize {
        assert!(pairs.contains(&(a, 100 - a)));
    }
    assert!(!pairs.contains(&(9, 91)));
    assert!(!pairs.contains(&(91, 9)));
    // each pair is there once
    for a in 10..=90usize {
        assert_eq!(pairs.iter().filter(|&&pair| pair == (a, 100 - a)).count(), 1);
    }
    // no side of a pair has fewer than two digits
    assert!(pairs.iter().all(|&(a, b)| a >= 10 && b >= 10));
    for candidate in candidates.iter() {
        assert!(rule.is_valid(&tables, candidate));
        assert_eq!(candidate.number_at(across(3)), None);
    }
}

#[test]
fn sum_square_keeps_what_is_set() {
    let tables = LookupTables::new();
    let puzzle = rows_puzzle(1).try_fit_number(across(1), 7).unwrap();
    let rule = SumSquare([across(1), across(2)]);
    let mut candidates = vec![puzzle.clone()];
    rule.generate(&tables, &puzzle, &mut candidates);
    // what was in the list stays in front
    assert!(candidates[0] == puzzle);
    let pairs: Vec<(usize, usize)> = candidates[1..]
        .iter()
        .map(|candidate| {
            (candidate.number_at(across(1)).unwrap(), candidate.number_at(across(2)).unwrap())
        })
        .collect();
    assert_eq!(pairs, vec![(7, 2), (7, 9)]);
}

#[test]
fn sum_square_is_valid_adds_the_fields() {
    let tables = LookupTables::new();
    let rule = SumSquare([across(1), across(2)]);
    let puzzle = rows_puzzle(2);
    assert!(!rule.is_valid(&tables, &puzzle));
    let half = puzzle.try_fit_number(across(1), 10).unwrap();
    assert!(!rule.is_valid(&tables, &half));
    assert!(rule.is_valid(&tables, &half.try_fit_number(across(2), 15).unwrap()));
    assert!(!rule.is_valid(&tables, &half.try_fit_number(across(2), 16).unwrap()));
}

#[test]
fn pythagorean_rule_tries_every_order() {
    let tables = LookupTables::new();
    let puzzle = rows_puzzle(1);
    let rule = PythagoreanTriangleRule([across(1), across(2), across(3)]);
    let mut candidates = Vec::new();
    rule.generate(&tables, &puzzle, &mut candidates);
    let found: Vec<[usize; 3]> = candidates
        .iter()
        .map(|candidate| {
            [
                candidate.number_at(across(1)).unwrap(),
                candidate.number_at(across(2)).unwrap(),
                candidate.number_at(across(3)).unwrap(),
            ]
        })
        .collect();
    // the only triple of single digits, in the six orders of its sides
    assert_eq!(
        found,
        vec![[3, 4, 5], [3, 5, 4], [4, 3, 5], [4, 5, 3], [5, 3, 4], [5, 4, 3]]
    );
    for candidate in candidates.iter() {
        assert!(rule.is_valid(&tables, candidate));
    }
    assert!(!rule.is_valid(&tables, &puzzle));
    let wrong = puzzle
        .try_fit_numbers(&[(across(1), 3), (across(2), 4), (across(3), 6)])
        .unwrap();
    assert!(!rule.is_valid(&tables, &wrong));
}

#[test]
fn pythagorean_rule_keeps_what_is_set() {
    let tables = LookupTables::new();
    let puzzle = rows_puzzle(2).try_fit_number(across(2), 12).unwrap();
    let rule = PythagoreanTriangleRule([across(1), across(2), across(3)]);
    let mut candidates = Vec::new();
    rule.generate(&tables, &puzzle, &mut candidates);
    let mut found: Vec<[usize; 3]> = candidates
        .iter()
        .map(|candidate| {
            [
                candidate.number_at(across(1)).unwrap(),
                candidate.number_at(across(2)).unwrap(),
                candidate.number_at(across(3)).unwrap(),
            ]
        })
        .collect();
    found.sort();
    // 5 12 13, 12 35 37 and 9 12 15 is no primitive triple; one side has one digit only
    assert_eq!(found, vec![[35, 12, 37], [37, 12, 35]]);
}

#[test]
fn trios_are_odd_composite_coprime_triangles() {
    let tables = LookupTables::new();
    let trios = possible_trios(&tables);
    assert!(!trios.is_empty());
    // in ascending order, and so each trio once
    assert!(trios.windows(2).all(|pair| pair[0] < pair[1]));
    let odd_composite = |n: usize| n % 2 == 1 && n > 1 && n < 1000 && !PrimeTable::is_prime(n);
    let mut seen = std::collections::HashSet::new();
    for &(a, b, c) in trios.iter() {
        assert!(seen.insert((a, b, c)));
        assert!(odd_composite(a) && odd_composite(b) && odd_composite(c));
        assert_eq!(plain_gcd(a, b), 1);
        assert_eq!(plain_gcd(a, c), 1);
        assert_eq!(plain_gcd(b, c), 1);
        assert!(a + b > c && b + c > a && c + a > b);
        assert!(TriangularTable::is_triangular(a + b + c));
        let sides = [a, b, c];
        assert!(!(sides.contains(&9) && sides.contains(&15)));
        // each order of a trio is a trio of its own
        assert!(trios.contains(&(b, a, c)));
    }
    // every such trio is there
    let numbers: Vec<usize> = (1..1000usize).filter(|&n| odd_composite(n)).collect();
    let triangulars = TriangularTable::triangulars();
    let mut count = 0;
    for &a in numbers.iter() {
        for &b in numbers.iter() {
            if plain_gcd(a, b) != 1 {
                continue;
            }
            for &perimeter in triangulars.iter() {
                if perimeter <= a + b {
                    continue;
                }
                let c = perimeter - a - b;
                if odd_composite(c)
                    && a + b > c
                    && b + c > a
                    && c + a > b
                    && plain_gcd(a, c) == 1
                    && plain_gcd(b, c) == 1
                {
                    count += 1;
                }
            }
        }
    }
    assert_eq!(trios.len(), count);
}

#[test]
fn trio_rule_fits_trios_into_fields() {
    let tables = LookupTables::new();
    let puzzle = rows_puzzle(2);
    let rule = OddCompositeCoprimeRule([across(1), across(2), across(3)]);
    let mut candidates = Vec::new();
    rule.generate(&tables, &puzzle, &mut candidates);
    let expected: Vec<(usize, usize, usize)> = possible_trios(&tables)
        .into_iter()
        .filter(|&(a, b, c)| a >= 10 && a <= 99 && b >= 10 && b <= 99 && c >= 10 && c <= 99)
        .collect();
    let found: Vec<(usize, usize, usize)> = candidates
        .iter()
        .map(|candidate| {
            (
                candidate.number_at(across(1)).unwrap(),
                candidate.number_at(across(2)).unwrap(),
                candidate.number_at(across(3)).unwrap(),
            )
        })
        .collect();
    assert_eq!(found, expected);
    for candidate in candidates.iter() {
        assert!(rule.is_valid(&tables, candidate));
    }
    for trio in found {
        let sides = [trio.0, trio.1, trio.2];
        assert!(!(sides.contains(&9) && sides.contains(&15)));
    }
}

#[test]
fn trio_rule_is_valid_checks_each_number() {
    let tables = LookupTables::new();
    let rule = OddCompositeCoprimeRule([across(1), across(2), across(3)]);
    let puzzle = rows_puzzle(2);
    let fill = |a: usize, b: usize, c: usize| {
        puzzle.try_fit_numbers(&[(across(1), a), (across(2), b), (across(3), c)]).unwrap()
    };
    assert!(rule.is_valid(&tables, &fill(25, 27, 49)));
    // an even number
    assert!(!rule.is_valid(&tables, &fill(25, 26, 49)));
    // a prime
    assert!(!rule.is_valid(&tables, &fill(25, 27, 47)));
    // 15 and 27 share 3
    assert!(!rule.is_valid(&tables, &fill(15, 27, 49)));
    // the same number twice
    assert!(!rule.is_valid(&tables, &fill(25, 25, 49)));
    // a field that is not filled
    assert!(!rule.is_valid(&tables, &puzzle));
}

#[test]
fn rules_apply_where_their_fields_are() {
    let puzzle = Puzzle::new(
        3,
        2,
        vec![
            (PuzzleIdentifier(1), GridPosition::new(0, 0)),
            (PuzzleIdentifier(2), GridPosition::new(1, 1)),
            (PuzzleIdentifier(3), GridPosition::new(3, 0)),
        ],
        vec![],
    );
    // the third identifier stands beside the grid
    assert!(!puzzle.anchors_on_grid());
    assert!(rows_puzzle(2).anchors_on_grid());
    assert!(PythagoreanTriangleRule([across(1), across(2), down(1)]).applies_to(&puzzle));
    assert!(!PythagoreanTriangleRule([across(1), across(2), down(3)]).applies_to(&puzzle));
    assert!(!PythagoreanTriangleRule([across(4), across(2), down(1)]).applies_to(&puzzle));
    assert!(OddCompositeCoprimeRule([down(2), across(2), down(1)]).applies_to(&puzzle));
    assert!(!OddCompositeCoprimeRule([down(2), across(3), down(1)]).applies_to(&puzzle));
    // 1 across has three cells, 2 across has two, 1 down has two
    assert!(!SumSquare([across(1), across(2)]).applies_to(&puzzle));
    assert!(SumSquare([down(1), across(2)]).applies_to(&puzzle));
    assert!(!SumSquare([down(1), across(3)]).applies_to(&puzzle));
}

#[test]
fn executor_without_rules_filters_the_base_puzzle() {
    let base = rows_puzzle(2);
    let mut executor = RuleExecutor::new(base, vec![]);
    assert_eq!(executor.attempted_puzzles(), 0);
    assert!(executor.compute().is_empty());
    // the base puzzle is the one puzzle that was taken up
    assert_eq!(executor.attempted_puzzles(), 1);

    // without a declared identifier nothing is filtered
    let bare = Puzzle::new(2, 3, vec![], vec![]);
    let mut executor = RuleExecutor::new(bare.clone(), vec![]);
    let solutions = executor.compute();
    assert_eq!(solutions.len(), 1);
    assert!(solutions[0] == bare);
}

#[test]
fn executor_drops_leading_zeros_and_unset_anchors() {
    // 1 across and 3 across have two cells each; 2 down starts in the
    // second cell of 1 across
    let base = Puzzle::new(
        5,
        2,
        vec![
            (PuzzleIdentifier(1), GridPosition::new(0, 0)),
            (PuzzleIdentifier(2), GridPosition::new(1, 0)),
            (PuzzleIdentifier(3), GridPosition::new(3, 0)),
        ],
        vec![(GridPosition::new(1, 0), WallDirection::Right)],
    );
    assert_eq!(base.size_of_field(across(1)), 2);
    assert_eq!(base.size_of_field(across(3)), 2);
    assert_eq!(base.size_of_field(down(2)), 2);
    let rule = SumSquare([across(1), across(3)]);
    let rules: Vec<&dyn PuzzleRule> = vec![&rule];
    let mut executor = RuleExecutor::new(base, rules);
    let solutions = executor.compute();
    // what the last rule yields is complete and is not taken up again
    assert_eq!(executor.attempted_puzzles(), 1);
    let pairs: Vec<(usize, usize)> = solutions
        .iter()
        .map(|solution| {
            (solution.number_at(across(1)).unwrap(), solution.number_at(across(3)).unwrap())
        })
        .collect();
    let mut expected = Vec::new();
    for root in 1..45usize {
        for a in 10..100usize {
            let square = root * root;
            if square >= a + 10 && square - a <= 99 && a % 10 != 0 {
                expected.push((a, square - a));
            }
        }
    }
    assert_eq!(pairs, expected);
    assert_eq!(pairs.len(), 365);

    // an identifier that no rule fills leaves nothing
    let base = rows_puzzle(2);
    let rule = SumSquare([across(1), across(2)]);
    let rules: Vec<&dyn PuzzleRule> = vec![&rule];
    assert!(RuleExecutor::new(base, rules).compute().is_empty());
}

#[test]
fn executor_applies_rules_in_turn() {
    // 1 across, 2 across and 3 across are the rows; 1 down is the first column
    let base = rows_puzzle(1);
    let triangle = PythagoreanTriangleRule([across(1), across(2), across(3)]);
    let square = SumSquare([across(1), across(3)]);
    let rules: Vec<&dyn PuzzleRule> = vec![&triangle, &square];
    let mut executor = RuleExecutor::new(base.clone(), rules);
    let solutions = executor.compute();
    // the base puzzle and the six candidates of the first rule were taken up
    assert_eq!(executor.attempted_puzzles(), 7);
    // a second search counts anew
    assert_eq!(executor.compute().len(), 2);
    assert_eq!(executor.attempted_puzzles(), 7);
    let found: Vec<usize> =
        solutions.iter().map(|solution| solution.number_at(down(1)).unwrap()).collect();
    // of the six orders of 3 4 5 those whose first and last sum to a square;
    // the later candidates of the first rule are looked at first
    assert_eq!(found, vec![534, 435]);
    let tables = LookupTables::new();
    for solution in solutions.iter() {
        assert!(triangle.is_valid(&tables, solution));
        assert!(square.is_valid(&tables, solution));
    }

    // the other order of the rules finds the same puzzles
    let rules: Vec<&dyn PuzzleRule> = vec![&square, &triangle];
    let solutions = RuleExecutor::new(base, rules).compute();
    let mut found: Vec<usize> =
        solutions.iter().map(|solution| solution.number_at(down(1)).unwrap()).collect();
    found.sort();
    assert_eq!(found, vec![435, 534]);
}
