use the_finale::challenges::triangles::TrianglesChallenge;
use the_finale::puzzle::position::{
    GridPosition, IdentifierVector, PuzzleDirection, PuzzleIdentifier,
};

#[test]
fn triangles_grid_has_its_fields() {
    let puzzle = TrianglesChallenge::puzzle();
    assert_eq!(puzzle.num_columns(), 6);
    assert_eq!(puzzle.num_rows(), 4);
    assert_eq!(puzzle.identifers().len(), 14);
    assert_eq!(puzzle.identifer_to_grid(PuzzleIdentifier(8)), GridPosition::new(3, 1));
    let lengths = |vectors: &[IdentifierVector]| -> Vec<usize> {
        vectors.iter().map(|&vector| puzzle.size_of_field(vector)).collect()
    };
    assert_eq!(lengths(&TrianglesChallenge::perimeter_vectors()), vec![2, 2, 2]);
    assert_eq!(lengths(&TrianglesChallenge::across_clues()), vec![2, 2, 2, 3, 3, 2, 3, 3]);
    assert_eq!(lengths(&TrianglesChallenge::down_clues()), vec![2, 2, 3, 2, 3, 2, 3, 3]);
    let rules = TrianglesChallenge::rules();
    assert_eq!(rules.perimeter.0, TrianglesChallenge::perimeter_vectors());
    assert_eq!(lengths(&rules.left.0), vec![2, 2, 2]);
    assert_eq!(lengths(&rules.middle.0), vec![3, 3, 2]);
    assert_eq!(lengths(&rules.right.0), vec![3, 3, 2]);
    assert_eq!(lengths(&rules.squares.0), vec![3, 3]);
    assert!(puzzle.anchors_on_grid());
    assert!(rules.perimeter.applies_to(&puzzle));
    assert!(rules.left.applies_to(&puzzle));
    assert!(rules.middle.applies_to(&puzzle));
    assert!(rules.right.applies_to(&puzzle));
    assert!(rules.squares.applies_to(&puzzle));
    for vector in TrianglesChallenge::across_clues() {
        assert_eq!(vector.direction, PuzzleDirection::Across);
        assert!(puzzle.has_field(vector));
    }
    for vector in TrianglesChallenge::down_clues() {
        assert_eq!(vector.direction, PuzzleDirection::Down);
        assert!(puzzle.has_field(vector));
    }
}

#[test]
fn numbers_of_needs_every_field() {
    let puzzle = TrianglesChallenge::puzzle();
    let vectors = TrianglesChallenge::perimeter_vectors();
    assert_eq!(TrianglesChallenge::numbers_of(&puzzle, &vectors), None);
    let filled = puzzle
        .try_fit_numbers(&[(vectors[0], 25), (vectors[1], 27)])
        .unwrap();
    assert_eq!(TrianglesChallenge::numbers_of(&filled, &vectors), None);
    assert_eq!(TrianglesChallenge::numbers_of(&filled, &vectors[..2]), Some(vec![25, 27]));
    assert_eq!(TrianglesChallenge::numbers_of(&filled, &[]), Some(vec![]));
    let filled = filled.try_fit_number(vectors[2], 49).unwrap();
    assert_eq!(TrianglesChallenge::numbers_of(&filled, &vectors), Some(vec![25, 27, 49]));
}

#[test]
fn numbers_are_compared_summed_and_measured() {
    assert!(TrianglesChallenge::all_different(&[]));
    assert!(TrianglesChallenge::all_different(&[5]));
    assert!(TrianglesChallenge::all_different(&[5, 7, 9, 12]));
    assert!(!TrianglesChallenge::all_different(&[5, 7, 9, 5]));
    assert!(!TrianglesChallenge::all_different(&[5, 7, 7, 12]));

    assert_eq!(TrianglesChallenge::sum(&[]), 0);
    assert_eq!(TrianglesChallenge::sum(&[25, 27, 49]), 101);
    assert_eq!(TrianglesChallenge::sum(&[999; 1000]), 999_000);

    assert_eq!(TrianglesChallenge::places_apart(&[], 3), vec![]);
    assert_eq!(
        TrianglesChallenge::places_apart(&[10, 13, 7, 10, 16], 3),
        vec![(0, 1), (0, 2), (1, 3), (1, 4), (2, 3)]
    );
    assert_eq!(TrianglesChallenge::places_apart(&[4, 4, 5], 0), vec![(0, 1)]);
}
