//! The rules that constrain the fields of a puzzle.
//!
//! A rule constrains the numbers of some fields. For a puzzle it yields
//! candidates: the puzzles in which numbers that meet the rule are fitted
//! into its fields. It can also tell of a puzzle whether its fields hold
//! numbers that meet the rule.

use vstd::prelude::*;

use crate::lookup_tables::coprimes::{is_composite_graph, is_coprime_graph, CoprimesTable};
use crate::lookup_tables::pythagorean_triples::{triple_table, PythagoreanTriplesTable};
use crate::puzzle::layout::LayoutView;
use crate::puzzle::position::IdentifierVector;
use crate::puzzle::{FitError, Puzzle, PuzzleView};

pub mod executor;
pub mod triangles;

verus! {

/// The tables that are costly to build. They are built once and handed to
/// every rule that draws on them.
pub struct LookupTables {
    pub coprimes: CoprimesTable,
    pub triples: PythagoreanTriplesTable,
}

impl LookupTables {
    /// Builds the tables.
    pub fn new() -> (tables: Self)
        ensures
            is_coprime_graph(tables.coprimes.graph()),
            is_composite_graph(tables.coprimes.composite_graph()),
            tables.triples@ == triple_table(),
    {
        let coprimes = CoprimesTable::new();
        let triples = PythagoreanTriplesTable::new(&coprimes);
        Self { coprimes, triples }
    }
}

/// The views of a list of puzzles.
pub open spec fn views(puzzles: Seq<Puzzle>) -> Seq<PuzzleView> {
    puzzles.map_values(|puzzle: Puzzle| puzzle@)
}

/// The puzzles that the assignments give, in their order: for each
/// assignment that fits the puzzle, the puzzle with that assignment in it.
pub open spec fn fitted(
    puzzle: PuzzleView,
    assignments: Seq<Seq<(IdentifierVector, usize)>>,
) -> Seq<PuzzleView>
    decreases assignments.len(),
{
    if assignments.len() == 0 {
        Seq::empty()
    } else {
        match puzzle.fit_all(assignments.last()) {
            Ok(next) => fitted(puzzle, assignments.drop_last()).push(next),
            Err(_) => fitted(puzzle, assignments.drop_last()),
        }
    }
}

/// A puzzle is among those that a list of assignments gives exactly when
/// one of the assignments fits and gives it.
pub proof fn lemma_fitted_contains(
    puzzle: PuzzleView,
    assignments: Seq<Seq<(IdentifierVector, usize)>>,
)
    ensures
        forall|after: PuzzleView|
            fitted(puzzle, assignments).contains(after) <==> exists|k: int|
                0 <= k < assignments.len() && puzzle.fit_all(#[trigger] assignments[k]) == Ok::<
                    PuzzleView,
                    FitError,
                >(after),
    decreases assignments.len(),
{
    if assignments.len() == 0 {
        assert forall|after: PuzzleView| fitted(puzzle, assignments).contains(after) implies false by {}
    } else {
        let front = assignments.drop_last();
        lemma_fitted_contains(puzzle, front);
        let first = fitted(puzzle, front);
        let whole = fitted(puzzle, assignments);
        assert forall|after: PuzzleView|
            whole.contains(after) <==> exists|k: int|
                0 <= k < assignments.len() && puzzle.fit_all(#[trigger] assignments[k]) == Ok::<
                    PuzzleView,
                    FitError,
                >(after) by {
            if whole.contains(after) {
                let i = choose|i: int| 0 <= i < whole.len() && whole[i] == after;
                if i < first.len() {
                    assert(first[i] == after);
                    assert(first.contains(after));
                    let k = choose|k: int|
                        0 <= k < front.len() && puzzle.fit_all(#[trigger] front[k]) == Ok::<
                            PuzzleView,
                            FitError,
                        >(after);
                    assert(assignments[k] == front[k]);
                } else {
                    assert(puzzle.fit_all(assignments[assignments.len() - 1]) == Ok::<
                        PuzzleView,
                        FitError,
                    >(after));
                }
            }
            if exists|k: int|
                0 <= k < assignments.len() && puzzle.fit_all(#[trigger] assignments[k]) == Ok::<
                    PuzzleView,
                    FitError,
                >(after) {
                let k = choose|k: int|
                    0 <= k < assignments.len() && puzzle.fit_all(#[trigger] assignments[k]) == Ok::<
                        PuzzleView,
                        FitError,
                    >(after);
                if k < front.len() {
                    assert(front[k] == assignments[k]);
                    assert(first.contains(after));
                    let i = choose|i: int| 0 <= i < first.len() && first[i] == after;
                    assert(whole[i] == after);
                } else {
                    assert(whole[whole.len() - 1] == after);
                }
            }
        }
    }
}

/// The places of the assignments that fit the puzzle, in their order: the
/// puzzles of `fitted` come from these, one from each.
pub open spec fn fitting_places(
    puzzle: PuzzleView,
    assignments: Seq<Seq<(IdentifierVector, usize)>>,
) -> Seq<int>
    decreases assignments.len(),
{
    if assignments.len() == 0 {
        Seq::empty()
    } else if puzzle.fit_all(assignments.last()) is Ok {
        fitting_places(puzzle, assignments.drop_last()).push(assignments.len() - 1)
    } else {
        fitting_places(puzzle, assignments.drop_last())
    }
}

/// Each puzzle that a list of assignments gives comes from the assignment
/// at its place among those that fit; these places rise, and every
/// assignment that fits is at one of them.
pub proof fn lemma_fitting_places(
    puzzle: PuzzleView,
    assignments: Seq<Seq<(IdentifierVector, usize)>>,
)
    ensures
        fitting_places(puzzle, assignments).len() == fitted(puzzle, assignments).len(),
        forall|i: int|
            0 <= i < fitted(puzzle, assignments).len() ==> {
                let place = #[trigger] fitting_places(puzzle, assignments)[i];
                &&& 0 <= place < assignments.len()
                &&& puzzle.fit_all(assignments[place]) == Ok::<PuzzleView, FitError>(
                    fitted(puzzle, assignments)[i],
                )
            },
        forall|i: int, j: int|
            0 <= i < j < fitted(puzzle, assignments).len() ==> fitting_places(
                puzzle,
                assignments,
            )[i] < fitting_places(puzzle, assignments)[j],
        forall|k: int|
            0 <= k < assignments.len() && puzzle.fit_all(#[trigger] assignments[k]) is Ok
                ==> exists|i: int|
                0 <= i < fitted(puzzle, assignments).len() && #[trigger] fitting_places(
                    puzzle,
                    assignments,
                )[i] == k,
    decreases assignments.len(),
{
    if assignments.len() > 0 {
        let front = assignments.drop_last();
        lemma_fitting_places(puzzle, front);
        let places = fitting_places(puzzle, assignments);
        let found = fitted(puzzle, assignments);
        let front_places = fitting_places(puzzle, front);
        let front_found = fitted(puzzle, front);
        assert forall|i: int| 0 <= i < found.len() implies {
            let place = #[trigger] places[i];
            &&& 0 <= place < assignments.len()
            &&& puzzle.fit_all(assignments[place]) == Ok::<PuzzleView, FitError>(found[i])
        } by {
            if i < front_found.len() {
                assert(places[i] == front_places[i]);
                assert(found[i] == front_found[i]);
                assert(front[front_places[i]] == assignments[front_places[i]]);
            }
        }
        assert forall|i: int, j: int| 0 <= i < j < found.len() implies places[i] < places[j] by {
            assert(places[i] == front_places[i]);
            if j < front_found.len() {
                assert(places[j] == front_places[j]);
            }
        }
        assert forall|k: int|
            0 <= k < assignments.len() && puzzle.fit_all(#[trigger] assignments[k]) is Ok implies exists|
            i: int,
        | 0 <= i < found.len() && #[trigger] places[i] == k by {
            if k < front.len() {
                assert(front[k] == assignments[k]);
                let i = choose|i: int| 0 <= i < front_found.len() && #[trigger] front_places[i] == k;
                assert(places[i] == k);
            } else {
                assert(places[found.len() - 1] == k);
            }
        }
    }
}

/// The puzzles that a list of assignments gives hold every digit of the
/// puzzle that they were fitted into.
pub proof fn lemma_fitted_extend(
    puzzle: PuzzleView,
    assignments: Seq<Seq<(IdentifierVector, usize)>>,
)
    requires
        puzzle.wf(),
        forall|k: int| 0 <= k < assignments.len() ==> puzzle.has_fields(#[trigger] assignments[k]),
    ensures
        forall|i: int|
            0 <= i < fitted(puzzle, assignments).len() ==> puzzle.extended_by(
                #[trigger] fitted(puzzle, assignments)[i],
            ),
    decreases assignments.len(),
{
    if assignments.len() > 0 {
        let front = assignments.drop_last();
        assert forall|k: int| 0 <= k < front.len() implies puzzle.has_fields(#[trigger] front[k]) by {
            assert(front[k] == assignments[k]);
        }
        lemma_fitted_extend(puzzle, front);
        if puzzle.fit_all(assignments.last()) is Ok {
            assert(puzzle.has_fields(assignments[assignments.len() - 1]));
            puzzle.lemma_fit_all_extends(assignments.last());
        }
        assert forall|i: int| 0 <= i < fitted(puzzle, assignments).len() implies puzzle.extended_by(
            #[trigger] fitted(puzzle, assignments)[i],
        ) by {
            if i < fitted(puzzle, front).len() {
                assert(fitted(puzzle, assignments)[i] == fitted(puzzle, front)[i]);
            }
        }
    }
}

/// A rules a puzzle can conform to
pub trait PuzzleRule {
    /// The fields that the rule constrains, in the order in which it reads
    /// them.
    spec fn vectors(&self) -> Seq<IdentifierVector>;

    /// What the rule needs of a layout besides fields for its vectors.
    spec fn needs(&self, layout: LayoutView) -> bool;

    /// Whether numbers, one for each field of the rule in their order, meet
    /// the rule.
    spec fn accepts(&self, numbers: Seq<nat>) -> bool;

    /// The puzzles that the rule yields for a puzzle, in the order in which
    /// it finds them: one for each assignment of numbers to its fields that
    /// meets the rule and fits the puzzle.
    spec fn candidates(&self, before: PuzzleView) -> Seq<PuzzleView>;

    /// Generate all possible configurations the rule provides on the provided puzzle
    fn generate(&self, tables: &LookupTables, puzzle: &Puzzle, new_puzzles: &mut Vec<Puzzle>)
        requires
            puzzle@.layout.has_fields(self.vectors()),
            self.needs(puzzle@.layout),
        ensures
            views(final(new_puzzles)@) == views(old(new_puzzles)@) + self.candidates(puzzle@),
            old(new_puzzles)@.len() <= final(new_puzzles)@.len(),
            final(new_puzzles)@.subrange(0, old(new_puzzles)@.len() as int) == old(new_puzzles)@,
            forall|i: int|
                old(new_puzzles)@.len() <= i < final(new_puzzles)@.len() ==> {
                    &&& puzzle@.extended_by((#[trigger] final(new_puzzles)@[i])@)
                    &&& final(new_puzzles)@[i]@.are_filled(self.vectors())
                    &&& self.accepts(final(new_puzzles)@[i]@.numbers_at(self.vectors()))
                },
    ;

    /// Check if a puzzle configuration still follows this rule
    fn is_valid(&self, tables: &LookupTables, puzzle: &Puzzle) -> (valid: bool)
        requires
            puzzle@.layout.has_fields(self.vectors()),
            self.needs(puzzle@.layout),
        ensures
            valid == (puzzle@.are_filled(self.vectors()) && self.accepts(
                puzzle@.numbers_at(self.vectors()),
            )),
    ;
}

/// Whether a rule can work on puzzles of a layout: its vectors name fields
/// on the grid, and the layout has what else the rule needs.
pub open spec fn rule_applies<R: PuzzleRule + ?Sized>(rule: &R, layout: LayoutView) -> bool {
    layout.has_fields(rule.vectors()) && rule.needs(layout)
}

/// Whether a puzzle meets a rule: the fields of the rule hold numbers, and
/// the rule accepts these.
pub open spec fn rule_holds<R: PuzzleRule + ?Sized>(rule: &R, puzzle: PuzzleView) -> bool {
    puzzle.are_filled(rule.vectors()) && rule.accepts(puzzle.numbers_at(rule.vectors()))
}

/// A puzzle that meets a rule still meets it when more of its cells are
/// set.
pub proof fn lemma_rule_holds_on<R: PuzzleRule + ?Sized>(
    rule: &R,
    before: PuzzleView,
    after: PuzzleView,
)
    requires
        before.wf(),
        rule_applies(rule, before.layout),
        rule_holds(rule, before),
        before.extended_by(after),
    ensures
        rule_holds(rule, after),
{
    before.lemma_extension_keeps_numbers(after, rule.vectors());
}

/// What follows for the puzzles that a rule added to its list: each is one
/// of the puzzles that its assignments give, and holds every digit of the
/// puzzle that the rule was given.
pub proof fn lemma_added_extend(
    puzzle: PuzzleView,
    assignments: Seq<Seq<(IdentifierVector, usize)>>,
    start: Seq<Puzzle>,
    end: Seq<Puzzle>,
)
    requires
        puzzle.wf(),
        forall|k: int| 0 <= k < assignments.len() ==> puzzle.has_fields(#[trigger] assignments[k]),
        views(end) == views(start) + fitted(puzzle, assignments),
    ensures
        start.len() <= end.len(),
        end.len() - start.len() == fitted(puzzle, assignments).len(),
        forall|i: int|
            start.len() <= i < end.len() ==> puzzle.extended_by((#[trigger] end[i])@) && end[i]@
                == fitted(puzzle, assignments)[i - start.len()],
{
    lemma_fitted_extend(puzzle, assignments);
    assert(views(end).len() == end.len());
    assert(views(start).len() == start.len());
    assert forall|i: int| start.len() <= i < end.len() implies puzzle.extended_by(
        (#[trigger] end[i])@,
    ) && end[i]@ == fitted(puzzle, assignments)[i - start.len()] by {
        assert(views(end)[i] == end[i]@);
        assert(fitted(puzzle, assignments)[i - start.len()] == end[i]@);
    }
}

/// Adds to the list the puzzle that the assignment gives, where it fits.
pub fn push_fit(puzzle: &Puzzle, assignment: &[(IdentifierVector, usize)], new_puzzles: &mut Vec<Puzzle>)
    requires
        puzzle@.has_fields(assignment@),
    ensures
        views(final(new_puzzles)@) == (match puzzle@.fit_all(assignment@) {
            Ok(next) => views(old(new_puzzles)@).push(next),
            Err(_) => views(old(new_puzzles)@),
        }),
        final(new_puzzles)@.len() >= old(new_puzzles)@.len(),
        final(new_puzzles)@.subrange(0, old(new_puzzles)@.len() as int) == old(new_puzzles)@,
{
    let ghost before = new_puzzles@;
    match puzzle.try_fit_numbers(assignment) {
        Ok(next) => {
            new_puzzles.push(next);
            assert(views(new_puzzles@) =~= views(before).push(next@));
            assert(new_puzzles@.subrange(0, before.len() as int) =~= before);
        },
        Err(_) => {
            assert(new_puzzles@.subrange(0, before.len() as int) =~= before);
        },
    }
}

} // verus!
