//! The search that applies the rules one after the other.
//!
//! The search starts from the base puzzle. The first rule yields
//! candidates for it, the second rule yields candidates for each of those,
//! and so on: what the last rule yields are the completed puzzles. The
//! puzzles that wait for their next rule lie on a stack, so that of the
//! candidates of a rule the one that was found last is taken up first. Of
//! the completed puzzles the executor keeps the ones in which every
//! declared identifier starts with a digit other than zero.

use vstd::prelude::*;

use super::{lemma_rule_holds_on, rule_applies, rule_holds, views, LookupTables, PuzzleRule};
use crate::puzzle::position::PuzzleIdentifier;
use crate::puzzle::{Puzzle, PuzzleView};

verus! {

/// The completed puzzles that the rules from `index` on lead to from a
/// puzzle, in the order in which the search finds them. With no rule left
/// that is the puzzle itself; what the last rule yields is complete.
pub open spec fn completed(rules: Seq<&dyn PuzzleRule>, index: nat, puzzle: PuzzleView) -> Seq<
    PuzzleView,
>
    decreases rules.len() - index, 0nat,
{
    if index >= rules.len() {
        seq![puzzle]
    } else if index + 1 == rules.len() {
        rules[index as int].candidates(puzzle)
    } else {
        completed_of_each(rules, index + 1, rules[index as int].candidates(puzzle))
    }
}

/// The completed puzzles that the rules from `index` on lead to from each
/// puzzle of a list, those of the last puzzle of the list first.
pub open spec fn completed_of_each(
    rules: Seq<&dyn PuzzleRule>,
    index: nat,
    puzzles: Seq<PuzzleView>,
) -> Seq<PuzzleView>
    decreases rules.len() - index, puzzles.len() + 1,
{
    if puzzles.len() == 0 {
        Seq::empty()
    } else {
        completed(rules, index, puzzles.last()) + completed_of_each(
            rules,
            index,
            puzzles.drop_last(),
        )
    }
}

/// A partially completed puzzle
pub struct IncompleteArtifact {
    pub puzzle: Puzzle,
    pub next_rule: usize,
}

/// The completed puzzles that the artifacts of a stack lead to, those of
/// the artifact on top first.
pub open spec fn pending(rules: Seq<&dyn PuzzleRule>, stack: Seq<IncompleteArtifact>) -> Seq<
    PuzzleView,
>
    decreases stack.len(),
{
    if stack.len() == 0 {
        Seq::empty()
    } else {
        completed(rules, stack.last().next_rule as nat, stack.last().puzzle@) + pending(
            rules,
            stack.drop_last(),
        )
    }
}

/// The number of artifacts that the search takes up for a puzzle that
/// waits for the rule at `index`: the puzzle itself and what its candidates
/// bring.
pub open spec fn work(rules: Seq<&dyn PuzzleRule>, index: nat, puzzle: PuzzleView) -> nat
    decreases rules.len() - index, 0nat,
{
    if index + 1 >= rules.len() {
        1
    } else {
        1 + work_of_each(rules, index + 1, rules[index as int].candidates(puzzle))
    }
}

/// The number of artifacts that the search takes up for the puzzles of a
/// list that wait for the rule at `index`.
pub open spec fn work_of_each(
    rules: Seq<&dyn PuzzleRule>,
    index: nat,
    puzzles: Seq<PuzzleView>,
) -> nat
    decreases rules.len() - index, puzzles.len() + 1,
{
    if puzzles.len() == 0 {
        0
    } else {
        work(rules, index, puzzles.last()) + work_of_each(rules, index, puzzles.drop_last())
    }
}

/// The number of artifacts that the search has yet to take up.
pub open spec fn pending_work(rules: Seq<&dyn PuzzleRule>, stack: Seq<IncompleteArtifact>) -> nat
    decreases stack.len(),
{
    if stack.len() == 0 {
        0
    } else {
        work(rules, stack.last().next_rule as nat, stack.last().puzzle@) + pending_work(
            rules,
            stack.drop_last(),
        )
    }
}

/// The artifacts that wait for the rule at `next_rule` with the puzzles of
/// a list.
pub open spec fn waiting(puzzles: Seq<Puzzle>, next_rule: usize) -> Seq<IncompleteArtifact> {
    puzzles.map_values(|puzzle: Puzzle| IncompleteArtifact { puzzle, next_rule })
}

/// What a stack leads to once the candidates of a rule lie on top of it,
/// and what work that is.
pub proof fn lemma_pending_with_candidates(
    rules: Seq<&dyn PuzzleRule>,
    stack: Seq<IncompleteArtifact>,
    puzzles: Seq<Puzzle>,
    next_rule: usize,
)
    ensures
        pending(rules, stack + waiting(puzzles, next_rule)) == completed_of_each(
            rules,
            next_rule as nat,
            views(puzzles),
        ) + pending(rules, stack),
        pending_work(rules, stack + waiting(puzzles, next_rule)) == work_of_each(
            rules,
            next_rule as nat,
            views(puzzles),
        ) + pending_work(rules, stack),
    decreases puzzles.len(),
{
    let whole = stack + waiting(puzzles, next_rule);
    if puzzles.len() == 0 {
        assert(whole =~= stack);
        assert(views(puzzles) =~= Seq::<PuzzleView>::empty());
        assert(Seq::<PuzzleView>::empty() + pending(rules, stack) =~= pending(rules, stack));
    } else {
        let front = puzzles.drop_last();
        lemma_pending_with_candidates(rules, stack, front, next_rule);
        assert(whole.drop_last() =~= stack + waiting(front, next_rule));
        assert(whole.last() == (IncompleteArtifact { puzzle: puzzles.last(), next_rule }));
        assert(views(puzzles).last() == puzzles.last()@);
        assert(views(puzzles).drop_last() =~= views(front));
        let top = completed(rules, next_rule as nat, puzzles.last()@);
        let below = completed_of_each(rules, next_rule as nat, views(front));
        assert(top + (below + pending(rules, stack)) =~= (top + below) + pending(rules, stack));
    }
}

/// Whether every rule can work on puzzles of the layout.
pub open spec fn all_apply(rules: Seq<&dyn PuzzleRule>, puzzle: PuzzleView) -> bool {
    forall|i: int| 0 <= i < rules.len() ==> rule_applies(#[trigger] rules[i], puzzle.layout)
}

/// Whether the puzzle meets the first `count` rules.
pub open spec fn holds_up_to(rules: Seq<&dyn PuzzleRule>, count: int, puzzle: PuzzleView) -> bool {
    forall|k: int| 0 <= k < count && k < rules.len() ==> rule_holds(#[trigger] rules[k], puzzle)
}

/// Whether the anchor of every declared identifier holds a digit other
/// than zero.
pub open spec fn anchors_filled(puzzle: PuzzleView) -> bool {
    forall|identifier: PuzzleIdentifier| #[trigger]
        puzzle.layout.declares(identifier) ==> puzzle.digit_at(puzzle.layout.anchor(identifier))
            is Some && puzzle.digit_at(puzzle.layout.anchor(identifier))->0 != 0
}

/// The puzzles of a list in which the anchor of every declared identifier
/// holds a digit other than zero, in the order of the list.
pub open spec fn without_leading_zeros(puzzles: Seq<PuzzleView>) -> Seq<PuzzleView>
    decreases puzzles.len(),
{
    if puzzles.len() == 0 {
        Seq::empty()
    } else if anchors_filled(puzzles.last()) {
        without_leading_zeros(puzzles.drop_last()).push(puzzles.last())
    } else {
        without_leading_zeros(puzzles.drop_last())
    }
}

/// Without a rule the search finds the base puzzle and nothing else, and
/// keeps it where it has no leading zero.
pub proof fn lemma_search_without_rules(rules: Seq<&dyn PuzzleRule>, base: PuzzleView)
    requires
        rules.len() == 0,
    ensures
        completed(rules, 0, base) == seq![base],
        without_leading_zeros(completed(rules, 0, base)) == (if anchors_filled(base) {
            seq![base]
        } else {
            Seq::empty()
        }),
{
    let found = seq![base];
    assert(found.drop_last() =~= Seq::<PuzzleView>::empty());
    assert(without_leading_zeros(found.drop_last()) =~= Seq::<PuzzleView>::empty());
    assert(Seq::<PuzzleView>::empty().push(base) =~= seq![base]);
}

/// A puzzle in which the anchor of a declared identifier is unset or holds
/// a zero is not kept.
pub proof fn lemma_leading_zero_is_dropped(puzzle: PuzzleView, identifier: PuzzleIdentifier)
    requires
        puzzle.layout.declares(identifier),
        puzzle.digit_at(puzzle.layout.anchor(identifier)) is None || puzzle.digit_at(
            puzzle.layout.anchor(identifier),
        ) == Some(0u8),
    ensures
        !anchors_filled(puzzle),
{
}

/// An executor that executes a series of rules to generate a reduced set of
/// potiential valid puzzle combinations
pub struct RuleExecutor<'a> {
    base_puzzle: Puzzle,
    rules: Vec<&'a dyn PuzzleRule>,
    attempted_puzzles: usize,
}

/// A count as the machine keeps it: the count itself, or the largest
/// number of the machine where the count is beyond it.
pub open spec fn counted(count: nat) -> usize {
    if count <= usize::MAX {
        count as usize
    } else {
        usize::MAX
    }
}

impl<'a> RuleExecutor<'a> {
    /// The puzzle that the search starts from.
    pub closed spec fn base(&self) -> PuzzleView {
        self.base_puzzle@
    }

    /// The rules of the search, in the order in which they are applied.
    pub closed spec fn rules(&self) -> Seq<&'a dyn PuzzleRule> {
        self.rules@
    }

    /// Create a new executor with a base puzzle and a rule set
    pub fn new(base_puzzle: Puzzle, rules: Vec<&'a dyn PuzzleRule>) -> (executor: Self)
        ensures
            executor.base() == base_puzzle@,
            executor.rules() == rules@,
            executor.attempts() == 0,
    {
        Self { base_puzzle, rules, attempted_puzzles: 0 }
    }

    /// The number of puzzles that the last search took up.
    pub closed spec fn attempts(&self) -> usize {
        self.attempted_puzzles
    }

    /// The number of puzzles that the last search took up: the base puzzle
    /// and every candidate that waited for a rule. Before the first search
    /// it is zero.
    pub fn attempted_puzzles(&self) -> (attempts: usize)
        ensures
            attempts == self.attempts(),
    {
        self.attempted_puzzles
    }

    /// No identifier can start with zero: whether the anchor of every
    /// identifier of the puzzle holds a digit other than zero.
    fn starts_without_zero(puzzle: &Puzzle) -> (kept: bool)
        requires
            puzzle@.layout.anchors_in_grid(),
        ensures
            kept == anchors_filled(puzzle@),
    {
        let identifiers = puzzle.identifers();
        let mut i: usize = 0;
        while i < identifiers.len()
            invariant
                i <= identifiers.len(),
                puzzle@.layout.anchors_in_grid(),
                forall|identifier: PuzzleIdentifier|
                    identifiers@.contains(identifier) <==> puzzle@.layout.declares(identifier),
                forall|j: int|
                    0 <= j < i ==> puzzle@.digit_at(
                        puzzle@.layout.anchor(#[trigger] identifiers@[j]),
                    ) is Some && puzzle@.digit_at(puzzle@.layout.anchor(identifiers@[j]))->0 != 0,
            decreases identifiers.len() - i,
        {
            let identifier = identifiers[i];
            proof {
                assert(identifiers@.contains(identifier));
                assert(puzzle@.layout.declares(identifier));
            }
            // Convert identifier to grid position
            let grid_position = puzzle.identifer_to_grid(identifier);
            // If the digit is 0 or unfilled, this is not a valid puzzle
            let digit = match puzzle.digit_at(grid_position) {
                Some(digit) => digit,
                None => 0,
            };
            if digit == 0 {
                return false;
            }
            i += 1;
        }
        proof {
            assert forall|identifier: PuzzleIdentifier| #[trigger]
                puzzle@.layout.declares(identifier) implies puzzle@.digit_at(
                puzzle@.layout.anchor(identifier),
            ) is Some && puzzle@.digit_at(puzzle@.layout.anchor(identifier))->0 != 0 by {
                assert(identifiers@.contains(identifier));
                let j = choose|j: int| 0 <= j < identifiers@.len() && identifiers@[j] == identifier;
                assert(identifiers@[j] == identifier);
            }
        }
        true
    }

    /// Compute solutions to the puzzle
    pub fn compute(&mut self) -> (solutions: Vec<Puzzle>)
        requires
            all_apply(old(self).rules(), old(self).base()),
            old(self).base().layout.anchors_in_grid(),
        ensures
            final(self).base() == old(self).base(),
            final(self).rules() == old(self).rules(),
            final(self).attempts() == counted(work(old(self).rules(), 0, old(self).base())),
            views(solutions@) == without_leading_zeros(
                completed(old(self).rules(), 0, old(self).base()),
            ),
            forall|i: int|
                0 <= i < solutions@.len() ==> {
                    &&& old(self).base().extended_by((#[trigger] solutions@[i])@)
                    &&& holds_up_to(
                        old(self).rules(),
                        old(self).rules().len() as int,
                        solutions@[i]@,
                    )
                },
    {
        let tables = LookupTables::new();
        let mut puzzle_queue: Vec<IncompleteArtifact> = Vec::new();
        // Add the base untouched puzzle to the queue as its our starting point
        puzzle_queue.push(IncompleteArtifact { puzzle: self.base_puzzle.clone(), next_rule: 0 });
        // Create a buffer for all complete puzzles to go into
        let mut complete_puzzles: Vec<Puzzle> = Vec::new();
        proof {
            let found = completed(self.rules(), 0, self.base());
            assert(puzzle_queue@.last().puzzle@ == self.base());
            assert(puzzle_queue@.last().next_rule == 0);
            assert(puzzle_queue@.drop_last() =~= Seq::<IncompleteArtifact>::empty());
            assert(pending(self.rules(), puzzle_queue@.drop_last()) =~= Seq::<PuzzleView>::empty());
            assert(pending(self.rules(), puzzle_queue@) == found + Seq::<PuzzleView>::empty());
            assert(found + Seq::<PuzzleView>::empty() =~= found);
            assert(views(complete_puzzles@) =~= Seq::<PuzzleView>::empty());
            assert(Seq::<PuzzleView>::empty() + found =~= found);
            assert(pending_work(self.rules(), puzzle_queue@.drop_last()) == 0);
        }
        let ghost total = work(self.rules(), 0, self.base());
        // Go through every single puzzle in the queue
        let mut attempted_puzzles: usize = 0;
        while puzzle_queue.len() > 0
            invariant
                self.rules().len() == self.rules.len(),
                pending_work(self.rules(), puzzle_queue@) <= total,
                attempted_puzzles == counted(
                    (total - pending_work(self.rules(), puzzle_queue@)) as nat,
                ),
                all_apply(self.rules(), self.base()),
                forall|i: int|
                    0 <= i < puzzle_queue@.len() ==> {
                        &&& self.base().extended_by((#[trigger] puzzle_queue@[i]).puzzle@)
                        &&& holds_up_to(
                            self.rules(),
                            puzzle_queue@[i].next_rule as int,
                            puzzle_queue@[i].puzzle@,
                        )
                    },
                forall|i: int|
                    0 <= i < complete_puzzles@.len() ==> {
                        &&& self.base().extended_by((#[trigger] complete_puzzles@[i])@)
                        &&& holds_up_to(
                            self.rules(),
                            self.rules().len() as int,
                            complete_puzzles@[i]@,
                        )
                    },
                views(complete_puzzles@) + pending(self.rules(), puzzle_queue@) == completed(
                    self.rules(),
                    0,
                    self.base(),
                ),
            decreases pending_work(self.rules(), puzzle_queue@),
        {
            let ghost old_queue = puzzle_queue@;
            let ghost stack = puzzle_queue@.drop_last();
            let ghost done = complete_puzzles@;
            let artifact = puzzle_queue.pop().unwrap();
            if attempted_puzzles < usize::MAX {
                attempted_puzzles += 1;
            }
            // Get the next rule to update
            let current_rule = artifact.next_rule;
            let ghost found = completed(self.rules(), current_rule as nat, artifact.puzzle@);
            proof {
                use_type_invariant(&artifact.puzzle);
                assert(puzzle_queue@ =~= stack);
                assert(artifact == old_queue[old_queue.len() - 1]);
                assert(self.base().extended_by(artifact.puzzle@));
                assert(holds_up_to(self.rules(), current_rule as int, artifact.puzzle@));
                assert(all_apply(self.rules(), artifact.puzzle@));
                assert forall|i: int| 0 <= i < stack.len() implies {
                    &&& self.base().extended_by((#[trigger] stack[i]).puzzle@)
                    &&& holds_up_to(self.rules(), stack[i].next_rule as int, stack[i].puzzle@)
                } by {
                    assert(stack[i] == old_queue[i]);
                }
                assert((views(done) + found) + pending(self.rules(), stack) =~= views(done) + (
                found + pending(self.rules(), stack)));
            }
            if current_rule >= self.rules.len() {
                // No rule is left for this puzzle
                complete_puzzles.push(artifact.puzzle);
                proof {
                    assert(views(complete_puzzles@) =~= views(done) + found);
                    assert forall|i: int| 0 <= i < complete_puzzles@.len() implies {
                        &&& self.base().extended_by((#[trigger] complete_puzzles@[i])@)
                        &&& holds_up_to(
                            self.rules(),
                            self.rules().len() as int,
                            complete_puzzles@[i]@,
                        )
                    } by {
                        if i < done.len() {
                            assert(complete_puzzles@[i] == done[i]);
                        }
                    }
                }
            } else {
                // Evaluate the next rule
                let mut puzzle_buffer: Vec<Puzzle> = Vec::new();
                self.rules[current_rule].generate(&tables, &artifact.puzzle, &mut puzzle_buffer);
                let ghost candidates = puzzle_buffer@;
                proof {
                    assert(views(Seq::<Puzzle>::empty()) =~= Seq::<PuzzleView>::empty());
                    assert(views(candidates) =~= self.rules()[current_rule as int].candidates(
                        artifact.puzzle@,
                    ));
                    // what the rule yields meets the rule and all the rules before it
                    assert forall|i: int| 0 <= i < candidates.len() implies {
                        &&& self.base().extended_by((#[trigger] candidates[i])@)
                        &&& holds_up_to(self.rules(), current_rule + 1, candidates[i]@)
                    } by {
                        let candidate = candidates[i]@;
                        assert(artifact.puzzle@.extended_by(candidate));
                        assert(rule_holds(self.rules()[current_rule as int], candidate));
                        assert forall|k: int|
                            0 <= k < current_rule + 1 && k < self.rules().len() implies rule_holds(
                            #[trigger] self.rules()[k],
                            candidate,
                        ) by {
                            if k < current_rule {
                                assert(rule_holds(self.rules()[k], artifact.puzzle@));
                                assert(rule_applies(self.rules()[k], artifact.puzzle@.layout));
                                lemma_rule_holds_on(self.rules()[k], artifact.puzzle@, candidate);
                            }
                        }
                    }
                }
                if current_rule == self.rules.len() - 1 {
                    // If this was the last rule empty the puzzle buffer into the complete puzzles stack
                    complete_puzzles.append(&mut puzzle_buffer);
                    proof {
                        assert(complete_puzzles@ =~= done + candidates);
                        assert(views(complete_puzzles@) =~= views(done) + found);
                        assert forall|i: int| 0 <= i < complete_puzzles@.len() implies {
                            &&& self.base().extended_by((#[trigger] complete_puzzles@[i])@)
                            &&& holds_up_to(
                                self.rules(),
                                self.rules().len() as int,
                                complete_puzzles@[i]@,
                            )
                        } by {
                            if i < done.len() {
                                assert(complete_puzzles@[i] == done[i]);
                            } else {
                                assert(complete_puzzles@[i] == candidates[i - done.len()]);
                            }
                        }
                    }
                } else {
                    // This was not the last rule to apply so take puzzles from puzzle buffer
                    // and convert them into artifacts
                    let next_rule = current_rule + 1;
                    proof {
                        lemma_pending_with_candidates(self.rules(), stack, candidates, next_rule);
                        assert(stack + waiting(candidates.subrange(0, 0), next_rule) =~= stack);
                    }
                    // Add the artifacts to the buffer of incomplete puzzles
                    for puzzle in iter: puzzle_buffer.into_iter()
                        invariant
                            iter.seq() == candidates,
                            puzzle_queue@ == stack + waiting(
                                candidates.subrange(0, iter.index()),
                                next_rule,
                            ),
                    {
                        let ghost moved = candidates.subrange(0, iter.index());
                        let ghost moved_after = candidates.subrange(0, iter.index() + 1);
                        puzzle_queue.push(IncompleteArtifact { puzzle, next_rule });
                        proof {
                            assert(moved_after =~= moved.push(puzzle));
                            assert(waiting(moved_after, next_rule) =~= waiting(
                                moved,
                                next_rule,
                            ).push(IncompleteArtifact { puzzle, next_rule }));
                        }
                    }
                    proof {
                        assert(candidates.subrange(0, candidates.len() as int) =~= candidates);
                        assert forall|i: int| 0 <= i < puzzle_queue@.len() implies {
                            &&& self.base().extended_by((#[trigger] puzzle_queue@[i]).puzzle@)
                            &&& holds_up_to(
                                self.rules(),
                                puzzle_queue@[i].next_rule as int,
                                puzzle_queue@[i].puzzle@,
                            )
                        } by {
                            if i >= stack.len() {
                                assert(puzzle_queue@[i].puzzle == candidates[i - stack.len()]);
                                assert(puzzle_queue@[i].next_rule == next_rule);
                            } else {
                                assert(puzzle_queue@[i] == stack[i]);
                            }
                        }
                    }
                }
            }
            proof {
                // one puzzle was taken up
                assert(pending_work(self.rules(), puzzle_queue@) + 1 == pending_work(
                    self.rules(),
                    old_queue,
                ));
            }
        }
        self.attempted_puzzles = attempted_puzzles;
        proof {
            assert(views(complete_puzzles@) + Seq::<PuzzleView>::empty() =~= views(
                complete_puzzles@,
            ));
        }
        let ghost all = complete_puzzles@;
        assert(views(all) == completed(self.rules(), 0, self.base()));
        // Turn the puzzles round, so that they can be taken in their order
        let mut backwards: Vec<Puzzle> = Vec::new();
        while complete_puzzles.len() > 0
            invariant
                complete_puzzles@ == all.subrange(0, complete_puzzles@.len() as int),
                complete_puzzles@.len() <= all.len(),
                backwards@.len() == all.len() - complete_puzzles@.len(),
                forall|i: int|
                    0 <= i < backwards@.len() ==> #[trigger] backwards@[i] == all[all.len() - 1
                        - i],
            decreases complete_puzzles.len(),
        {
            let ghost place = complete_puzzles@.len() - 1;
            let puzzle = complete_puzzles.pop().unwrap();
            proof {
                assert(puzzle == all[place]);
                assert(complete_puzzles@ =~= all.subrange(0, place));
            }
            backwards.push(puzzle);
        }
        // No identifier can start with zero so eliminate those puzzles
        let mut solutions: Vec<Puzzle> = Vec::new();
        proof {
            assert(views(all).subrange(0, 0) =~= Seq::<PuzzleView>::empty());
            assert(views(solutions@) =~= Seq::<PuzzleView>::empty());
        }
        while backwards.len() > 0
            invariant
                self.base().layout.anchors_in_grid(),
                backwards@.len() <= all.len(),
                forall|i: int|
                    0 <= i < backwards@.len() ==> #[trigger] backwards@[i] == all[all.len() - 1
                        - i],
                forall|i: int|
                    0 <= i < all.len() ==> {
                        &&& self.base().extended_by((#[trigger] all[i])@)
                        &&& holds_up_to(self.rules(), self.rules().len() as int, all[i]@)
                    },
                forall|i: int|
                    0 <= i < solutions@.len() ==> {
                        &&& self.base().extended_by((#[trigger] solutions@[i])@)
                        &&& holds_up_to(self.rules(), self.rules().len() as int, solutions@[i]@)
                    },
                views(solutions@) == without_leading_zeros(
                    views(all).subrange(0, all.len() - backwards@.len()),
                ),
            decreases backwards.len(),
        {
            let ghost place = all.len() - backwards@.len();
            let ghost before = solutions@;
            let puzzle = backwards.pop().unwrap();
            proof {
                assert(puzzle == all[place]);
                let seen = views(all).subrange(0, place + 1);
                assert(seen.last() == puzzle@);
                assert(seen.drop_last() =~= views(all).subrange(0, place));
            }
            if Self::starts_without_zero(&puzzle) {
                solutions.push(puzzle);
                proof {
                    assert(views(solutions@) =~= views(before).push(puzzle@));
                }
            }
        }
        proof {
            assert(views(all).subrange(0, all.len() as int) =~= views(all));
        }
        solutions
    }
}

} // verus!
