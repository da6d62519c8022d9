use vstd::prelude::*;
use crate::draw::{draw_index, index_for_draw, lemma_weights_total_last, random_below, weights_total};
use crate::game::{
    initial_weights, lemma_pow_bound, list_total, pow_exec, OutcomeIndex, SlotIndex,
    SlotMask,
};
use crate::outcome::UnorderedDiceOutcome;
use crate::masks::{filled_count, has_slot, is_filled, lemma_fill_within, lemma_filled_count_add, within};
use crate::scoring::MAX_SCORE;
use crate::solver::{
    lemma_entry_kind, level, expecteds, round_solved, BestMove, BestMoveWithScore, GameSolver,
};

verus! {

/// A state of play: the filled categories, the rerolls left, the current dice
/// and the points scored so far.
#[derive(Debug, Clone, Copy, PartialEq, Eq)]
pub struct Position {
    pub slot_mask: SlotMask,
    pub rerolls_left: u8,
    pub outcome_index: OutcomeIndex,
    pub score: u64,
}

/// The weights of a transition list, in order.
pub open spec fn list_weights(list: Seq<(usize, u64)>) -> Seq<u64> {
    list.map_values(|e: (usize, u64)| e.1)
}

/// The categories among `0..k` that are filled (or empty) in `mask`, increasing.
pub open spec fn slot_indices(mask: u32, k: nat, filled: bool) -> Seq<SlotIndex>
    decreases k,
{
    if k == 0 {
        seq![]
    } else {
        let before = slot_indices(mask, (k - 1) as nat, filled);
        if has_slot(mask, (k - 1) as nat) == filled {
            before.push((k - 1) as usize)
        } else {
            before
        }
    }
}

proof fn lemma_list_weights_total(list: Seq<(usize, u64)>)
    ensures
        weights_total(list_weights(list)) == list_total(list),
    decreases list.len(),
{
    if list.len() > 0 {
        lemma_list_weights_total(list.drop_last());
        lemma_weights_total_last(list_weights(list));
        assert(list_weights(list).drop_last() =~= list_weights(list.drop_last()));
    }
}

/// Each position of `path` is the one after the action recorded for the
/// position before it, for some random draw.
pub open spec fn is_run(solver: &GameSolver, path: Seq<Position>) -> bool {
    forall|i: int| 0 <= i < path.len() - 1 ==> #[trigger] follows(solver, path[i], path[i + 1])
}

/// `to` is the position after the action recorded for `from`, for some random draw.
pub open spec fn follows(solver: &GameSolver, from: Position, to: Position) -> bool {
    exists|d: nat| Some(to) == #[trigger] from.after(solver, d)
}

impl Position {
    /// A position of a solved game whose fields are in range.
    pub open spec fn valid(&self, solver: &GameSolver) -> bool {
        let g = solver.game;
        &&& solver.is_solved()
        &&& g.wf()
        &&& within(self.slot_mask, g.num_slots())
        &&& self.rerolls_left <= g.num_rolls
        &&& self.outcome_index < g.num_outcomes()
        &&& self.score <= filled_count(self.slot_mask, g.num_slots()) * MAX_SCORE
    }

    /// An upper bound on the steps left before the game ends.
    pub open spec fn steps_left(&self, solver: &GameSolver) -> nat {
        let g = solver.game;
        ((g.num_slots() - filled_count(self.slot_mask, g.num_slots())) as nat) * (g.num_rolls + 1) as nat
            + self.rerolls_left as nat
    }

    /// The action recorded for this position.
    pub open spec fn recorded(&self, solver: &GameSolver) -> BestMoveWithScore {
        solver.rounds@[self.slot_mask as int].best_moves@[self.rerolls_left as int]@[self.outcome_index as int]
    }

    /// The position after the recorded action when the random draw is `draw`:
    /// a filled category starts a fresh roll, a reroll draws among its
    /// transitions; `None` at the end of the game.
    pub open spec fn after(&self, solver: &GameSolver, draw: nat) -> Option<Position> {
        let g = solver.game;
        match self.recorded(solver).best_move {
            BestMove::SelectSlot(s) => Some(Position {
                slot_mask: self.slot_mask | (1u32 << s as u32),
                rerolls_left: g.num_rolls,
                outcome_index: draw_index(initial_weights(g.outcomes@), draw % g.roll_denominator()) as usize,
                score: (self.score + g.score_of(s as int, self.outcome_index as int)) as u64,
            }),
            BestMove::Move(m) => {
                let list = g.transitions(self.outcome_index as int, m as int);
                Some(Position {
                    slot_mask: self.slot_mask,
                    rerolls_left: (self.rerolls_left - 1) as u8,
                    outcome_index: list[draw_index(list_weights(list), draw % g.move_denominator(m as int)) as int].0,
                    score: self.score,
                })
            },
            BestMove::Unknown => None,
        }
    }

    pub fn get_best_move(&self, solver: &GameSolver) -> (r: Option<BestMoveWithScore>)
        requires
            self.valid(solver),
        ensures
            r == Some(self.recorded(solver)),
    {
        proof {
            self.lemma_recorded_in_range(solver);
        }
        solver.get_best_move(self.slot_mask, self.rerolls_left as usize, self.outcome_index)
    }

    proof fn lemma_recorded_in_range(&self, solver: &GameSolver)
        requires
            self.valid(solver),
        ensures
            (self.slot_mask as int) < solver.rounds@.len(),
            self.rerolls_left < solver.rounds@[self.slot_mask as int].best_moves@.len(),
            self.outcome_index < solver.rounds@[self.slot_mask as int].best_moves@[self.rerolls_left as int]@.len(),
            solver.rounds@[self.slot_mask as int].best_moves@[self.rerolls_left as int]@ == level(
                solver.game,
                expecteds(solver.rounds@),
                self.slot_mask,
                self.rerolls_left as nat,
            ),
            match self.recorded(solver).best_move {
                BestMove::SelectSlot(s) => s < solver.game.num_slots() && !has_slot(self.slot_mask, s as nat),
                BestMove::Move(m) => m < solver.game.num_moves() && self.rerolls_left > 0,
                BestMove::Unknown => true,
            },
    {
        let g = solver.game;
        let n = g.num_slots();
        if n >= 32 {
            vstd::arithmetic::power2::lemma2_to64();
            vstd::arithmetic::power2::lemma2_to64_rest();
        }
        assert(round_solved(g, expecteds(solver.rounds@), self.slot_mask, solver.rounds@[self.slot_mask as int]));
        vstd::arithmetic::power2::lemma2_to64();
        if g.num_dice < 8 {
            vstd::arithmetic::power2::lemma_pow2_strictly_increases(g.num_dice as nat, 8);
        }
        lemma_entry_kind(g, expecteds(solver.rounds@), self.slot_mask, self.rerolls_left as nat, self.outcome_index as int);
    }

    /// A category to fill is an empty one of the game.
    pub proof fn lemma_select_in_range(&self, solver: &GameSolver)
        requires
            self.valid(solver),
        ensures
            self.recorded(solver).best_move matches BestMove::SelectSlot(s) ==> s < solver.game.num_slots()
                && solver.game.scores@[s as int]@.len() == solver.game.num_outcomes(),
    {
        self.lemma_recorded_in_range(solver);
    }

    /// The score of the position after a step adds what the filled category scored.
    pub proof fn lemma_select_score(&self, solver: &GameSolver, next: Position)
        requires
            self.valid(solver),
            exists|d: nat| Some(next) == self.after(solver, d),
        ensures
            next.score == self.score + match self.recorded(solver).best_move {
                BestMove::SelectSlot(s) => solver.game.score_of(s as int, self.outcome_index as int),
                _ => 0,
            },
            next.slot_mask == match self.recorded(solver).best_move {
                BestMove::SelectSlot(s) => self.slot_mask | (1u32 << s as u32),
                _ => self.slot_mask,
            },
            self.recorded(solver).best_move matches BestMove::SelectSlot(s) ==> s < solver.game.num_slots()
                && !has_slot(self.slot_mask, s as nat),
    {
        self.lemma_recorded_in_range(solver);
        let g = solver.game;
        if let BestMove::SelectSlot(s) = self.recorded(solver).best_move {
            crate::masks::lemma_filled_count_le(self.slot_mask, g.num_slots());
            assert(self.score + g.score_of(s as int, self.outcome_index as int) <= 33 * 4096) by (nonlinear_arith)
                requires self.score <= filled_count(self.slot_mask, g.num_slots()) * MAX_SCORE,
                    filled_count(self.slot_mask, g.num_slots()) <= 32,
                    g.score_of(s as int, self.outcome_index as int) <= MAX_SCORE;
        }
    }

    /// The game ends exactly when every category is filled.
    pub proof fn lemma_terminal_all_filled(&self, solver: &GameSolver)
        requires
            self.valid(solver),
        ensures
            (self.recorded(solver).best_move == BestMove::Unknown)
                == (filled_count(self.slot_mask, solver.game.num_slots()) == solver.game.num_slots()),
    {
        self.lemma_recorded_in_range(solver);
        crate::solver::lemma_unknown_iff_all_filled(
            solver.game,
            expecteds(solver.rounds@),
            self.slot_mask,
            self.rerolls_left as nat,
            self.outcome_index as int,
        );
    }

    /// The game has ended: no action is recorded, as every category is filled.
    pub fn is_final(&self, solver: &GameSolver) -> (r: bool)
        requires
            self.valid(solver),
        ensures
            r == (self.recorded(solver).best_move == BestMove::Unknown),
            r == (filled_count(self.slot_mask, solver.game.num_slots()) == solver.game.num_slots()),
    {
        proof {
            self.lemma_terminal_all_filled(solver);
        }
        match self.get_best_move(solver) {
            Some(b) => matches!(b.best_move, BestMove::Unknown),
            None => true,
        }
    }

    fn slots_where(&self, solver: &GameSolver, filled: bool) -> (r: Vec<SlotIndex>)
        requires
            solver.game.num_slots() <= 32,
        ensures
            r@ == slot_indices(self.slot_mask, solver.game.num_slots(), filled),
    {
        let mut r: Vec<SlotIndex> = Vec::new();
        let mut s: usize = 0;
        while s < solver.game.slots.len()
            invariant
                s <= solver.game.num_slots() <= 32,
                r@ == slot_indices(self.slot_mask, s as nat, filled),
            decreases solver.game.num_slots() - s,
        {
            if is_filled(self.slot_mask, s) == filled {
                r.push(s);
            }
            s += 1;
        }
        r
    }

    /// The categories still empty, increasing.
    pub fn available_slots(&self, solver: &GameSolver) -> (r: Vec<SlotIndex>)
        requires
            solver.game.num_slots() <= 32,
        ensures
            r@ == slot_indices(self.slot_mask, solver.game.num_slots(), false),
    {
        self.slots_where(solver, false)
    }

    /// The categories filled, increasing.
    pub fn filled_slots(&self, solver: &GameSolver) -> (r: Vec<SlotIndex>)
        requires
            solver.game.num_slots() <= 32,
        ensures
            r@ == slot_indices(self.slot_mask, solver.game.num_slots(), true),
    {
        self.slots_where(solver, true)
    }

    /// The position after the recorded action, with `draw` as the random draw.
    pub fn next_position(&self, solver: &GameSolver, draw: u64) -> (r: Option<Position>)
        requires
            self.valid(solver),
        ensures
            r == self.after(solver, draw as nat),
            r matches Some(p) ==> p.valid(solver) && p.steps_left(solver) < self.steps_left(solver),
    {
        proof {
            self.lemma_recorded_in_range(solver);
        }
        let g = &solver.game;
        let ghost n = g.num_slots();
        let best = solver.rounds[self.slot_mask as usize].best_moves[self.rerolls_left as usize][self.outcome_index];
        match best.best_move {
            BestMove::SelectSlot(s) => {
                proof {
                    lemma_pow_bound(g.num_sides as nat, g.num_dice as nat);
                    lemma_fill_within(self.slot_mask, s as nat, n);
                    lemma_filled_count_add(self.slot_mask, s as nat, n);
                    crate::masks::lemma_filled_count_le(self.slot_mask | (1u32 << s as u32), n);
                }
                let denominator = pow_exec(g.num_sides, g.num_dice);
                let outcome_index = g.outcome_for_draw(draw % denominator);
                let points = g.scores[s][self.outcome_index] as u64;
                let ghost f = filled_count(self.slot_mask, n);
                assert(self.score + points <= (f + 1) * MAX_SCORE) by (nonlinear_arith)
                    requires self.score <= f * MAX_SCORE, points <= MAX_SCORE;
                assert((f + 1) * MAX_SCORE <= 33 * 4096) by (nonlinear_arith)
                    requires f <= 32;
                let p = Position {
                    slot_mask: self.slot_mask | (1u32 << s as u32),
                    rerolls_left: g.num_rolls,
                    outcome_index,
                    score: self.score + points,
                };
                assert(p.steps_left(solver) < self.steps_left(solver)) by (nonlinear_arith)
                    requires
                        p.steps_left(solver) == ((n - (f + 1)) as nat) * (g.num_rolls + 1) as nat + g.num_rolls as nat,
                        self.steps_left(solver) == ((n - f) as nat) * (g.num_rolls + 1) as nat + self.rerolls_left as nat,
                        f + 1 <= n;
                Some(p)
            },
            BestMove::Move(m) => {
                let list = &g.probabilities[self.outcome_index][m];
                assert(list@ == g.transitions(self.outcome_index as int, m as int));
                let mut weights: Vec<u64> = Vec::new();
                let mut i: usize = 0;
                while i < list.len()
                    invariant
                        i <= list@.len(),
                        weights@ == list_weights(list@).take(i as int),
                    decreases list@.len() - i,
                {
                    weights.push(list[i].1);
                    i += 1;
                    assert(weights@ =~= list_weights(list@).take(i as int));
                }
                assert(weights@ =~= list_weights(list@));
                proof {
                    lemma_list_weights_total(list@);
                    let rer = g.moves@[m as int].rerolled@;
                    assert(rer == crate::reroll::reroll_bits(m as u32, g.num_dice as nat));
                    crate::game::lemma_num_rerolled_le(rer);
                    lemma_pow_bound(g.num_sides as nat, crate::reroll::num_rerolled(rer));
                }
                let denominator = pow_exec(g.num_sides, crate::game::count_rerolled(&g.moves[m].rerolled));
                let k = index_for_draw(&weights, draw % denominator);
                let p = Position {
                    slot_mask: self.slot_mask,
                    rerolls_left: self.rerolls_left - 1,
                    outcome_index: list[k].0,
                    score: self.score,
                };
                Some(p)
            },
            BestMove::Unknown => None,
        }
    }

    /// The position after the recorded action, with the dice drawn at random.
    pub fn follow_best_move(&self, solver: &GameSolver) -> (r: Option<Position>)
        requires
            self.valid(solver),
        ensures
            exists|d: nat| r == self.after(solver, d),
            r matches Some(p) ==> p.valid(solver) && p.steps_left(solver) < self.steps_left(solver),
    {
        proof {
            self.lemma_recorded_in_range(solver);
            lemma_pow_bound(solver.game.num_sides as nat, solver.game.num_dice as nat);
        }
        let g = &solver.game;
        let best = solver.rounds[self.slot_mask as usize].best_moves[self.rerolls_left as usize][self.outcome_index];
        let bound = match best.best_move {
            BestMove::SelectSlot(_) => pow_exec(g.num_sides, g.num_dice),
            BestMove::Move(m) => {
                proof {
                    let rer = g.moves@[m as int].rerolled@;
                    assert(rer == crate::reroll::reroll_bits(m as u32, g.num_dice as nat));
                    crate::game::lemma_num_rerolled_le(rer);
                    lemma_pow_bound(g.num_sides as nat, crate::reroll::num_rerolled(rer));
                }
                pow_exec(g.num_sides, crate::game::count_rerolled(&g.moves[m].rerolled))
            },
            BestMove::Unknown => 1,
        };
        let draw = random_below(bound);
        self.next_position(solver, draw)
    }
}

impl GameSolver {
    /// The start of a game: nothing filled, every reroll left, and the given
    /// dice or a fresh roll drawn with `draw`.
    pub fn position_for_draw(&self, initial_outcome: Option<&UnorderedDiceOutcome>, draw: u64) -> (r: Position)
        requires
            self.is_solved(),
            self.game.wf(),
            initial_outcome matches Some(o) ==> o.index < self.game.num_outcomes(),
        ensures
            r.valid(self),
            r.slot_mask == 0,
            r.rerolls_left == self.game.num_rolls,
            r.score == 0,
            r.outcome_index == match initial_outcome {
                Some(o) => o.index,
                None => draw_index(initial_weights(self.game.outcomes@), (draw as nat) % self.game.roll_denominator()) as usize,
            },
    {
        proof {
            lemma_pow_bound(self.game.num_sides as nat, self.game.num_dice as nat);
            crate::masks::lemma_filled_count_le(0, self.game.num_slots());
            vstd::arithmetic::power2::lemma_pow2_pos(self.game.num_slots());
        }
        let outcome_index = match initial_outcome {
            Some(o) => o.index,
            None => {
                let denominator = pow_exec(self.game.num_sides, self.game.num_dice);
                self.game.outcome_for_draw(draw % denominator)
            },
        };
        Position { slot_mask: 0, rerolls_left: self.game.num_rolls, outcome_index, score: 0 }
    }

    /// The start of a game, with the given dice or a fresh random roll.
    pub fn initial_position(&self, initial_outcome: Option<&UnorderedDiceOutcome>) -> (r: Position)
        requires
            self.is_solved(),
            self.game.wf(),
            initial_outcome matches Some(o) ==> o.index < self.game.num_outcomes(),
        ensures
            r.valid(self),
            r.slot_mask == 0,
            r.rerolls_left == self.game.num_rolls,
            r.score == 0,
            initial_outcome matches Some(o) ==> r.outcome_index == o.index,
    {
        proof {
            lemma_pow_bound(self.game.num_sides as nat, self.game.num_dice as nat);
        }
        let denominator = pow_exec(self.game.num_sides, self.game.num_dice);
        let draw = random_below(denominator);
        self.position_for_draw(initial_outcome, draw)
    }
}

} // verus!
