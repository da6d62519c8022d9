use vstd::prelude::*;
use vstd::arithmetic::power2::pow2;
use rayon::iter::IntoParallelRefMutIterator;
use rayon::iter::ParallelIterator;
use crate::game::{
    lemma_num_rerolled_le, lemma_pow_bound, list_total, weight_total, DiceGame, MoveIndex,
    OutcomeIndex, SlotIndex, SlotMask, MAX_SLOTS,
};
use crate::masks::{
    count_filled, filled_count, has_slot, is_filled, lemma_fill_within,
    lemma_filled_count_add, lemma_filled_count_le, within,
};
use crate::outcome::UnorderedDiceOutcome;
use crate::reroll::{num_rerolled, reroll_bits};
use crate::scoring::MAX_SCORE;

verus! {

/// Fixed-point units per point of score.
pub const SCALE: u64 = 1_000_000;

/// No expected score exceeds this many units: every category at its maximum.
pub const MAX_VALUE: u64 = 32 * 4096 * 1_000_000;

/// The action recorded for a state.
#[derive(Debug, Clone, Copy, PartialEq, Eq, Structural)]
pub enum BestMove {
    /// Fill this category with the current dice.
    SelectSlot(SlotIndex),
    /// Reroll with this move.
    Move(MoveIndex),
    /// No action: every category is filled.
    Unknown,
}

/// An action with the expected remaining score, in units of `1 / SCALE` points, that it yields.
#[derive(Debug, Clone, Copy, PartialEq, Eq, Structural)]
pub struct BestMoveWithScore {
    pub best_move: BestMove,
    pub expected_score: u64,
}

pub open spec fn unknown_move() -> BestMoveWithScore {
    BestMoveWithScore { best_move: BestMove::Unknown, expected_score: 0 }
}

/// The expected scores of a table of rounds, indexed by mask.
pub open spec fn expecteds(rounds: Seq<Round>) -> Seq<u64> {
    rounds.map_values(|r: Round| r.expected_score)
}

/// An upper bound on the expected remaining score of `mask`: every empty category at its maximum.
pub open spec fn value_bound(g: DiceGame, mask: u32) -> nat {
    ((g.num_slots() - filled_count(mask, g.num_slots())) as nat) * (MAX_SCORE as nat * SCALE as nat)
}

/// The value of filling `slot` with outcome `o` in round `mask`: its points plus the
/// expected score of the round that follows.
pub open spec fn select_value(g: DiceGame, expected: Seq<u64>, mask: u32, o: int, slot: nat) -> nat {
    g.score_of(slot as int, o) * SCALE as nat + expected[(mask | (1u32 << slot as u32)) as int] as nat
}

/// The best category among `0..k` to fill now; the first best on ties, `Unknown` when none is empty.
pub open spec fn select_best(g: DiceGame, expected: Seq<u64>, mask: u32, o: int, k: nat) -> BestMoveWithScore
    decreases k,
{
    if k == 0 {
        unknown_move()
    } else {
        let prev = select_best(g, expected, mask, o, (k - 1) as nat);
        let s = (k - 1) as nat;
        if has_slot(mask, s) {
            prev
        } else {
            let v = select_value(g, expected, mask, o, s) as u64;
            if prev.best_move == BestMove::Unknown || prev.expected_score < v {
                BestMoveWithScore { best_move: BestMove::SelectSlot(s as usize), expected_score: v }
            } else {
                prev
            }
        }
    }
}

/// Sum over a transition list of weight times the expected score of the destination.
pub open spec fn weighted_sum(list: Seq<(usize, u64)>, values: Seq<BestMoveWithScore>) -> nat
    decreases list.len(),
{
    if list.len() == 0 {
        0
    } else {
        weighted_sum(list.drop_last(), values) + list.last().1 as nat * values[list.last().0 as int].expected_score as nat
    }
}

/// Expected score of rerolling `o` with move `m` when `below` holds the values
/// with one reroll fewer left, rounded down.
pub open spec fn move_value(g: DiceGame, below: Seq<BestMoveWithScore>, o: int, m: int) -> nat {
    weighted_sum(g.transitions(o, m), below) / g.move_denominator(m)
}

/// The best of `start` and moves `0..k`; an earlier action keeps ties.
pub open spec fn reroll_best(
    g: DiceGame,
    below: Seq<BestMoveWithScore>,
    o: int,
    start: BestMoveWithScore,
    k: nat,
) -> BestMoveWithScore
    decreases k,
{
    if k == 0 {
        start
    } else {
        let prev = reroll_best(g, below, o, start, (k - 1) as nat);
        let v = move_value(g, below, o, k - 1) as u64;
        if prev.expected_score < v {
            BestMoveWithScore { best_move: BestMove::Move((k - 1) as usize), expected_score: v }
        } else {
            prev
        }
    }
}

/// Best actions with no reroll left: fill a category.
pub open spec fn first_level(g: DiceGame, expected: Seq<u64>, mask: u32) -> Seq<BestMoveWithScore> {
    Seq::new(g.num_outcomes(), |o: int| select_best(g, expected, mask, o, g.num_slots()))
}

/// Best actions with one more reroll left than `below`: fill now, or reroll.
pub open spec fn next_level(
    g: DiceGame,
    expected: Seq<u64>,
    mask: u32,
    below: Seq<BestMoveWithScore>,
) -> Seq<BestMoveWithScore> {
    Seq::new(
        g.num_outcomes(),
        |o: int| reroll_best(g, below, o, select_best(g, expected, mask, o, g.num_slots()), g.num_moves()),
    )
}

/// Best actions of round `mask` with `r` rerolls left, per outcome.
pub open spec fn level(g: DiceGame, expected: Seq<u64>, mask: u32, r: nat) -> Seq<BestMoveWithScore>
    decreases r,
{
    if r == 0 {
        first_level(g, expected, mask)
    } else {
        next_level(g, expected, mask, level(g, expected, mask, (r - 1) as nat))
    }
}

/// Sum over outcomes of a-priori weight times value.
pub open spec fn apriori_weighted_sum(outcomes: Seq<UnorderedDiceOutcome>, values: Seq<BestMoveWithScore>) -> nat
    decreases outcomes.len(),
{
    if outcomes.len() == 0 {
        0
    } else {
        apriori_weighted_sum(outcomes.drop_last(), values) + outcomes.last().initial_weight as nat
            * values[outcomes.len() - 1].expected_score as nat
    }
}

/// Expected score of a round before its first roll, rounded down.
pub open spec fn round_expected(g: DiceGame, values: Seq<BestMoveWithScore>) -> nat {
    apriori_weighted_sum(g.outcomes@, values) / g.roll_denominator()
}

/// `round` holds the solution of round `mask` given the expected scores of the
/// rounds that can follow it.
pub open spec fn round_solved(g: DiceGame, expected: Seq<u64>, mask: u32, round: Round) -> bool {
    &&& round.slots == mask
    &&& round.best_moves@.len() == g.num_rolls + 1
    &&& forall|r: int| 0 <= r <= g.num_rolls ==> (#[trigger] round.best_moves@[r])@ == level(g, expected, mask, r as nat)
    &&& round.expected_score == round_expected(g, level(g, expected, mask, g.num_rolls as nat))
}

/// Every round that can follow `mask` is solved, within its bound.
pub open spec fn successors_ready(g: DiceGame, rounds: Seq<Round>, mask: u32) -> bool {
    forall|s: nat| s < g.num_slots() && !#[trigger] has_slot(mask, s) ==>
        rounds[(mask | (1u32 << s as u32)) as int].expected_score <= value_bound(g, mask | (1u32 << s as u32))
}

/// The solved sub-problem of one set of filled categories.
pub struct Round {
    /// The filled categories.
    pub slots: SlotMask,
    /// Expected remaining score before the first roll.
    pub expected_score: u64,
    /// `best_moves[rerolls_left][outcome]`.
    pub best_moves: Vec<Vec<BestMoveWithScore>>,
}

/// The rounds with the same number of filled categories.
pub struct Stage {
    /// How many categories each of its rounds has filled.
    pub number: usize,
    /// Its rounds' masks, increasing.
    pub masks: Vec<SlotMask>,
}


proof fn lemma_list_total_prefix(list: Seq<(usize, u64)>, k: int)
    requires
        0 <= k <= list.len(),
    ensures
        list_total(list.take(k)) <= list_total(list),
    decreases list.len() - k,
{
    if k < list.len() {
        lemma_list_total_prefix(list, k + 1);
        assert(list.take(k + 1).drop_last() =~= list.take(k));
    } else {
        assert(list.take(k) =~= list);
    }
}

proof fn lemma_weight_total_prefix(outcomes: Seq<UnorderedDiceOutcome>, k: int)
    requires
        0 <= k <= outcomes.len(),
    ensures
        weight_total(outcomes.take(k)) <= weight_total(outcomes),
    decreases outcomes.len() - k,
{
    if k < outcomes.len() {
        lemma_weight_total_prefix(outcomes, k + 1);
        assert(outcomes.take(k + 1).drop_last() =~= outcomes.take(k));
    } else {
        assert(outcomes.take(k) =~= outcomes);
    }
}

proof fn lemma_scaled_sum_div(acc: nat, total: nat, b: nat)
    requires
        total >= 1,
        acc <= total * b,
    ensures
        acc / total <= b,
{
    vstd::arithmetic::div_mod::lemma_div_is_ordered(acc as int, (total * b) as int, total as int);
    vstd::arithmetic::div_mod::lemma_div_multiples_vanish(b as int, total as int);
    assert(total * b == b * total) by (nonlinear_arith);
}

proof fn lemma_value_bound_max(g: DiceGame, mask: u32)
    requires
        g.num_slots() <= MAX_SLOTS,
    ensures
        value_bound(g, mask) <= MAX_VALUE,
{
    lemma_filled_count_le(mask, g.num_slots());
    let k = (g.num_slots() - filled_count(mask, g.num_slots())) as nat;
    assert(k * (MAX_SCORE as nat * SCALE as nat) <= 32 * (4096 * 1_000_000)) by (nonlinear_arith)
        requires k <= 32, MAX_SCORE == 4096, SCALE == 1_000_000;
}

proof fn lemma_move_denominator(g: DiceGame, m: int)
    requires
        g.wf(),
        0 <= m < g.num_moves(),
    ensures
        1 <= g.move_denominator(m) <= 0x1_0000_0000,
{
    let rer = g.moves@[m].rerolled@;
    assert(rer == reroll_bits(m as u32, g.num_dice as nat));
    lemma_num_rerolled_le(rer);
    lemma_pow_bound(g.num_sides as nat, num_rerolled(rer));
}

/// The best category to fill now for outcome `o` in round `mask`.
fn select_best_exec(g: &DiceGame, rounds: &Vec<Round>, mask: u32, o: usize) -> (r: BestMoveWithScore)
    requires
        g.wf(),
        rounds@.len() == pow2(g.num_slots()),
        within(mask, g.num_slots()),
        o < g.num_outcomes(),
        successors_ready(*g, rounds@, mask),
    ensures
        r == select_best(*g, expecteds(rounds@), mask, o as int, g.num_slots()),
        r.expected_score <= value_bound(*g, mask),
{
    let n = g.slots.len();
    let ghost expected = expecteds(rounds@);
    let ghost unit = MAX_SCORE as nat * SCALE as nat;
    let mut best = BestMoveWithScore { best_move: BestMove::Unknown, expected_score: 0 };
    let mut s: usize = 0;
    while s < n
        invariant
            g.wf(),
            n == g.num_slots() <= MAX_SLOTS,
            rounds@.len() == pow2(g.num_slots()),
            within(mask, g.num_slots()),
            o < g.num_outcomes(),
            successors_ready(*g, rounds@, mask),
            expected == expecteds(rounds@),
            unit == MAX_SCORE as nat * SCALE as nat,
            s <= n,
            best == select_best(*g, expected, mask, o as int, s as nat),
            best.expected_score <= value_bound(*g, mask),
        decreases n - s,
    {
        if !is_filled(mask, s) {
            let q = mask | (1u32 << s as u32);
            proof {
                lemma_fill_within(mask, s as nat, n as nat);
                lemma_filled_count_add(mask, s as nat, n as nat);
                lemma_filled_count_le(q, n as nat);
                lemma_value_bound_max(*g, q);
                if n >= 32 {
                    vstd::arithmetic::power2::lemma2_to64();
                    vstd::arithmetic::power2::lemma2_to64_rest();
                }
                assert(rounds@[q as int].expected_score <= value_bound(*g, q));
                assert(g.score_of(s as int, o as int) <= MAX_SCORE);
                assert(g.score_of(s as int, o as int) * SCALE as nat <= unit) by (nonlinear_arith)
                    requires g.score_of(s as int, o as int) <= MAX_SCORE, unit == MAX_SCORE as nat * SCALE as nat;
                let fq = (n - filled_count(q, n as nat)) as nat;
                let fm = (n - filled_count(mask, n as nat)) as nat;
                assert(fm == fq + 1);
                assert(value_bound(*g, mask) == fm * unit);
                assert(value_bound(*g, q) == fq * unit);
                assert(fm * unit == fq * unit + unit) by (nonlinear_arith)
                    requires fm == fq + 1;
            }
            let v = g.scores[s][o] as u64 * SCALE + rounds[q as usize].expected_score;
            assert(v == select_value(*g, expected, mask, o as int, s as nat));
            if matches!(best.best_move, BestMove::Unknown) || best.expected_score < v {
                best = BestMoveWithScore { best_move: BestMove::SelectSlot(s), expected_score: v };
            }
        }
        s += 1;
    }
    best
}

proof fn lemma_weighted_sum_step(list: Seq<(usize, u64)>, values: Seq<BestMoveWithScore>, i: int)
    requires
        0 <= i < list.len(),
    ensures
        weighted_sum(list.take(i + 1), values) == weighted_sum(list.take(i), values)
            + list[i].1 as nat * values[list[i].0 as int].expected_score as nat,
        list_total(list.take(i + 1)) == list_total(list.take(i)) + list[i].1 as nat,
{
    assert(list.take(i + 1).drop_last() =~= list.take(i));
}

/// Expected score of rerolling outcome `o` with move `m`, given the values one reroll further on.
fn move_value_exec(g: &DiceGame, below: &Vec<BestMoveWithScore>, o: usize, m: usize, Ghost(b): Ghost<nat>) -> (r: u64)
    requires
        g.wf(),
        o < g.num_outcomes(),
        m < g.num_moves(),
        below@.len() == g.num_outcomes(),
        forall|t: int| 0 <= t < below@.len() ==> (#[trigger] below@[t]).expected_score <= b,
        b <= MAX_VALUE,
    ensures
        r == move_value(*g, below@, o as int, m as int),
        r <= b,
{
    let list = &g.probabilities[o][m];
    assert(list@ == g.transitions(o as int, m as int));
    proof {
        lemma_move_denominator(*g, m as int);
    }
    let ghost denominator = g.move_denominator(m as int);
    let mut acc: u128 = 0;
    let mut total: u64 = 0;
    let mut i: usize = 0;
    while i < list.len()
        invariant
            i <= list@.len(),
            list_total(list@) == denominator,
            1 <= denominator <= 0x1_0000_0000,
            forall|j: int| 0 <= j < list@.len() ==> (#[trigger] list@[j]).0 < below@.len(),
            forall|t: int| 0 <= t < below@.len() ==> (#[trigger] below@[t]).expected_score <= b,
            b <= MAX_VALUE,
            acc == weighted_sum(list@.take(i as int), below@),
            total == list_total(list@.take(i as int)),
            acc <= total * b,
        decreases list@.len() - i,
    {
        let (t, w) = list[i];
        proof {
            lemma_weighted_sum_step(list@, below@, i as int);
            lemma_list_total_prefix(list@, i + 1);
        }
        let v = below[t].expected_score;
        assert(w as nat * v as nat <= w as nat * b) by (nonlinear_arith)
            requires v <= b;
        assert((total + w) * b == total * b + w * b) by (nonlinear_arith);
        assert(total * b <= 0x1_0000_0000 * MAX_VALUE) by (nonlinear_arith)
            requires total <= 0x1_0000_0000, b <= MAX_VALUE;
        assert(w * b <= 0x1_0000_0000 * MAX_VALUE) by (nonlinear_arith)
            requires w <= 0x1_0000_0000, b <= MAX_VALUE;
        acc = acc + w as u128 * v as u128;
        total = total + w;
        i += 1;
    }
    assert(list@.take(i as int) =~= list@);
    proof {
        lemma_scaled_sum_div(acc as nat, total as nat, b);
    }
    (acc / total as u128) as u64
}

proof fn lemma_apriori_step(outcomes: Seq<UnorderedDiceOutcome>, values: Seq<BestMoveWithScore>, i: int)
    requires
        0 <= i < outcomes.len(),
    ensures
        apriori_weighted_sum(outcomes.take(i + 1), values) == apriori_weighted_sum(outcomes.take(i), values)
            + outcomes[i].initial_weight as nat * values[i].expected_score as nat,
        weight_total(outcomes.take(i + 1)) == weight_total(outcomes.take(i)) + outcomes[i].initial_weight as nat,
{
    assert(outcomes.take(i + 1).drop_last() =~= outcomes.take(i));
}

/// Expected score before the first roll: the values weighted by the a-priori probabilities.
fn average_exec(g: &DiceGame, values: &Vec<BestMoveWithScore>, Ghost(b): Ghost<nat>) -> (r: u64)
    requires
        g.wf(),
        values@.len() == g.num_outcomes(),
        forall|t: int| 0 <= t < values@.len() ==> (#[trigger] values@[t]).expected_score <= b,
        b <= MAX_VALUE,
    ensures
        r == round_expected(*g, values@),
        r <= b,
{
    let ghost denominator = g.roll_denominator();
    proof {
        lemma_pow_bound(g.num_sides as nat, g.num_dice as nat);
    }
    let mut acc: u128 = 0;
    let mut total: u64 = 0;
    let mut i: usize = 0;
    while i < g.outcomes.len()
        invariant
            g.wf(),
            i <= g.num_outcomes(),
            values@.len() == g.num_outcomes(),
            weight_total(g.outcomes@) == denominator,
            1 <= denominator <= 0x1_0000_0000,
            forall|t: int| 0 <= t < values@.len() ==> (#[trigger] values@[t]).expected_score <= b,
            b <= MAX_VALUE,
            acc == apriori_weighted_sum(g.outcomes@.take(i as int), values@),
            total == weight_total(g.outcomes@.take(i as int)),
            acc <= total * b,
        decreases g.num_outcomes() - i,
    {
        let w = g.outcomes[i].initial_weight;
        proof {
            lemma_apriori_step(g.outcomes@, values@, i as int);
            lemma_weight_total_prefix(g.outcomes@, i + 1);
        }
        let v = values[i].expected_score;
        assert(w as nat * v as nat <= w as nat * b) by (nonlinear_arith)
            requires v <= b;
        assert((total + w) * b == total * b + w * b) by (nonlinear_arith);
        assert(total * b <= 0x1_0000_0000 * MAX_VALUE) by (nonlinear_arith)
            requires total <= 0x1_0000_0000, b <= MAX_VALUE;
        assert(w * b <= 0x1_0000_0000 * MAX_VALUE) by (nonlinear_arith)
            requires w <= 0x1_0000_0000, b <= MAX_VALUE;
        acc = acc + w as u128 * v as u128;
        total = total + w;
        i += 1;
    }
    assert(g.outcomes@.take(i as int) =~= g.outcomes@);
    proof {
        lemma_scaled_sum_div(acc as nat, total as nat, b);
    }
    (acc / total as u128) as u64
}

/// `round` is seeded: its only level holds, for each outcome, the best
/// category to fill now over the rounds that follow it (the first best on
/// ties), and those rounds are solved within their bounds.
pub open spec fn round_seeded(g: DiceGame, rounds: Seq<Round>, round: Round) -> bool {
    &&& within(round.slots, g.num_slots())
    &&& successors_ready(g, rounds, round.slots)
    &&& round.expected_score == 0
    &&& round.best_moves@.len() == 1
    &&& round.best_moves@[0]@ == first_level(g, expecteds(rounds), round.slots)
    &&& forall|t: int| 0 <= t < round.best_moves@[0]@.len() ==>
        (#[trigger] round.best_moves@[0]@[t]).expected_score <= value_bound(g, round.slots)
}

/// Seeds round `mask` from the solved rounds that follow it: for each outcome,
/// the category to fill now with the highest value, its points plus the
/// expected score of the round that follows; the lowest category on ties.
pub fn seed_round(g: &DiceGame, rounds: &Vec<Round>, mask: SlotMask) -> (r: Round)
    requires
        g.wf(),
        rounds@.len() == pow2(g.num_slots()),
        within(mask, g.num_slots()),
        successors_ready(*g, rounds@, mask),
    ensures
        r.slots == mask,
        round_seeded(*g, rounds@, r),
{
    let ghost expected = expecteds(rounds@);
    let ghost b = value_bound(*g, mask);
    let num_outcomes = g.outcomes.len();
    let mut first: Vec<BestMoveWithScore> = Vec::new();
    let mut o: usize = 0;
    while o < num_outcomes
        invariant
            g.wf(),
            num_outcomes == g.num_outcomes(),
            rounds@.len() == pow2(g.num_slots()),
            within(mask, g.num_slots()),
            successors_ready(*g, rounds@, mask),
            expected == expecteds(rounds@),
            b == value_bound(*g, mask),
            o <= num_outcomes,
            first@ == first_level(*g, expected, mask).take(o as int),
            forall|t: int| 0 <= t < first@.len() ==> (#[trigger] first@[t]).expected_score <= b,
        decreases num_outcomes - o,
    {
        let best = select_best_exec(g, rounds, mask, o);
        first.push(best);
        o += 1;
        assert(first@ =~= first_level(*g, expected, mask).take(o as int));
    }
    assert(first@ =~= first_level(*g, expected, mask));
    let mut best_moves: Vec<Vec<BestMoveWithScore>> = Vec::new();
    best_moves.push(first);
    Round { slots: mask, expected_score: 0, best_moves }
}

/// Solves a seeded round: from the best categories to fill with no reroll
/// left, the best actions with one more reroll each time, then the expected
/// score before the first roll.
pub fn solve_round(g: &DiceGame, rounds: &Vec<Round>, round: &mut Round)
    requires
        g.wf(),
        rounds@.len() == pow2(g.num_slots()),
        round_seeded(*g, rounds@, *old(round)),
    ensures
        round_solved(*g, expecteds(rounds@), old(round).slots, *final(round)),
        final(round).expected_score <= value_bound(*g, old(round).slots),
{
    let mask = round.slots;
    let ghost expected = expecteds(rounds@);
    let ghost b = value_bound(*g, mask);
    proof {
        lemma_value_bound_max(*g, mask);
    }
    let num_outcomes = g.outcomes.len();
    let first = round.best_moves.pop().unwrap();
    assert(first == old(round).best_moves@[0]);
    assert(first@ =~= first_level(*g, expected, mask));
    let mut best_moves: Vec<Vec<BestMoveWithScore>> = Vec::new();
    best_moves.push(first);
    let mut lvl: u8 = 0;
    while lvl < g.num_rolls
        invariant
            g.wf(),
            num_outcomes == g.num_outcomes(),
            b == value_bound(*g, mask),
            b <= MAX_VALUE,
            lvl <= g.num_rolls,
            best_moves@.len() == lvl + 1,
            best_moves@[0]@ == first_level(*g, expected, mask),
            forall|r: int| 0 <= r <= lvl ==> (#[trigger] best_moves@[r])@ == level(*g, expected, mask, r as nat),
            forall|r: int, t: int| 0 <= r <= lvl && 0 <= t < num_outcomes ==> (#[trigger] best_moves@[r]@[t]).expected_score <= b,
        decreases g.num_rolls - lvl,
    {
        let mut next: Vec<BestMoveWithScore> = Vec::new();
        let ghost below = level(*g, expected, mask, lvl as nat);
        assert(below.len() == num_outcomes);
        assert forall|t: int| 0 <= t < num_outcomes implies (#[trigger] best_moves@[0]@[t]).expected_score <= b by {
            assert(best_moves@[0]@[t].expected_score <= b);
        }
        let mut o: usize = 0;
        while o < num_outcomes
            invariant
                g.wf(),
                num_outcomes == g.num_outcomes(),
                b <= MAX_VALUE,
                lvl < g.num_rolls,
                best_moves@.len() == lvl + 1,
                best_moves@[0]@ == first_level(*g, expected, mask),
                best_moves@[lvl as int]@ == below,
                below.len() == num_outcomes,
                forall|t: int| 0 <= t < num_outcomes ==> (#[trigger] best_moves@[lvl as int]@[t]).expected_score <= b,
                forall|t: int| 0 <= t < num_outcomes ==> (#[trigger] best_moves@[0]@[t]).expected_score <= b,
                o <= num_outcomes,
                next@ == next_level(*g, expected, mask, below).take(o as int),
                forall|t: int| 0 <= t < next@.len() ==> (#[trigger] next@[t]).expected_score <= b,
            decreases num_outcomes - o,
        {
            let mut best = best_moves[0][o];
            assert(best_moves@[0]@[o as int] == first_level(*g, expected, mask)[o as int]);
            assert(best.expected_score <= b);
            let mut m: usize = 0;
            while m < g.moves.len()
                invariant
                    g.wf(),
                    num_outcomes == g.num_outcomes(),
                    b <= MAX_VALUE,
                    o < num_outcomes,
                    best_moves@.len() == lvl + 1,
                    best_moves@[lvl as int]@ == below,
                    below.len() == num_outcomes,
                    forall|t: int| 0 <= t < num_outcomes ==> (#[trigger] best_moves@[lvl as int]@[t]).expected_score <= b,
                    m <= g.num_moves(),
                    best == reroll_best(*g, below, o as int, select_best(*g, expected, mask, o as int, g.num_slots()), m as nat),
                    best.expected_score <= b,
                decreases g.num_moves() - m,
            {
                let v = move_value_exec(g, &best_moves[lvl as usize], o, m, Ghost(b));
                if best.expected_score < v {
                    best = BestMoveWithScore { best_move: BestMove::Move(m), expected_score: v };
                }
                m += 1;
            }
            next.push(best);
            o += 1;
            assert(next@ =~= next_level(*g, expected, mask, below).take(o as int));
        }
        assert(next@ =~= next_level(*g, expected, mask, below));
        assert(next@ == level(*g, expected, mask, lvl as nat + 1));
        let ghost prev = best_moves@;
        best_moves.push(next);
        lvl += 1;
        assert forall|r: int| 0 <= r <= lvl implies (#[trigger] best_moves@[r])@ == level(*g, expected, mask, r as nat) by {
            if r < lvl {
                assert(best_moves@[r] == prev[r]);
            }
        }
        assert forall|r: int, t: int| 0 <= r <= lvl && 0 <= t < num_outcomes implies (#[trigger] best_moves@[r]@[t]).expected_score <= b by {
            if r < lvl {
                assert(best_moves@[r] == prev[r]);
            }
        }
    }
    let expected_score = average_exec(g, &best_moves[lvl as usize], Ghost(b));
    round.expected_score = expected_score;
    round.best_moves = best_moves;
}

/// `e1` and `e2` agree on every round with more than `c` categories filled.
pub open spec fn agree_above(g: DiceGame, e1: Seq<u64>, e2: Seq<u64>, c: nat) -> bool {
    forall|q: u32| within(q, g.num_slots()) && #[trigger] filled_count(q, g.num_slots()) > c ==> e1[q as int] == e2[q as int]
}

proof fn lemma_select_frame(g: DiceGame, e1: Seq<u64>, e2: Seq<u64>, mask: u32, o: int, k: nat)
    requires
        g.num_slots() <= MAX_SLOTS,
        k <= g.num_slots(),
        within(mask, g.num_slots()),
        agree_above(g, e1, e2, filled_count(mask, g.num_slots())),
    ensures
        select_best(g, e1, mask, o, k) == select_best(g, e2, mask, o, k),
    decreases k,
{
    if k > 0 {
        let s = (k - 1) as nat;
        lemma_select_frame(g, e1, e2, mask, o, s);
        if !has_slot(mask, s) {
            let q = mask | (1u32 << s as u32);
            lemma_fill_within(mask, s, g.num_slots());
            lemma_filled_count_add(mask, s, g.num_slots());
            assert(e1[q as int] == e2[q as int]);
        }
    }
}

/// The solution of a round depends only on the rounds with more categories filled.
pub proof fn lemma_level_frame(g: DiceGame, e1: Seq<u64>, e2: Seq<u64>, mask: u32, r: nat)
    requires
        g.num_slots() <= MAX_SLOTS,
        within(mask, g.num_slots()),
        agree_above(g, e1, e2, filled_count(mask, g.num_slots())),
    ensures
        level(g, e1, mask, r) == level(g, e2, mask, r),
    decreases r,
{
    assert forall|o: int| 0 <= o < g.num_outcomes() implies select_best(g, e1, mask, o, g.num_slots())
        == select_best(g, e2, mask, o, g.num_slots()) by {
        lemma_select_frame(g, e1, e2, mask, o, g.num_slots());
    }
    if r == 0 {
        assert(first_level(g, e1, mask) =~= first_level(g, e2, mask));
    } else {
        lemma_level_frame(g, e1, e2, mask, (r - 1) as nat);
        let below = level(g, e1, mask, (r - 1) as nat);
        assert(next_level(g, e1, mask, below) =~= next_level(g, e2, mask, below));
    }
}

/// Every round of the table is solved.
pub open spec fn is_solution(g: DiceGame, rounds: Seq<Round>) -> bool {
    &&& rounds.len() == pow2(g.num_slots())
    &&& forall|q: u32| within(q, g.num_slots()) ==> #[trigger] round_solved(g, expecteds(rounds), q, rounds[q as int])
}

proof fn lemma_within_index(q: u32, n: nat)
    requires
        within(q, n),
        n <= 32,
    ensures
        (q as nat) < pow2(n),
{
    if n == 32 {
        vstd::arithmetic::power2::lemma2_to64();
        vstd::arithmetic::power2::lemma2_to64_rest();
    }
}

/// Solving is deterministic: two solutions of one game hold the same expected
/// score and the same best-move table for every round.
pub proof fn lemma_solution_unique(g: DiceGame, r1: Seq<Round>, r2: Seq<Round>)
    requires
        g.wf(),
        is_solution(g, r1),
        is_solution(g, r2),
    ensures
        forall|q: u32| #![trigger r1[q as int]] within(q, g.num_slots()) ==> {
            &&& r1[q as int].expected_score == r2[q as int].expected_score
            &&& r1[q as int].best_moves@.len() == r2[q as int].best_moves@.len()
            &&& forall|r: int| 0 <= r < r1[q as int].best_moves@.len() ==>
                (#[trigger] r1[q as int].best_moves@[r])@ == r2[q as int].best_moves@[r]@
        },
{
    let n = g.num_slots();
    let e1 = expecteds(r1);
    let e2 = expecteds(r2);
    lemma_agree_from(g, r1, r2, n);
    assert forall|q: u32| #![trigger r1[q as int]] within(q, n) implies {
        &&& r1[q as int].expected_score == r2[q as int].expected_score
        &&& r1[q as int].best_moves@.len() == r2[q as int].best_moves@.len()
        &&& forall|r: int| 0 <= r < r1[q as int].best_moves@.len() ==>
            (#[trigger] r1[q as int].best_moves@[r])@ == r2[q as int].best_moves@[r]@
    } by {
        lemma_within_index(q, n);
        lemma_filled_count_le(q, n);
        assert(round_solved(g, e1, q, r1[q as int]));
        assert(round_solved(g, e2, q, r2[q as int]));
        assert forall|r: int| 0 <= r < r1[q as int].best_moves@.len() implies
            (#[trigger] r1[q as int].best_moves@[r])@ == r2[q as int].best_moves@[r]@ by {
            lemma_level_frame(g, e1, e2, q, r as nat);
        }
        assert(e1[q as int] == e2[q as int]);
    }
}

/// Two solutions agree on the expected score of every round with at least
/// `n - d` categories filled.
proof fn lemma_agree_from(g: DiceGame, r1: Seq<Round>, r2: Seq<Round>, d: nat)
    requires
        g.wf(),
        is_solution(g, r1),
        is_solution(g, r2),
        d <= g.num_slots(),
    ensures
        forall|q: u32| within(q, g.num_slots()) && #[trigger] filled_count(q, g.num_slots()) + d >= g.num_slots()
            ==> expecteds(r1)[q as int] == expecteds(r2)[q as int],
    decreases d,
{
    let n = g.num_slots();
    let e1 = expecteds(r1);
    let e2 = expecteds(r2);
    if d > 0 {
        lemma_agree_from(g, r1, r2, (d - 1) as nat);
    }
    assert forall|q: u32| within(q, n) && #[trigger] filled_count(q, n) + d >= n implies e1[q as int] == e2[q as int] by {
        lemma_within_index(q, n);
        lemma_filled_count_le(q, n);
        if d == 0 || filled_count(q, n) + d > n {
            if d == 0 {
                assert forall|q2: u32| within(q2, n) && #[trigger] filled_count(q2, n) > filled_count(q, n) implies e1[q2 as int] == e2[q2 as int] by {
                    lemma_filled_count_le(q2, n);
                }
                assert(agree_above(g, e1, e2, filled_count(q, n)));
                lemma_level_frame(g, e1, e2, q, g.num_rolls as nat);
                assert(round_solved(g, e1, q, r1[q as int]));
                assert(round_solved(g, e2, q, r2[q as int]));
            }
        } else {
            assert forall|q2: u32| within(q2, n) && #[trigger] filled_count(q2, n) > filled_count(q, n) implies e1[q2 as int] == e2[q2 as int] by {
                assert(filled_count(q2, n) + (d - 1) >= n);
            }
            assert(agree_above(g, e1, e2, filled_count(q, n)));
            lemma_level_frame(g, e1, e2, q, g.num_rolls as nat);
            assert(round_solved(g, e1, q, r1[q as int]));
            assert(round_solved(g, e2, q, r2[q as int]));
        }
    }
}

proof fn lemma_reroll_best_ge(g: DiceGame, below: Seq<BestMoveWithScore>, o: int, start: BestMoveWithScore, k: nat)
    ensures
        reroll_best(g, below, o, start, k).expected_score >= start.expected_score,
    decreases k,
{
    if k > 0 {
        lemma_reroll_best_ge(g, below, o, start, (k - 1) as nat);
    }
}

/// Filling a category now is always allowed, so no state is worth less than
/// the best category to fill at once.
pub proof fn lemma_select_now_lower_bound(g: DiceGame, expected: Seq<u64>, mask: u32, r: nat, o: int)
    requires
        0 <= o < g.num_outcomes(),
    ensures
        level(g, expected, mask, r)[o].expected_score >= select_best(g, expected, mask, o, g.num_slots()).expected_score,
{
    if r > 0 {
        lemma_reroll_best_ge(
            g,
            level(g, expected, mask, (r - 1) as nat),
            o,
            select_best(g, expected, mask, o, g.num_slots()),
            g.num_moves(),
        );
    }
}

/// Relies on rayon's `par_iter_mut().for_each(..)` over a vector: the closure
/// runs once on each element, here `solve_round` on each seeded round.
#[verifier::external_body]
fn solve_rounds_parallel(g: &DiceGame, rounds: &Vec<Round>, seeded: &mut Vec<Round>)
    requires
        g.wf(),
        rounds@.len() == pow2(g.num_slots()),
        forall|i: int| 0 <= i < old(seeded)@.len() ==> round_seeded(*g, rounds@, #[trigger] old(seeded)@[i]),
    ensures
        final(seeded)@.len() == old(seeded)@.len(),
        forall|i: int| 0 <= i < old(seeded)@.len() ==> {
            &&& round_solved(*g, expecteds(rounds@), old(seeded)@[i].slots, #[trigger] final(seeded)@[i])
            &&& final(seeded)@[i].expected_score <= value_bound(*g, old(seeded)@[i].slots)
        },
{
    seeded.par_iter_mut().for_each(|r| solve_round(g, rounds, r));
}

impl Stage {
    /// The masks are exactly those within `num_slots` categories that have
    /// `number` of them filled, each once, in increasing order.
    pub open spec fn holds_exactly(&self, num_slots: nat) -> bool {
        &&& forall|i: int, j: int| 0 <= i < j < self.masks@.len() ==> self.masks@[i] < self.masks@[j]
        &&& forall|i: int| 0 <= i < self.masks@.len() ==> {
            &&& within(#[trigger] self.masks@[i], num_slots)
            &&& filled_count(self.masks@[i], num_slots) == self.number
        }
        &&& forall|q: u32| within(q, num_slots) && #[trigger] filled_count(q, num_slots) == self.number
            ==> self.masks@.contains(q)
    }

    /// The stage of the rounds with `filled` of the `num_slots` categories filled.
    pub fn with_filled(num_slots: usize, filled: usize) -> (r: Stage)
        requires
            num_slots <= MAX_SLOTS,
            pow2(num_slots as nat) <= usize::MAX,
        ensures
            r.number == filled,
            forall|i: int, j: int| 0 <= i < j < r.masks@.len() ==> r.masks@[i] < r.masks@[j],
            forall|i: int| 0 <= i < r.masks@.len() ==> {
                &&& within(#[trigger] r.masks@[i], num_slots as nat)
                &&& filled_count(r.masks@[i], num_slots as nat) == filled
            },
            forall|q: u32| within(q, num_slots as nat) && #[trigger] filled_count(q, num_slots as nat) == filled
                ==> r.masks@.contains(q),
    {
        proof {
            vstd::arithmetic::power2::lemma2_to64();
            vstd::arithmetic::power2::lemma2_to64_rest();
            if num_slots < 32 {
                vstd::arithmetic::power2::lemma_pow2_strictly_increases(num_slots as nat, 32);
            }
        }
        let count: u64 = if num_slots >= 32 { 0x1_0000_0000 } else { 1u64 << num_slots as u64 };
        proof {
            if num_slots < 32 {
                vstd::bits::lemma_u64_shl_is_mul(1, num_slots as u64);
            }
        }
        assert(count == pow2(num_slots as nat));
        let mut masks: Vec<SlotMask> = Vec::new();
        let mut m: u64 = 0;
        while m < count
            invariant
                num_slots <= MAX_SLOTS,
                count == pow2(num_slots as nat),
                count <= 0x1_0000_0000,
                m <= count,
                forall|i: int, j: int| 0 <= i < j < masks@.len() ==> masks@[i] < masks@[j],
                forall|i: int| 0 <= i < masks@.len() ==> (#[trigger] masks@[i]) < m,
                forall|i: int| 0 <= i < masks@.len() ==> {
                    &&& within(#[trigger] masks@[i], num_slots as nat)
                    &&& filled_count(masks@[i], num_slots as nat) == filled
                },
                forall|q: u32| (q as u64) < m && within(q, num_slots as nat) && #[trigger] filled_count(q, num_slots as nat) == filled
                    ==> masks@.contains(q),
            decreases count - m,
        {
            let q = m as u32;
            if count_filled(q, num_slots) == filled {
                let ghost prev = masks@;
                masks.push(q);
                assert(masks@[masks@.len() - 1] == q);
                assert forall|q2: u32| (q2 as u64) < m + 1 && within(q2, num_slots as nat) && #[trigger] filled_count(q2, num_slots as nat) == filled
                    implies masks@.contains(q2) by {
                    if q2 == q {
                        assert(masks@[masks@.len() - 1] == q2);
                    } else {
                        assert(prev.contains(q2));
                        let j = choose|j: int| 0 <= j < prev.len() && prev[j] == q2;
                        assert(masks@[j] == q2);
                    }
                }
            }
            m += 1;
        }
        assert forall|q: u32| within(q, num_slots as nat) && #[trigger] filled_count(q, num_slots as nat) == filled
            implies masks@.contains(q) by {
            lemma_within_index(q, num_slots as nat);
        }
        Stage { number: filled, masks }
    }

    /// The last stage of a game: every category filled.
    pub fn from_end(num_slots: usize) -> (r: Stage)
        requires
            num_slots <= MAX_SLOTS,
            pow2(num_slots as nat) <= usize::MAX,
        ensures
            r.number == num_slots,
            forall|i: int| 0 <= i < r.masks@.len() ==> {
                &&& within(#[trigger] r.masks@[i], num_slots as nat)
                &&& filled_count(r.masks@[i], num_slots as nat) == num_slots
            },
            forall|i: int, j: int| 0 <= i < j < r.masks@.len() ==> r.masks@[i] < r.masks@[j],
            forall|q: u32| within(q, num_slots as nat) && #[trigger] filled_count(q, num_slots as nat) == num_slots
                ==> r.masks@.contains(q),
    {
        Self::with_filled(num_slots, num_slots)
    }
}

/// The solver of a game: the solved rounds of every set of filled categories.
pub struct GameSolver {
    pub game: DiceGame,
    /// The stages as solved, from the last in game time to the first.
    pub stages: Vec<Stage>,
    /// The rounds, indexed by their mask.
    pub rounds: Vec<Round>,
    pub solved: bool,
}

impl GameSolver {
    pub fn new(game: DiceGame) -> (r: GameSolver)
        ensures
            r.game == game,
            !r.solved,
    {
        GameSolver { game, stages: Vec::new(), rounds: Vec::new(), solved: false }
    }

    /// Solved, with every round holding its solution.
    pub open spec fn is_solved(&self) -> bool {
        &&& self.solved
        &&& is_solution(self.game, self.rounds@)
    }

    /// The rounds of `stage` can be seeded: the rounds with more categories
    /// filled are solved within their bounds.
    proof fn lemma_stage_ready(&self, stage: &Stage, rounds: Seq<Round>)
        requires
            self.game.num_slots() <= MAX_SLOTS,
            stage.holds_exactly(self.game.num_slots()),
            forall|q: u32| within(q, self.game.num_slots()) && #[trigger] filled_count(q, self.game.num_slots()) > stage.number
                ==> rounds[q as int].expected_score <= value_bound(self.game, q),
        ensures
            forall|i: int| 0 <= i < stage.masks@.len() ==> {
                &&& within(#[trigger] stage.masks@[i], self.game.num_slots())
                &&& successors_ready(self.game, rounds, stage.masks@[i])
            },
    {
        let n = self.game.num_slots();
        assert forall|i: int| 0 <= i < stage.masks@.len() implies {
            &&& within(#[trigger] stage.masks@[i], n)
            &&& successors_ready(self.game, rounds, stage.masks@[i])
        } by {
            let p = stage.masks@[i];
            assert forall|s: nat| s < n && !#[trigger] has_slot(p, s) implies
                rounds[(p | (1u32 << s as u32)) as int].expected_score <= value_bound(self.game, p | (1u32 << s as u32)) by {
                lemma_fill_within(p, s, n);
                lemma_filled_count_add(p, s, n);
            }
        }
    }

    /// Seeds every round of `stage` from the solved rounds that follow it.
    fn seed_stage(&self, stage: &Stage, rounds: &Vec<Round>) -> (r: Vec<Round>)
        requires
            self.game.wf(),
            rounds@.len() == pow2(self.game.num_slots()),
            forall|i: int| 0 <= i < stage.masks@.len() ==> {
                &&& within(#[trigger] stage.masks@[i], self.game.num_slots())
                &&& successors_ready(self.game, rounds@, stage.masks@[i])
            },
        ensures
            r@.len() == stage.masks@.len(),
            forall|i: int| 0 <= i < r@.len() ==> {
                &&& (#[trigger] r@[i]).slots == stage.masks@[i]
                &&& round_seeded(self.game, rounds@, r@[i])
            },
    {
        let mut r: Vec<Round> = Vec::new();
        let mut i: usize = 0;
        while i < stage.masks.len()
            invariant
                self.game.wf(),
                rounds@.len() == pow2(self.game.num_slots()),
                forall|j: int| 0 <= j < stage.masks@.len() ==> {
                    &&& within(#[trigger] stage.masks@[j], self.game.num_slots())
                    &&& successors_ready(self.game, rounds@, stage.masks@[j])
                },
                i <= stage.masks@.len(),
                r@.len() == i,
                forall|j: int| 0 <= j < r@.len() ==> {
                    &&& (#[trigger] r@[j]).slots == stage.masks@[j]
                    &&& round_seeded(self.game, rounds@, r@[j])
                },
            decreases stage.masks@.len() - i,
        {
            r.push(seed_round(&self.game, rounds, stage.masks[i]));
            i += 1;
        }
        r
    }

    /// The stage before `previous` in game time, built from its solved rounds:
    /// the rounds with one category fewer filled, each seeded with the best
    /// category to fill now (the lowest on ties). Before the stage of the
    /// empty mask there is none: the result is empty.
    pub fn stage_from_previous(&self, previous: &Stage, rounds: &Vec<Round>) -> (r: (Stage, Vec<Round>))
        requires
            self.game.wf(),
            pow2(self.game.num_slots()) <= usize::MAX,
            rounds@.len() == pow2(self.game.num_slots()),
            previous.number <= self.game.num_slots(),
            forall|q: u32| within(q, self.game.num_slots()) && #[trigger] filled_count(q, self.game.num_slots())
                >= previous.number ==> rounds@[q as int].expected_score <= value_bound(self.game, q),
        ensures
            previous.number == 0 ==> r.0.number == 0 && r.0.masks@.len() == 0,
            previous.number > 0 ==> r.0.number == previous.number - 1 && r.0.holds_exactly(self.game.num_slots()),
            r.1@.len() == r.0.masks@.len(),
            forall|i: int| 0 <= i < r.1@.len() ==> {
                &&& (#[trigger] r.1@[i]).slots == r.0.masks@[i]
                &&& round_seeded(self.game, rounds@, r.1@[i])
            },
    {
        let stage = if previous.number == 0 {
            Stage { number: 0, masks: Vec::new() }
        } else {
            Stage::with_filled(self.game.slots.len(), previous.number - 1)
        };
        proof {
            if previous.number > 0 {
                self.lemma_stage_ready(&stage, rounds@);
            }
        }
        let seeded = self.seed_stage(&stage, rounds);
        (stage, seeded)
    }

    /// Solves every round, stage by stage from the last in game time; the rounds
    /// of one stage are solved in parallel.
    pub fn solve(&mut self)
        requires
            old(self).game.wf(),
            pow2(old(self).game.num_slots()) <= usize::MAX,
        ensures
            final(self).game == old(self).game,
            final(self).is_solved(),
            final(self).stages@.len() == old(self).game.num_slots() + 1,
            forall|i: int| 0 <= i < final(self).stages@.len() ==> {
                &&& (#[trigger] final(self).stages@[i]).number == old(self).game.num_slots() - i
                &&& final(self).stages@[i].holds_exactly(old(self).game.num_slots())
            },
    {
        let n = self.game.slots.len();
        let ghost g = self.game;
        proof {
            vstd::arithmetic::power2::lemma2_to64();
            vstd::arithmetic::power2::lemma2_to64_rest();
            if n < 32 {
                vstd::arithmetic::power2::lemma_pow2_strictly_increases(n as nat, 32);
            }
        }
        let count: u64 = if n >= 32 { 0x1_0000_0000 } else { 1u64 << n as u64 };
        proof {
            if n < 32 {
                vstd::bits::lemma_u64_shl_is_mul(1, n as u64);
            }
        }
        let mut rounds: Vec<Round> = Vec::new();
        let mut m: u64 = 0;
        while m < count
            invariant
                count == pow2(n as nat),
                count <= usize::MAX,
                m <= count,
                rounds@.len() == m,
            decreases count - m,
        {
            rounds.push(Round { slots: m as u32, expected_score: 0, best_moves: Vec::new() });
            m += 1;
        }
        let mut stages: Vec<Stage> = Vec::new();
        let mut stage = Stage::from_end(n);
        let mut remaining: usize = n + 1;
        assert forall|q: u32| within(q, n as nat) && #[trigger] filled_count(q, n as nat) >= remaining implies {
            &&& round_solved(g, expecteds(rounds@), q, rounds@[q as int])
            &&& rounds@[q as int].expected_score <= value_bound(g, q)
        } by {
            lemma_filled_count_le(q, n as nat);
        }
        proof {
            self.lemma_stage_ready(&stage, rounds@);
        }
        let mut seeded = self.seed_stage(&stage, &rounds);
        while remaining > 0
            invariant
                self.game == g,
                g.wf(),
                n == g.num_slots(),
                pow2(n as nat) <= usize::MAX,
                remaining <= n + 1,
                rounds@.len() == pow2(n as nat),
                stages@.len() == n + 1 - remaining,
                forall|i: int| 0 <= i < stages@.len() ==> {
                    &&& (#[trigger] stages@[i]).number == n - i
                    &&& stages@[i].holds_exactly(n as nat)
                },
                remaining > 0 ==> stage.number == remaining - 1,
                remaining > 0 ==> forall|i: int| 0 <= i < stage.masks@.len() ==> {
                    &&& within(#[trigger] stage.masks@[i], n as nat)
                    &&& filled_count(stage.masks@[i], n as nat) == stage.number
                },
                remaining > 0 ==> forall|i: int, j: int| 0 <= i < j < stage.masks@.len() ==> stage.masks@[i] < stage.masks@[j],
                remaining > 0 ==> forall|q: u32| within(q, n as nat) && #[trigger] filled_count(q, n as nat) == stage.number
                    ==> stage.masks@.contains(q),
                seeded@.len() == stage.masks@.len(),
                forall|i: int| 0 <= i < seeded@.len() ==> {
                    &&& (#[trigger] seeded@[i]).slots == stage.masks@[i]
                    &&& round_seeded(g, rounds@, seeded@[i])
                },
                forall|q: u32| within(q, n as nat) && #[trigger] filled_count(q, n as nat) >= remaining ==> {
                    &&& round_solved(g, expecteds(rounds@), q, rounds@[q as int])
                    &&& rounds@[q as int].expected_score <= value_bound(g, q)
                },
            decreases remaining,
        {
            let c = remaining - 1;
            solve_rounds_parallel(&self.game, &rounds, &mut seeded);
            let solved = seeded;
            let ghost before = rounds@;
            let ghost new_rounds = solved@;
            let ghost masks = stage.masks@;
            let mut solved = solved;
            let mut k: usize = solved.len();
            while k > 0
                invariant
                    g.wf(),
                    n == g.num_slots(),
                    k <= new_rounds.len(),
                    new_rounds.len() == masks.len(),
                    solved@ == new_rounds.take(k as int),
                    stage.masks@ == masks,
                    rounds@.len() == before.len(),
                    before.len() == pow2(n as nat),
                    forall|i: int| 0 <= i < masks.len() ==> {
                        &&& within(#[trigger] masks[i], n as nat)
                        &&& filled_count(masks[i], n as nat) == c
                    },
                    forall|i: int, j: int| 0 <= i < j < masks.len() ==> masks[i] < masks[j],
                    forall|q: u32| within(q, n as nat) && #[trigger] filled_count(q, n as nat) != c
                        ==> rounds@[q as int] == before[q as int],
                    forall|j: int| k <= j < masks.len() ==> rounds@[#[trigger] masks[j] as int] == new_rounds[j],
                decreases k,
            {
                let round = solved.pop().unwrap();
                let mask = stage.masks[k - 1];
                proof {
                    lemma_within_index(mask, n as nat);
                }
                let ghost prev = rounds@;
                let ghost rv = round;
                rounds[mask as usize] = round;
                assert(rounds@ == prev.update(mask as int, rv));
                assert(solved@ =~= new_rounds.take(k - 1));
                k -= 1;
                assert forall|j: int| k <= j < masks.len() implies rounds@[#[trigger] masks[j] as int] == new_rounds[j] by {
                    if j > k {
                        assert(masks[k as int] < masks[j]);
                        assert(masks[k as int] == mask);
                        assert(masks[j] as int != mask as int);
                        lemma_within_index(masks[j], n as nat);
                        assert(rounds@[masks[j] as int] == prev[masks[j] as int]);
                    }
                }
                assert forall|q: u32| within(q, n as nat) && #[trigger] filled_count(q, n as nat) != c
                    implies rounds@[q as int] == before[q as int] by {
                    lemma_within_index(q, n as nat);
                    assert(q != mask);
                    assert(rounds@[q as int] == prev[q as int]);
                }
            }
            let ghost after = rounds@;
            assert forall|q: u32| within(q, n as nat) && #[trigger] filled_count(q, n as nat) >= c implies {
                &&& round_solved(g, expecteds(after), q, after[q as int])
                &&& after[q as int].expected_score <= value_bound(g, q)
            } by {
                lemma_within_index(q, n as nat);
                assert forall|q2: u32| within(q2, n as nat) && #[trigger] filled_count(q2, n as nat) > filled_count(q, n as nat)
                    implies expecteds(before)[q2 as int] == expecteds(after)[q2 as int] by {
                    lemma_within_index(q2, n as nat);
                }
                assert(agree_above(g, expecteds(before), expecteds(after), filled_count(q, n as nat)));
                lemma_level_frame(g, expecteds(before), expecteds(after), q, g.num_rolls as nat);
                assert forall|r: nat| r <= g.num_rolls implies level(g, expecteds(before), q, r) == level(g, expecteds(after), q, r) by {
                    lemma_level_frame(g, expecteds(before), expecteds(after), q, r);
                }
                if filled_count(q, n as nat) == c {
                    assert(masks.contains(q));
                    let j = choose|j: int| 0 <= j < masks.len() && masks[j] == q;
                    assert(after[q as int] == new_rounds[j]);
                    assert(round_solved(g, expecteds(before), q, new_rounds[j]));
                } else {
                    assert(after[q as int] == before[q as int]);
                }
            }
            proof {
                assert forall|q: u32| within(q, n as nat) && #[trigger] filled_count(q, n as nat) >= stage.number
                    implies rounds@[q as int].expected_score <= value_bound(g, q) by {}
            }
            let (next, next_seeded) = self.stage_from_previous(&stage, &rounds);
            stages.push(stage);
            stage = next;
            seeded = next_seeded;
            remaining = c;
        }
        assert forall|q: u32| within(q, n as nat) implies #[trigger] round_solved(g, expecteds(rounds@), q, rounds@[q as int]) by {
            assert(filled_count(q, n as nat) >= 0);
        }
        self.rounds = rounds;
        self.stages = stages;
        self.solved = true;
    }

    /// The solved round of `slot_mask`; `None` before solving or out of range.
    pub fn find_round(&self, slot_mask: SlotMask) -> (r: Option<&Round>)
        ensures
            r == (if self.solved && (slot_mask as int) < self.rounds@.len() {
                Some(&self.rounds@[slot_mask as int])
            } else {
                None::<&Round>
            }),
    {
        if !self.solved || slot_mask as usize >= self.rounds.len() {
            return None;
        }
        Some(&self.rounds[slot_mask as usize])
    }

    /// The recorded action and expected remaining score of a state; `None` before
    /// solving or when an index is out of range.
    pub fn get_best_move(&self, slot_mask: SlotMask, rerolls_left: usize, outcome_index: OutcomeIndex) -> (r: Option<BestMoveWithScore>)
        ensures
            r == (if self.solved && (slot_mask as int) < self.rounds@.len()
                && rerolls_left < self.rounds@[slot_mask as int].best_moves@.len()
                && outcome_index < self.rounds@[slot_mask as int].best_moves@[rerolls_left as int]@.len() {
                Some(self.rounds@[slot_mask as int].best_moves@[rerolls_left as int]@[outcome_index as int])
            } else {
                None::<BestMoveWithScore>
            }),
    {
        if !self.solved || slot_mask as usize >= self.rounds.len() {
            return None;
        }
        let round = &self.rounds[slot_mask as usize];
        if rerolls_left >= round.best_moves.len() || outcome_index >= round.best_moves[rerolls_left].len() {
            return None;
        }
        Some(round.best_moves[rerolls_left][outcome_index])
    }
}

proof fn lemma_select_kind(g: DiceGame, expected: Seq<u64>, mask: u32, o: int, k: nat)
    requires
        k <= 32,
    ensures
        match select_best(g, expected, mask, o, k).best_move {
            BestMove::SelectSlot(s) => s < k && !has_slot(mask, s as nat),
            BestMove::Move(_) => false,
            BestMove::Unknown => true,
        },
    decreases k,
{
    if k > 0 {
        lemma_select_kind(g, expected, mask, o, (k - 1) as nat);
    }
}

proof fn lemma_reroll_kind(g: DiceGame, below: Seq<BestMoveWithScore>, o: int, start: BestMoveWithScore, k: nat)
    requires
        k <= 256,
    ensures
        reroll_best(g, below, o, start, k) == start || (reroll_best(g, below, o, start, k).best_move matches BestMove::Move(m) && m < k),
    decreases k,
{
    if k > 0 {
        lemma_reroll_kind(g, below, o, start, (k - 1) as nat);
    }
}

/// A recorded action fills an empty category, or rerolls with a move of the
/// game when a reroll is left.
pub proof fn lemma_entry_kind(g: DiceGame, expected: Seq<u64>, mask: u32, r: nat, o: int)
    requires
        0 <= o < g.num_outcomes(),
        g.num_slots() <= 32,
        g.num_moves() <= 256,
    ensures
        level(g, expected, mask, r).len() == g.num_outcomes(),
        match level(g, expected, mask, r)[o].best_move {
            BestMove::SelectSlot(s) => s < g.num_slots() && !has_slot(mask, s as nat),
            BestMove::Move(m) => m < g.num_moves() && r > 0,
            BestMove::Unknown => true,
        },
{
    lemma_select_kind(g, expected, mask, o, g.num_slots());
    if r > 0 {
        lemma_reroll_kind(
            g,
            level(g, expected, mask, (r - 1) as nat),
            o,
            select_best(g, expected, mask, o, g.num_slots()),
            g.num_moves(),
        );
    }
}

proof fn lemma_select_unknown(g: DiceGame, expected: Seq<u64>, mask: u32, o: int, k: nat)
    requires
        k <= 32,
    ensures
        (select_best(g, expected, mask, o, k).best_move == BestMove::Unknown) == (filled_count(mask, k) == k),
        filled_count(mask, k) == k ==> select_best(g, expected, mask, o, k) == unknown_move(),
    decreases k,
{
    if k > 0 {
        lemma_select_unknown(g, expected, mask, o, (k - 1) as nat);
        lemma_filled_count_le(mask, (k - 1) as nat);
    }
}

proof fn lemma_reroll_keeps_known(g: DiceGame, below: Seq<BestMoveWithScore>, o: int, start: BestMoveWithScore, k: nat)
    requires
        start.best_move != BestMove::Unknown,
    ensures
        reroll_best(g, below, o, start, k).best_move != BestMove::Unknown,
    decreases k,
{
    if k > 0 {
        lemma_reroll_keeps_known(g, below, o, start, (k - 1) as nat);
    }
}

proof fn lemma_weighted_sum_zero(list: Seq<(usize, u64)>, values: Seq<BestMoveWithScore>)
    requires
        forall|i: int| 0 <= i < list.len() ==> (#[trigger] list[i]).0 < values.len(),
        forall|t: int| 0 <= t < values.len() ==> (#[trigger] values[t]).expected_score == 0,
    ensures
        weighted_sum(list, values) == 0,
    decreases list.len(),
{
    if list.len() > 0 {
        lemma_weighted_sum_zero(list.drop_last(), values);
        assert(values[list.last().0 as int].expected_score == 0);
    }
}

proof fn lemma_unknown_stays(g: DiceGame, below: Seq<BestMoveWithScore>, o: int, k: nat)
    requires
        g.wf(),
        0 <= o < g.num_outcomes(),
        k <= g.num_moves(),
        below.len() == g.num_outcomes(),
        forall|t: int| 0 <= t < below.len() ==> (#[trigger] below[t]).expected_score == 0,
    ensures
        reroll_best(g, below, o, unknown_move(), k) == unknown_move(),
    decreases k,
{
    if k > 0 {
        lemma_unknown_stays(g, below, o, (k - 1) as nat);
        let m = k - 1;
        assert forall|i: int| 0 <= i < g.transitions(o, m).len() implies (#[trigger] g.transitions(o, m)[i]).0 < below.len() by {
        }
        lemma_weighted_sum_zero(g.transitions(o, m), below);
        lemma_move_denominator(g, m);
        vstd::arithmetic::div_mod::lemma_div_basics(g.move_denominator(m) as int);
    }
}

/// In a round with every category filled, no action is recorded and nothing remains to score.
proof fn lemma_full_level(g: DiceGame, expected: Seq<u64>, mask: u32, r: nat)
    requires
        g.wf(),
        filled_count(mask, g.num_slots()) == g.num_slots(),
    ensures
        level(g, expected, mask, r).len() == g.num_outcomes(),
        forall|o: int| 0 <= o < g.num_outcomes() ==> #[trigger] level(g, expected, mask, r)[o] == unknown_move(),
    decreases r,
{
    assert forall|o: int| 0 <= o < g.num_outcomes() implies #[trigger] select_best(g, expected, mask, o, g.num_slots()) == unknown_move() by {
        lemma_select_unknown(g, expected, mask, o, g.num_slots());
    }
    if r > 0 {
        lemma_full_level(g, expected, mask, (r - 1) as nat);
        let below = level(g, expected, mask, (r - 1) as nat);
        assert forall|o: int| 0 <= o < g.num_outcomes() implies #[trigger] level(g, expected, mask, r)[o] == unknown_move() by {
            lemma_unknown_stays(g, below, o, g.num_moves());
        }
    }
}

/// No action is recorded exactly when every category is filled.
pub proof fn lemma_unknown_iff_all_filled(g: DiceGame, expected: Seq<u64>, mask: u32, r: nat, o: int)
    requires
        g.wf(),
        0 <= o < g.num_outcomes(),
    ensures
        (level(g, expected, mask, r)[o].best_move == BestMove::Unknown) == (filled_count(mask, g.num_slots()) == g.num_slots()),
{
    let start = select_best(g, expected, mask, o, g.num_slots());
    lemma_select_unknown(g, expected, mask, o, g.num_slots());
    if filled_count(mask, g.num_slots()) == g.num_slots() {
        lemma_full_level(g, expected, mask, r);
    } else if r > 0 {
        let below = level(g, expected, mask, (r - 1) as nat);
        lemma_reroll_keeps_known(g, below, o, start, g.num_moves());
    }
}
} // verus!
