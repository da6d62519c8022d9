use vstd::prelude::*;
use crate::game::DiceGame;
use crate::masks::{filled_count, has_slot, lemma_has_slot_fill};
use crate::position::{follows, is_run, Position};
use crate::scoring::MAX_SCORE;
use crate::solver::{BestMove, GameSolver, SCALE};

verus! {

/// Counts of samples per integer score.
pub struct Histogram {
    /// `data[s]` samples scored `s`.
    pub data: Vec<u64>,
}

/// How many samples of `score` a histogram table holds.
pub open spec fn count_at(data: Seq<u64>, score: int) -> nat {
    if 0 <= score < data.len() {
        data[score] as nat
    } else {
        0
    }
}

impl Histogram {
    pub fn new() -> (r: Histogram)
        ensures
            r.data@.len() == 0,
    {
        Histogram { data: Vec::new() }
    }

    /// Counts one more sample of `score`, growing the table as needed.
    pub fn add_sample(&mut self, score: usize)
        requires
            score < usize::MAX,
            count_at(old(self).data@, score as int) < u64::MAX,
        ensures
            final(self).data@.len() == if score < old(self).data@.len() {
                old(self).data@.len()
            } else {
                (score + 1) as nat
            },
            forall|i: int| 0 <= i < final(self).data@.len() ==> #[trigger] final(self).data@[i] == count_at(
                old(self).data@,
                i,
            ) + if i == score {
                1nat
            } else {
                0nat
            },
    {
        let ghost before = self.data@;
        while score >= self.data.len()
            invariant
                score < usize::MAX,
                before.len() <= self.data@.len(),
                self.data@.len() <= if score < before.len() { before.len() } else { (score + 1) as nat },
                forall|i: int| 0 <= i < self.data@.len() ==> #[trigger] self.data@[i] == count_at(before, i),
            decreases score + 1 - self.data@.len(),
        {
            self.data.push(0);
        }
        let c = self.data[score];
        self.data.set(score, c + 1);
    }
}

/// No sample counted in statistics may exceed this many points.
pub const MAX_SAMPLE: u64 = 0x2_0000_0000;

/// Running statistics of the scores of one category, or of a total.
pub struct SlotStatistics {
    pub sample_count: u64,
    pub score_sum: u128,
    pub square_sum: u128,
    pub zero_count: u64,
    pub histogram: Histogram,
}

impl SlotStatistics {
    pub fn new() -> (r: SlotStatistics)
        ensures
            r.sample_count == 0,
            r.score_sum == 0,
            r.square_sum == 0,
            r.zero_count == 0,
            r.histogram.data@.len() == 0,
    {
        SlotStatistics { sample_count: 0, score_sum: 0, square_sum: 0, zero_count: 0, histogram: Histogram::new() }
    }

    /// Every histogram count and the zero count are at most the number of
    /// samples, and every sample was at most [`MAX_SAMPLE`] points.
    pub open spec fn bounded(&self) -> bool {
        &&& self.zero_count <= self.sample_count
        &&& forall|i: int| 0 <= i < self.histogram.data@.len() ==> #[trigger] self.histogram.data@[i] <= self.sample_count
        &&& self.score_sum <= self.sample_count * MAX_SAMPLE
        &&& self.square_sum <= self.sample_count * (MAX_SAMPLE * MAX_SAMPLE)
    }

    pub fn add_sample(&mut self, score: u64)
        requires
            old(self).bounded(),
            old(self).sample_count < u32::MAX,
            score <= MAX_SAMPLE,
            score < usize::MAX,
        ensures
            final(self).bounded(),
            final(self).sample_count == old(self).sample_count + 1,
            final(self).score_sum == old(self).score_sum + score,
            final(self).square_sum == old(self).square_sum + score * score,
            final(self).zero_count == old(self).zero_count + if score == 0 {
                1nat
            } else {
                0nat
            },
            final(self).histogram.data@.len() == if (score as nat) < old(self).histogram.data@.len() {
                old(self).histogram.data@.len()
            } else {
                (score + 1) as nat
            },
            forall|i: int| 0 <= i < final(self).histogram.data@.len() ==> #[trigger] final(self).histogram.data@[i]
                == count_at(old(self).histogram.data@, i) + if i == score {
                1nat
            } else {
                0nat
            },
    {
        let ghost n = self.sample_count as nat;
        let ghost max = MAX_SAMPLE as nat;
        assert(score * score <= max * max) by (nonlinear_arith)
            requires score <= max;
        assert((n + 1) * max == n * max + max) by (nonlinear_arith);
        assert((n + 1) * (max * max) == n * (max * max) + max * max) by (nonlinear_arith);
        assert((n + 1) * (max * max) <= 0x1_0000_0000 * (0x2_0000_0000 * 0x2_0000_0000)) by (nonlinear_arith)
            requires n + 1 <= 0x1_0000_0000, max == 0x2_0000_0000;
        assert((n + 1) * max <= 0x1_0000_0000 * 0x2_0000_0000) by (nonlinear_arith)
            requires n + 1 <= 0x1_0000_0000, max == 0x2_0000_0000;
        self.sample_count = self.sample_count + 1;
        self.score_sum = self.score_sum + score as u128;
        self.square_sum = self.square_sum + score as u128 * score as u128;
        if score == 0 {
            self.zero_count = self.zero_count + 1;
        }
        self.histogram.add_sample(score as usize);
    }

    /// The mean score in units of `1 / SCALE` points, rounded down; `None` with
    /// no samples, or when the sum is too large to scale.
    pub fn average(&self) -> (r: Option<u128>)
        ensures
            r == if self.sample_count == 0 || self.score_sum > u128::MAX / (SCALE as u128) {
                None::<u128>
            } else {
                Some(((self.score_sum * SCALE) as int / self.sample_count as int) as u128)
            },
    {
        if self.sample_count == 0 || self.score_sum > u128::MAX / (SCALE as u128) {
            return None;
        }
        assert(self.score_sum * SCALE <= u128::MAX) by (nonlinear_arith)
            requires self.score_sum <= u128::MAX / (SCALE as u128), SCALE == 1_000_000;
        Some((self.score_sum * SCALE as u128) / self.sample_count as u128)
    }
}


/// The scores of one played game.
pub struct GameProtocol {
    /// Sum of the category scores.
    pub total_slot_score: u64,
    /// Score of each category, by index.
    pub slot_scores: Vec<u64>,
    /// The bonus was earned.
    pub bonus: bool,
    /// Category scores plus the bonus.
    pub total_game_score: u64,
}

/// Sum of the scores of the bonus categories among the first `k`.
pub open spec fn bonus_sum(g: DiceGame, scores: Seq<u64>, k: nat) -> nat
    decreases k,
{
    if k == 0 {
        0
    } else {
        bonus_sum(g, scores, (k - 1) as nat) + if g.slots@[k - 1].bonus {
            scores[k - 1] as nat
        } else {
            0nat
        }
    }
}

/// Sum of the first `k` scores.
pub open spec fn score_sum(scores: Seq<u64>, k: nat) -> nat
    decreases k,
{
    if k == 0 {
        0
    } else {
        score_sum(scores, (k - 1) as nat) + scores[k - 1] as nat
    }
}

proof fn lemma_score_sum_update(scores: Seq<u64>, s: int, v: u64, k: nat)
    requires
        0 <= s < scores.len(),
        k <= scores.len(),
    ensures
        score_sum(scores.update(s, v), k) + (if s < k { scores[s] as int } else { 0 })
            == score_sum(scores, k) + (if s < k { v as int } else { 0 }),
    decreases k,
{
    if k > 0 {
        lemma_score_sum_update(scores, s, v, (k - 1) as nat);
    }
}

proof fn lemma_score_sum_zero(scores: Seq<u64>, k: nat)
    requires
        k <= scores.len(),
        forall|i: int| 0 <= i < scores.len() ==> #[trigger] scores[i] == 0,
    ensures
        score_sum(scores, k) == 0,
    decreases k,
{
    if k > 0 {
        lemma_score_sum_zero(scores, (k - 1) as nat);
    }
}

/// Settles the bonus of a played game: it is earned when the bonus
/// categories sum to at least the threshold, and then adds to the total.
pub fn settle_bonus(game: &DiceGame, protocol: GameProtocol) -> (r: GameProtocol)
    requires
        protocol.slot_scores@.len() == game.num_slots() <= 32,
        forall|i: int| 0 <= i < protocol.slot_scores@.len() ==> #[trigger] protocol.slot_scores@[i] <= MAX_SCORE,
        protocol.total_slot_score <= 32 * MAX_SCORE,
    ensures
        r.slot_scores@ == protocol.slot_scores@,
        r.total_slot_score == protocol.total_slot_score,
        r.bonus == (bonus_sum(*game, protocol.slot_scores@, game.num_slots()) >= game.bonus_threshold),
        r.total_game_score == protocol.total_slot_score + if r.bonus {
            game.bonus_score as nat
        } else {
            0nat
        },
{
    let mut sum: u64 = 0;
    let mut i: usize = 0;
    while i < game.slots.len()
        invariant
            i <= game.num_slots() <= 32,
            protocol.slot_scores@.len() == game.num_slots(),
            forall|j: int| 0 <= j < protocol.slot_scores@.len() ==> #[trigger] protocol.slot_scores@[j] <= MAX_SCORE,
            sum == bonus_sum(*game, protocol.slot_scores@, i as nat),
            sum <= i * MAX_SCORE,
        decreases game.num_slots() - i,
    {
        if game.slots[i].bonus {
            sum = sum + protocol.slot_scores[i];
        }
        i += 1;
    }
    let bonus = sum >= game.bonus_threshold as u64;
    let total_game_score = if bonus {
        protocol.total_slot_score + game.bonus_score as u64
    } else {
        protocol.total_slot_score
    };
    GameProtocol { total_slot_score: protocol.total_slot_score, slot_scores: protocol.slot_scores, bonus, total_game_score }
}

/// Plays from `position` to the end of the game, following the recorded
/// actions, and records each category's score as it is filled.
pub fn play_game(solver: &GameSolver, position: &Position, protocol: GameProtocol) -> (r: GameProtocol)
    requires
        position.valid(solver),
        protocol.slot_scores@.len() == solver.game.num_slots(),
        protocol.total_slot_score == position.score,
        protocol.total_slot_score == score_sum(protocol.slot_scores@, solver.game.num_slots()),
        forall|i: int| 0 <= i < protocol.slot_scores@.len() ==> #[trigger] protocol.slot_scores@[i] <= MAX_SCORE,
        forall|i: int| 0 <= i < protocol.slot_scores@.len() && !has_slot(position.slot_mask, i as nat)
            ==> #[trigger] protocol.slot_scores@[i] == 0,
    ensures
        r.slot_scores@.len() == solver.game.num_slots(),
        r.total_slot_score == score_sum(r.slot_scores@, solver.game.num_slots()),
        forall|i: int| 0 <= i < r.slot_scores@.len() ==> #[trigger] r.slot_scores@[i] <= MAX_SCORE,
        r.total_slot_score <= solver.game.num_slots() * MAX_SCORE,
        r.bonus == protocol.bonus,
        r.total_game_score == protocol.total_game_score,
        exists|path: Seq<Position>| #[trigger] is_run(solver, path) && path.len() >= 1 && path[0] == *position && {
            let p = path.last();
            &&& p.valid(solver)
            &&& p.recorded(solver).best_move == BestMove::Unknown
            &&& filled_count(p.slot_mask, solver.game.num_slots()) == solver.game.num_slots()
            &&& r.total_slot_score == p.score
        },
{
    let mut current = *position;
    let ghost mut path: Seq<Position> = seq![*position];
    let ghost bonus0 = protocol.bonus;
    let ghost total0 = protocol.total_game_score;
    let mut protocol = protocol;
    loop
        invariant
            is_run(solver, path),
            path.len() >= 1,
            path[0] == *position,
            path.last() == current,
            protocol.bonus == bonus0,
            protocol.total_game_score == total0,
            current.valid(solver),
            protocol.slot_scores@.len() == solver.game.num_slots(),
            protocol.total_slot_score == current.score,
            protocol.total_slot_score == score_sum(protocol.slot_scores@, solver.game.num_slots()),
            forall|i: int| 0 <= i < protocol.slot_scores@.len() ==> #[trigger] protocol.slot_scores@[i] <= MAX_SCORE,
            forall|i: int| 0 <= i < protocol.slot_scores@.len() && !has_slot(current.slot_mask, i as nat)
                ==> #[trigger] protocol.slot_scores@[i] == 0,
        ensures
            is_run(solver, path),
            path.len() >= 1,
            path[0] == *position,
            path.last() == current,
            protocol.bonus == bonus0,
            protocol.total_game_score == total0,
            current.valid(solver),
            current.recorded(solver).best_move == BestMove::Unknown,
            protocol.slot_scores@.len() == solver.game.num_slots(),
            protocol.total_slot_score == current.score,
            protocol.total_slot_score == score_sum(protocol.slot_scores@, solver.game.num_slots()),
            forall|i: int| 0 <= i < protocol.slot_scores@.len() ==> #[trigger] protocol.slot_scores@[i] <= MAX_SCORE,
        decreases current.steps_left(solver),
    {
        let ghost before = protocol.slot_scores@;
        let best = current.get_best_move(solver);
        if let Some(b) = best {
            if let BestMove::SelectSlot(s) = b.best_move {
                proof {
                    current.lemma_select_in_range(solver);
                }
                let points = solver.game.scores[s][current.outcome_index] as u64;
                protocol.slot_scores.set(s, points);
            }
        }
        match current.follow_best_move(solver) {
            Some(next) => {
                proof {
                    current.lemma_select_score(solver, next);
                    let n = solver.game.num_slots();
                    match current.recorded(solver).best_move {
                        BestMove::SelectSlot(s) => {
                            let v = solver.game.scores@[s as int]@[current.outcome_index as int] as u64;
                            assert(protocol.slot_scores@ == before.update(s as int, v));
                            lemma_score_sum_update(before, s as int, v, n);
                            assert forall|i: int| 0 <= i < protocol.slot_scores@.len() && !has_slot(next.slot_mask, i as nat)
                                implies #[trigger] protocol.slot_scores@[i] == 0 by {
                                lemma_has_slot_fill(current.slot_mask, s as nat, i as nat);
                            }
                        },
                        _ => {},
                    }
                }
                protocol.total_slot_score = next.score;
                proof {
                    let d = choose|d: nat| Some(next) == current.after(solver, d);
                    assert(Some(next) == current.after(solver, d));
                    assert(follows(solver, current, next));
                    let old_path = path;
                    path = path.push(next);
                    assert forall|i: int| 0 <= i < path.len() - 1 implies #[trigger] follows(solver, path[i], path[i + 1]) by {
                        if i < old_path.len() - 1 {
                            assert(path[i] == old_path[i] && path[i + 1] == old_path[i + 1]);
                        } else {
                            assert(path[i] == current && path[i + 1] == next);
                        }
                    }

                }
                current = next;
            },
            None => {
                break;
            },
        }
    }
    proof {
        current.lemma_terminal_all_filled(solver);
        crate::masks::lemma_filled_count_le(current.slot_mask, solver.game.num_slots());
        assert(current.score <= solver.game.num_slots() * MAX_SCORE) by (nonlinear_arith)
            requires current.score <= filled_count(current.slot_mask, solver.game.num_slots()) * MAX_SCORE,
                filled_count(current.slot_mask, solver.game.num_slots()) <= solver.game.num_slots();
    }
    protocol
}

/// The largest total a game can score: every category at its maximum, plus the bonus.
pub open spec fn max_game_score(g: DiceGame) -> nat {
    32 * MAX_SCORE as nat + g.bonus_score as nat
}

/// Plays one game from a fresh roll, following the recorded actions, and
/// settles its bonus.
pub fn play_whole_game(solver: &GameSolver) -> (r: GameProtocol)
    requires
        solver.is_solved(),
        solver.game.wf(),
    ensures
        r.slot_scores@.len() == solver.game.num_slots(),
        r.total_slot_score == score_sum(r.slot_scores@, solver.game.num_slots()),
        forall|i: int| 0 <= i < r.slot_scores@.len() ==> #[trigger] r.slot_scores@[i] <= MAX_SCORE,
        r.total_slot_score <= solver.game.num_slots() * MAX_SCORE,
        exists|path: Seq<Position>| #[trigger] is_run(solver, path) && path.len() >= 1 && {
            let p = path.last();
            &&& path[0].slot_mask == 0
            &&& path[0].score == 0
            &&& path[0].rerolls_left == solver.game.num_rolls
            &&& p.valid(solver)
            &&& filled_count(p.slot_mask, solver.game.num_slots()) == solver.game.num_slots()
            &&& r.total_slot_score == p.score
        },
        r.bonus == (bonus_sum(solver.game, r.slot_scores@, solver.game.num_slots()) >= solver.game.bonus_threshold),
        r.total_game_score == r.total_slot_score + if r.bonus {
            solver.game.bonus_score as nat
        } else {
            0nat
        },
{
    let start = solver.initial_position(None);
    let n = solver.game.slots.len();
    let mut slot_scores: Vec<u64> = Vec::new();
    let mut i: usize = 0;
    while i < n
        invariant
            i <= n,
            slot_scores@.len() == i,
            forall|j: int| 0 <= j < i ==> #[trigger] slot_scores@[j] == 0,
        decreases n - i,
    {
        slot_scores.push(0);
        i += 1;
    }
    proof {
        lemma_score_sum_zero(slot_scores@, n as nat);
    }
    let protocol = GameProtocol { total_slot_score: 0, slot_scores, bonus: false, total_game_score: 0 };
    let played = play_game(solver, &start, protocol);
    assert(played.total_slot_score <= 32 * MAX_SCORE) by (nonlinear_arith)
        requires played.total_slot_score <= solver.game.num_slots() * MAX_SCORE, solver.game.num_slots() <= 32;
    settle_bonus(&solver.game, played)
}

/// Statistics over many played games.
pub struct GameStatistics {
    pub slot_names: Vec<&'static str>,
    pub total_slot_score: SlotStatistics,
    pub total_game_score: SlotStatistics,
    /// One sample per game: 1 when the bonus was earned.
    pub bonus: SlotStatistics,
    pub all_slots_statistics: Vec<SlotStatistics>,
}

impl GameStatistics {
    pub fn new(game: &DiceGame) -> (r: GameStatistics)
        ensures
            r.slot_names@.len() == game.num_slots(),
            forall|i: int| 0 <= i < game.num_slots() ==> #[trigger] r.slot_names@[i] == game.slots@[i].name,
            r.all_slots_statistics@.len() == game.num_slots(),
            r.samples() == 0,
            r.bounded(),
    {
        let mut slot_names: Vec<&'static str> = Vec::new();
        let mut all_slots_statistics: Vec<SlotStatistics> = Vec::new();
        let mut i: usize = 0;
        while i < game.slots.len()
            invariant
                i <= game.num_slots(),
                slot_names@.len() == i,
                all_slots_statistics@.len() == i,
                forall|j: int| 0 <= j < i ==> #[trigger] slot_names@[j] == game.slots@[j].name,
                forall|j: int| 0 <= j < i ==> {
                    &&& (#[trigger] all_slots_statistics@[j]).sample_count == 0
                    &&& all_slots_statistics@[j].bounded()
                },
            decreases game.num_slots() - i,
        {
            slot_names.push(game.slots[i].name);
            all_slots_statistics.push(SlotStatistics::new());
            i += 1;
        }
        GameStatistics {
            slot_names,
            total_slot_score: SlotStatistics::new(),
            total_game_score: SlotStatistics::new(),
            bonus: SlotStatistics::new(),
            all_slots_statistics,
        }
    }

    /// The number of games counted.
    pub open spec fn samples(&self) -> nat {
        self.total_game_score.sample_count as nat
    }

    /// Every part has counted the same games, each within its limits.
    pub open spec fn bounded(&self) -> bool {
        &&& self.total_game_score.bounded()
        &&& self.total_slot_score.bounded()
        &&& self.bonus.bounded()
        &&& self.total_slot_score.sample_count == self.samples()
        &&& self.bonus.sample_count == self.samples()
        &&& forall|i: int| 0 <= i < self.all_slots_statistics@.len() ==> {
            &&& (#[trigger] self.all_slots_statistics@[i]).bounded()
            &&& self.all_slots_statistics@[i].sample_count == self.samples()
        }
    }

    /// Counts one more game.
    pub fn add_protocol(&mut self, protocol: GameProtocol)
        requires
            old(self).bounded(),
            old(self).samples() < u32::MAX,
            protocol.total_game_score <= MAX_SAMPLE,
            protocol.total_game_score < usize::MAX,
            protocol.total_slot_score <= 32 * MAX_SCORE,
            protocol.slot_scores@.len() == old(self).all_slots_statistics@.len(),
            forall|i: int| 0 <= i < protocol.slot_scores@.len() ==> #[trigger] protocol.slot_scores@[i] <= MAX_SCORE,
        ensures
            final(self).bounded(),
            final(self).samples() == old(self).samples() + 1,
            final(self).slot_names@ == old(self).slot_names@,
            final(self).all_slots_statistics@.len() == old(self).all_slots_statistics@.len(),
            final(self).total_game_score.score_sum == old(self).total_game_score.score_sum + protocol.total_game_score,
            final(self).total_slot_score.score_sum == old(self).total_slot_score.score_sum + protocol.total_slot_score,
            final(self).bonus.score_sum == old(self).bonus.score_sum + if protocol.bonus {
                1nat
            } else {
                0nat
            },
            forall|i: int| 0 <= i < protocol.slot_scores@.len() ==> (#[trigger] final(self).all_slots_statistics@[i]).score_sum
                == old(self).all_slots_statistics@[i].score_sum + protocol.slot_scores@[i],
    {
        let ghost k = self.samples();
        self.total_game_score.add_sample(protocol.total_game_score);
        self.total_slot_score.add_sample(protocol.total_slot_score);
        self.bonus.add_sample(if protocol.bonus { 1 } else { 0 });
        let ghost before = self.all_slots_statistics@;
        let ghost game_total = self.total_game_score;
        let ghost slot_total = self.total_slot_score;
        let ghost bonus = self.bonus;
        let ghost names = self.slot_names@;
        let mut i: usize = 0;
        while i < protocol.slot_scores.len()
            invariant
                self.total_game_score == game_total,
                self.total_slot_score == slot_total,
                self.bonus == bonus,
                self.slot_names@ == names,
                protocol.slot_scores@.len() == self.all_slots_statistics@.len(),
                before.len() == self.all_slots_statistics@.len(),
                forall|j: int| 0 <= j < protocol.slot_scores@.len() ==> #[trigger] protocol.slot_scores@[j] <= MAX_SCORE,
                i <= protocol.slot_scores@.len(),
                k < u32::MAX,
                forall|j: int| 0 <= j < before.len() ==> {
                    &&& (#[trigger] before[j]).bounded()
                    &&& before[j].sample_count == k
                },
                forall|j: int| i <= j < before.len() ==> #[trigger] self.all_slots_statistics@[j] == before[j],
                forall|j: int| 0 <= j < i ==> {
                    &&& (#[trigger] self.all_slots_statistics@[j]).bounded()
                    &&& self.all_slots_statistics@[j].sample_count == k + 1
                    &&& self.all_slots_statistics@[j].score_sum == before[j].score_sum + protocol.slot_scores@[j]
                },
            decreases protocol.slot_scores@.len() - i,
        {
            let mut stat = self.all_slots_statistics.remove(i);
            stat.add_sample(protocol.slot_scores[i]);
            self.all_slots_statistics.insert(i, stat);
            i += 1;
        }
    }
}

/// Plays `game_count` games and gathers their statistics.
pub fn play_games(solver: &GameSolver, game_count: u32) -> (r: GameStatistics)
    requires
        solver.is_solved(),
        solver.game.wf(),
        max_game_score(solver.game) < usize::MAX,
    ensures
        r.samples() == game_count,
        r.all_slots_statistics@.len() == solver.game.num_slots(),
{
    let mut statistics = GameStatistics::new(&solver.game);
    let ghost max_game = max_game_score(solver.game);
    assert(max_game <= MAX_SAMPLE);
    let mut i: u32 = 0;
    while i < game_count
        invariant
            solver.is_solved(),
            solver.game.wf(),
            i <= game_count,
            statistics.samples() == i,
            statistics.bounded(),
            max_game == max_game_score(solver.game),
            max_game < usize::MAX,
            max_game <= MAX_SAMPLE,
            statistics.all_slots_statistics@.len() == solver.game.num_slots(),
        decreases game_count - i,
    {
        let protocol = play_whole_game(solver);
        assert(protocol.total_slot_score <= 32 * MAX_SCORE) by (nonlinear_arith)
            requires protocol.total_slot_score <= solver.game.num_slots() * MAX_SCORE, solver.game.num_slots() <= 32;
        statistics.add_protocol(protocol);
        i += 1;
    }
    statistics
}
} // verus!
