use vstd::prelude::*;
use vstd::arithmetic::power::pow;
use vstd::arithmetic::power2::pow2;
use crate::outcome::{
    all_outcomes, apriori_weight, count_of, dice_of, lemma_outcomes_from_props, UnorderedDiceOutcome,
    MAX_DICE, MAX_SIDES,
};
use crate::reroll::{keep_all, lemma_keep_all_weight, lemma_move_zero_keeps_all, num_rerolled, reroll_bits, transition_weight, DiceReroll};
use crate::scoring::{rule_score, ScoreRule, MAX_SCORE};
use crate::draw::{draw_index, index_for_draw, lemma_weights_total_last, weights_total};

verus! {

/// The largest number of categories: one bit each in a [`SlotMask`].
pub const MAX_SLOTS: usize = 32;

/// A set of categories, one bit per category index.
pub type SlotMask = u32;

pub type OutcomeIndex = usize;

pub type MoveIndex = usize;

pub type SlotIndex = usize;

/// Sum of the a-priori weights of a list of outcomes.
pub open spec fn apriori_total(outcomes: Seq<Seq<u8>>) -> nat
    decreases outcomes.len(),
{
    if outcomes.len() == 0 {
        0
    } else {
        apriori_total(outcomes.drop_last()) + apriori_weight(outcomes.last())
    }
}

/// Sum over the destinations `to` of the weights of reaching them from `from`.
pub open spec fn transition_total(outcomes: Seq<Seq<u8>>, from: Seq<u8>, rerolled: Seq<bool>, num_sides: nat) -> nat
    decreases outcomes.len(),
{
    if outcomes.len() == 0 {
        0
    } else {
        transition_total(outcomes.drop_last(), from, rerolled, num_sides)
            + transition_weight(from, outcomes.last(), rerolled, num_sides)
    }
}

/// The destinations of positive weight, as (index, weight), in index order.
pub open spec fn positive_transitions(
    outcomes: Seq<Seq<u8>>,
    from: Seq<u8>,
    rerolled: Seq<bool>,
    num_sides: nat,
) -> Seq<(usize, u64)>
    decreases outcomes.len(),
{
    if outcomes.len() == 0 {
        seq![]
    } else {
        let before = positive_transitions(outcomes.drop_last(), from, rerolled, num_sides);
        let w = transition_weight(from, outcomes.last(), rerolled, num_sides);
        if w > 0 {
            before.push(((outcomes.len() - 1) as usize, w as u64))
        } else {
            before
        }
    }
}

/// Sum of the a-priori weights of a list of outcomes.
pub open spec fn weight_total(outcomes: Seq<UnorderedDiceOutcome>) -> nat
    decreases outcomes.len(),
{
    if outcomes.len() == 0 {
        0
    } else {
        weight_total(outcomes.drop_last()) + outcomes.last().initial_weight as nat
    }
}

/// Sum of the weights of a transition list.
pub open spec fn list_total(list: Seq<(usize, u64)>) -> nat
    decreases list.len(),
{
    if list.len() == 0 {
        0
    } else {
        list_total(list.drop_last()) + list.last().1 as nat
    }
}

/// The transition probabilities of every outcome and move of a configuration
/// sum to 1.
pub open spec fn consistent(num_dice: nat, num_sides: nat) -> bool {
    let outs = all_outcomes(num_dice, num_sides);
    forall|f: int, m: int|
        0 <= f < outs.len() && 0 <= m < pow2(num_dice) ==> #[trigger] transition_total(
            outs,
            outs[f],
            reroll_bits(m as u32, num_dice),
            num_sides,
        ) == pow(num_sides as int, num_rerolled(reroll_bits(m as u32, num_dice)))
}

/// Why a game cannot be built.
#[derive(Debug, Clone, Copy, PartialEq, Eq)]
pub enum GameError {
    /// No dice, or more than [`MAX_DICE`].
    UnsupportedDice,
    /// No faces, or more than [`MAX_SIDES`].
    UnsupportedSides,
    /// More categories than a [`SlotMask`] has bits.
    TooManySlots,
    /// The computed probabilities do not sum to 1.
    InconsistentProbabilities,
}

/// A category as configured: its name, how it scores, and whether it counts towards the bonus.
#[derive(Debug, Clone, Copy)]
pub struct DiceSlotDescription {
    pub name: &'static str,
    pub rule: ScoreRule,
    pub bonus: bool,
}

impl DiceSlotDescription {
    pub fn new(name: &'static str, rule: ScoreRule, bonus: bool) -> (r: DiceSlotDescription)
        ensures
            r.name == name,
            r.rule == rule,
            r.bonus == bonus,
    {
        DiceSlotDescription { name, rule, bonus }
    }

    pub fn ones() -> (r: DiceSlotDescription)
        ensures
            r.rule == ScoreRule::Face(1),
            r.bonus,
    {
        DiceSlotDescription::new("Ones", ScoreRule::Face(1), true)
    }

    pub fn twos() -> (r: DiceSlotDescription)
        ensures
            r.rule == ScoreRule::Face(2),
            r.bonus,
    {
        DiceSlotDescription::new("Twos", ScoreRule::Face(2), true)
    }

    pub fn threes() -> (r: DiceSlotDescription)
        ensures
            r.rule == ScoreRule::Face(3),
            r.bonus,
    {
        DiceSlotDescription::new("Threes", ScoreRule::Face(3), true)
    }

    pub fn fours() -> (r: DiceSlotDescription)
        ensures
            r.rule == ScoreRule::Face(4),
            r.bonus,
    {
        DiceSlotDescription::new("Fours", ScoreRule::Face(4), true)
    }

    pub fn fives() -> (r: DiceSlotDescription)
        ensures
            r.rule == ScoreRule::Face(5),
            r.bonus,
    {
        DiceSlotDescription::new("Fives", ScoreRule::Face(5), true)
    }

    pub fn sixes() -> (r: DiceSlotDescription)
        ensures
            r.rule == ScoreRule::Face(6),
            r.bonus,
    {
        DiceSlotDescription::new("Sixes", ScoreRule::Face(6), true)
    }

    pub fn one_pair() -> (r: DiceSlotDescription)
        ensures
            r.rule == ScoreRule::OnePair,
            !r.bonus,
    {
        DiceSlotDescription::new("One pair", ScoreRule::OnePair, false)
    }

    pub fn two_pairs() -> (r: DiceSlotDescription)
        ensures
            r.rule == ScoreRule::TwoPairs,
            !r.bonus,
    {
        DiceSlotDescription::new("Two pairs", ScoreRule::TwoPairs, false)
    }

    pub fn three_of_a_kind() -> (r: DiceSlotDescription)
        ensures
            r.rule == ScoreRule::ThreeOfAKind,
            !r.bonus,
    {
        DiceSlotDescription::new("Three of a kind", ScoreRule::ThreeOfAKind, false)
    }

    pub fn four_of_a_kind() -> (r: DiceSlotDescription)
        ensures
            r.rule == ScoreRule::FourOfAKind,
            !r.bonus,
    {
        DiceSlotDescription::new("Four of a kind", ScoreRule::FourOfAKind, false)
    }

    pub fn yatzy() -> (r: DiceSlotDescription)
        ensures
            r.rule == ScoreRule::Yatzy,
            !r.bonus,
    {
        DiceSlotDescription::new("YATZY", ScoreRule::Yatzy, false)
    }

    pub fn chance() -> (r: DiceSlotDescription)
        ensures
            r.rule == ScoreRule::Chance,
            !r.bonus,
    {
        DiceSlotDescription::new("Chance", ScoreRule::Chance, false)
    }

    pub fn small_straight() -> (r: DiceSlotDescription)
        ensures
            r.rule == ScoreRule::SmallStraight,
            !r.bonus,
    {
        DiceSlotDescription::new("Small straight", ScoreRule::SmallStraight, false)
    }

    pub fn large_straight() -> (r: DiceSlotDescription)
        ensures
            r.rule == ScoreRule::LargeStraight,
            !r.bonus,
    {
        DiceSlotDescription::new("Large straight", ScoreRule::LargeStraight, false)
    }

    pub fn full_house() -> (r: DiceSlotDescription)
        ensures
            r.rule == ScoreRule::FullHouse,
            !r.bonus,
    {
        DiceSlotDescription::new("Full house", ScoreRule::FullHouse, false)
    }
}

/// A category of a game, with its index and its bit in a [`SlotMask`].
#[derive(Debug, Clone, Copy)]
pub struct DiceSlot {
    pub index: SlotIndex,
    pub name: &'static str,
    pub slot_mask: SlotMask,
    pub rule: ScoreRule,
    pub bonus: bool,
}

impl DiceSlot {
    pub fn new(description: &DiceSlotDescription, index: SlotIndex) -> (r: DiceSlot)
        requires
            index < MAX_SLOTS,
        ensures
            r.index == index,
            r.slot_mask == 1u32 << index as u32,
            r.name == description.name,
            r.rule == description.rule,
            r.bonus == description.bonus,
    {
        DiceSlot {
            index,
            name: description.name,
            slot_mask: 1u32 << index as u32,
            rule: description.rule,
            bonus: description.bonus,
        }
    }

    /// The points this category gives `outcome`.
    pub fn score(&self, outcome: &UnorderedDiceOutcome) -> (r: u32)
        requires
            1 <= outcome.dice@.len() <= MAX_DICE,
            outcome.num_sides <= MAX_SIDES,
        ensures
            r == rule_score(self.rule, outcome.dice@, outcome.num_sides as nat),
            r <= MAX_SCORE,
    {
        self.rule.score(outcome)
    }
}

/// A dice game: its outcomes, moves and categories, with the score and
/// transition tables built from them.
pub struct DiceGame {
    pub outcomes: Vec<UnorderedDiceOutcome>,
    pub moves: Vec<DiceReroll>,
    pub slots: Vec<DiceSlot>,
    pub num_dice: u8,
    pub num_sides: u8,
    /// Rerolls allowed before a category is filled.
    pub num_rolls: u8,
    pub bonus_threshold: u32,
    pub bonus_score: u32,
    /// Points as `scores[slot][outcome]`.
    pub scores: Vec<Vec<u32>>,
    /// `probabilities[from][move]`: the outcomes reachable with their weights,
    /// out of `num_sides ^ k` for `k` rerolled dice.
    pub probabilities: Vec<Vec<Vec<(OutcomeIndex, u64)>>>,
}

impl DiceGame {
    pub open spec fn num_outcomes(&self) -> nat {
        self.outcomes@.len()
    }

    pub open spec fn num_moves(&self) -> nat {
        self.moves@.len()
    }

    pub open spec fn num_slots(&self) -> nat {
        self.slots@.len()
    }

    /// The mask with every category filled.
    pub open spec fn full_mask(&self) -> u32 {
        if self.num_slots() >= 32 {
            u32::MAX
        } else {
            ((1u32 << self.num_slots() as u32) - 1) as u32
        }
    }

    /// Points for filling `slot` with `outcome`.
    pub open spec fn score_of(&self, slot: int, outcome: int) -> nat {
        self.scores@[slot]@[outcome] as nat
    }

    /// The transition list of `from` under `mov`.
    pub open spec fn transitions(&self, from: int, mov: int) -> Seq<(usize, u64)> {
        self.probabilities@[from]@[mov]@
    }

    /// The denominator of the weights of `mov`: `num_sides ^ k`, `k` its rerolled dice.
    pub open spec fn move_denominator(&self, mov: int) -> nat {
        pow(self.num_sides as int, num_rerolled(self.moves@[mov].rerolled@)) as nat
    }

    /// The denominator of the a-priori weights: `num_sides ^ num_dice`.
    pub open spec fn roll_denominator(&self) -> nat {
        pow(self.num_sides as int, self.num_dice as nat) as nat
    }

    pub open spec fn wf(&self) -> bool {
        let n = self.num_dice as nat;
        let s = self.num_sides as nat;
        &&& 1 <= n <= MAX_DICE
        &&& 1 <= s <= MAX_SIDES
        &&& self.num_slots() <= MAX_SLOTS
        &&& dice_of(self.outcomes@) == all_outcomes(n, s)
        &&& forall|i: int| 0 <= i < self.num_outcomes() ==> {
            &&& (#[trigger] self.outcomes@[i]).index == i
            &&& self.outcomes@[i].num_sides == s
            &&& self.outcomes@[i].dice@.len() == n
            &&& self.outcomes@[i].initial_weight == apriori_weight(self.outcomes@[i].dice@)
        }
        &&& self.num_moves() == pow2(n)
        &&& forall|i: int| 0 <= i < self.num_moves() ==> {
            &&& (#[trigger] self.moves@[i]).index == i
            &&& self.moves@[i].rerolled@ == reroll_bits(i as u32, n)
        }
        &&& forall|i: int| 0 <= i < self.num_slots() ==> {
            &&& (#[trigger] self.slots@[i]).index == i
            &&& self.slots@[i].slot_mask == 1u32 << i as u32
        }
        &&& self.scores@.len() == self.num_slots()
        &&& forall|i: int| 0 <= i < self.num_slots() ==> (#[trigger] self.scores@[i])@.len() == self.num_outcomes()
        &&& forall|i: int, o: int| 0 <= i < self.num_slots() && 0 <= o < self.num_outcomes() ==> {
            &&& #[trigger] self.score_of(i, o) == rule_score(self.slots@[i].rule, self.outcomes@[o].dice@, s)
            &&& self.score_of(i, o) <= MAX_SCORE
        }
        &&& self.probabilities@.len() == self.num_outcomes()
        &&& forall|f: int| 0 <= f < self.num_outcomes() ==> (#[trigger] self.probabilities@[f])@.len() == self.num_moves()
        &&& forall|f: int, m: int| 0 <= f < self.num_outcomes() && 0 <= m < self.num_moves() ==>
            #[trigger] self.transitions(f, m) == positive_transitions(
                dice_of(self.outcomes@),
                self.outcomes@[f].dice@,
                self.moves@[m].rerolled@,
                s,
            )
        &&& forall|f: int, m: int| 0 <= f < self.num_outcomes() && 0 <= m < self.num_moves() ==> {
            &&& list_total(#[trigger] self.transitions(f, m)) == self.move_denominator(m)
            &&& forall|i: int| 0 <= i < self.transitions(f, m).len() ==> (#[trigger] self.transitions(f, m)[i]).0 < self.num_outcomes()
        }
        &&& weight_total(self.outcomes@) == self.roll_denominator()
        &&& consistent(n, s)
    }
}


/// What, if anything, keeps a game of these parameters from being built.
pub open spec fn construction_error(num_dice: nat, num_sides: nat, num_slots: nat) -> Option<GameError> {
    if num_dice < 1 || num_dice > MAX_DICE {
        Some(GameError::UnsupportedDice)
    } else if num_sides < 1 || num_sides > MAX_SIDES {
        Some(GameError::UnsupportedSides)
    } else if num_slots > MAX_SLOTS {
        Some(GameError::TooManySlots)
    } else if !consistent(num_dice, num_sides) {
        Some(GameError::InconsistentProbabilities)
    } else {
        None
    }
}

pub proof fn lemma_pow_bound(base: nat, e: nat)
    requires
        1 <= base <= MAX_SIDES,
        e <= MAX_DICE,
    ensures
        1 <= pow(base as int, e) <= 0x1_0000_0000,
    decreases e,
{
    vstd::arithmetic::power::lemma_pow_positive(base as int, e);
    if e > 0 {
        lemma_pow_bound(base, (e - 1) as nat);
        vstd::arithmetic::power::lemma_pow_increases(base as nat, (e - 1) as nat, e);
    }
    vstd::arithmetic::power::lemma_pow_increases(16, e, 8);
    assert(pow(16, 8) == 0x1_0000_0000) by {
        reveal_with_fuel(pow, 9);
    }
    assert(pow(base as int, e) <= pow(16, e)) by {
        lemma_pow_base_mono(base, 16, e);
    }
}

proof fn lemma_pow_base_mono(a: nat, b: nat, e: nat)
    requires
        1 <= a <= b,
    ensures
        pow(a as int, e) <= pow(b as int, e),
    decreases e,
{
    reveal(pow);
    if e > 0 {
        lemma_pow_base_mono(a, b, (e - 1) as nat);
        vstd::arithmetic::power::lemma_pow_positive(a as int, (e - 1) as nat);
        assert(a * pow(a as int, (e - 1) as nat) <= b * pow(b as int, (e - 1) as nat)) by (nonlinear_arith)
            requires a <= b, pow(a as int, (e - 1) as nat) <= pow(b as int, (e - 1) as nat), pow(a as int, (e - 1) as nat) >= 1;
    }
}

pub proof fn lemma_num_rerolled_le(rerolled: Seq<bool>)
    ensures
        num_rerolled(rerolled) <= rerolled.len(),
    decreases rerolled.len(),
{
    if rerolled.len() > 0 {
        lemma_num_rerolled_le(rerolled.drop_last());
    }
}

/// `base ^ e`.
pub fn pow_exec(base: u8, e: u8) -> (r: u64)
    requires
        1 <= base <= MAX_SIDES,
        e <= MAX_DICE,
    ensures
        r == pow(base as int, e as nat),
        r <= 0x1_0000_0000,
{
    let mut r: u64 = 1;
    let mut i: u8 = 0;
    proof {
        reveal(pow);
    }
    while i < e
        invariant
            i <= e <= MAX_DICE,
            1 <= base <= MAX_SIDES,
            r == pow(base as int, i as nat),
        decreases e - i,
    {
        proof {
            lemma_pow_bound(base as nat, i as nat + 1);
            vstd::arithmetic::power::lemma_pow_adds(base as int, i as nat, 1);
            vstd::arithmetic::power::lemma_pow1(base as int);
        }
        r = r * base as u64;
        i += 1;
    }
    proof {
        lemma_pow_bound(base as nat, e as nat);
    }
    r
}

/// How many dice `rerolled` rolls again.
pub fn count_rerolled(rerolled: &Vec<bool>) -> (r: u8)
    requires
        rerolled@.len() <= MAX_DICE,
    ensures
        r == num_rerolled(rerolled@),
{
    let mut count: u8 = 0;
    let mut i: usize = 0;
    while i < rerolled.len()
        invariant
            i <= rerolled@.len() <= MAX_DICE,
            count == num_rerolled(rerolled@.take(i as int)),
        decreases rerolled@.len() - i,
    {
        assert(rerolled@.take(i + 1).drop_last() =~= rerolled@.take(i as int));
        proof {
            lemma_num_rerolled_le(rerolled@.take(i as int));
        }
        if rerolled[i] {
            count += 1;
        }
        i += 1;
    }
    assert(rerolled@.take(i as int) =~= rerolled@);
    count
}

proof fn lemma_transition_total_prefix(outs: Seq<Seq<u8>>, from: Seq<u8>, rerolled: Seq<bool>, s: nat, k: int)
    requires
        0 <= k <= outs.len(),
    ensures
        transition_total(outs.take(k), from, rerolled, s) <= transition_total(outs, from, rerolled, s),
    decreases outs.len() - k,
{
    if k < outs.len() {
        lemma_transition_total_prefix(outs, from, rerolled, s, k + 1);
        assert(outs.take(k + 1).drop_last() =~= outs.take(k));
    } else {
        assert(outs.take(k) =~= outs);
    }
}

pub proof fn lemma_weight_total_apriori(outcomes: Seq<UnorderedDiceOutcome>)
    requires
        forall|i: int| 0 <= i < outcomes.len() ==> (#[trigger] outcomes[i]).initial_weight == apriori_weight(outcomes[i].dice@),
    ensures
        weight_total(outcomes) == apriori_total(dice_of(outcomes)),
    decreases outcomes.len(),
{
    if outcomes.len() > 0 {
        lemma_weight_total_apriori(outcomes.drop_last());
        assert(dice_of(outcomes).drop_last() =~= dice_of(outcomes.drop_last()));
        assert(outcomes[outcomes.len() - 1].initial_weight == apriori_weight(outcomes.last().dice@));
    }
}

/// The outcomes reachable from `from` with `mov`, with their weights; `None` when
/// the weights do not sum to `num_sides ^ k`.
fn transition_list(outcomes: &Vec<UnorderedDiceOutcome>, from: &UnorderedDiceOutcome, mov: &DiceReroll, num_sides: u8) -> (r: Option<Vec<(OutcomeIndex, u64)>>)
    requires
        1 <= num_sides <= MAX_SIDES,
        mov.rerolled@.len() <= MAX_DICE,
        from.dice@.len() == mov.rerolled@.len(),
        from.num_sides == num_sides,
        forall|i: int| 0 <= i < outcomes@.len() ==> {
            &&& (#[trigger] outcomes@[i]).dice@.len() == mov.rerolled@.len()
            &&& outcomes@[i].num_sides == num_sides
        },
    ensures
        match r {
            Some(list) => {
                &&& list@ == positive_transitions(dice_of(outcomes@), from.dice@, mov.rerolled@, num_sides as nat)
                &&& list_total(list@) == pow(num_sides as int, num_rerolled(mov.rerolled@))
                &&& forall|i: int| 0 <= i < list@.len() ==> (#[trigger] list@[i]).0 < outcomes@.len()
                &&& transition_total(dice_of(outcomes@), from.dice@, mov.rerolled@, num_sides as nat)
                    == pow(num_sides as int, num_rerolled(mov.rerolled@))
            },
            None => transition_total(dice_of(outcomes@), from.dice@, mov.rerolled@, num_sides as nat)
                != pow(num_sides as int, num_rerolled(mov.rerolled@)),
        },
{
    let k = count_rerolled(&mov.rerolled);
    proof {
        lemma_num_rerolled_le(mov.rerolled@);
    }
    let denominator = pow_exec(num_sides, k);
    let ghost outs = dice_of(outcomes@);
    let mut list: Vec<(OutcomeIndex, u64)> = Vec::new();
    let mut total: u64 = 0;
    let mut t: usize = 0;
    while t < outcomes.len()
        invariant
            t <= outcomes@.len(),
            outs == dice_of(outcomes@),
            1 <= num_sides <= MAX_SIDES,
            mov.rerolled@.len() <= MAX_DICE,
            from.dice@.len() == mov.rerolled@.len(),
            from.num_sides == num_sides,
            forall|i: int| 0 <= i < outcomes@.len() ==> {
                &&& (#[trigger] outcomes@[i]).dice@.len() == mov.rerolled@.len()
                &&& outcomes@[i].num_sides == num_sides
            },
            denominator == pow(num_sides as int, num_rerolled(mov.rerolled@)),
            total <= denominator,
            total == transition_total(outs.take(t as int), from.dice@, mov.rerolled@, num_sides as nat),
            list@ == positive_transitions(outs.take(t as int), from.dice@, mov.rerolled@, num_sides as nat),
            list_total(list@) == total,
            forall|i: int| 0 <= i < list@.len() ==> (#[trigger] list@[i]).0 < t,
        decreases outcomes@.len() - t,
    {
        let to = &outcomes[t];
        let w = mov.probability(from, to);
        assert(outs.take(t + 1).drop_last() =~= outs.take(t as int));
        assert(outs.take(t + 1).last() == to.dice@);
        if w > denominator - total {
            proof {
                lemma_transition_total_prefix(outs, from.dice@, mov.rerolled@, num_sides as nat, t + 1);
            }
            return None;
        }
        let ghost prev = list@;
        if w > 0 {
            list.push((t, w));
            assert(list@.drop_last() =~= prev);
        }
        total = total + w;
        t += 1;
    }
    assert(outs.take(t as int) =~= outs);
    if total != denominator {
        return None;
    }
    Some(list)
}

impl DiceGame {
    /// Builds the outcome, move, score and transition tables of a game.
    pub fn new(
        num_dice: u8,
        num_sides: u8,
        num_rolls: u8,
        bonus_threshold: u32,
        bonus_score: u32,
        slot_descriptions: Vec<DiceSlotDescription>,
    ) -> (r: Result<DiceGame, GameError>)
        ensures
            match construction_error(num_dice as nat, num_sides as nat, slot_descriptions@.len()) {
                Some(e) => r matches Err(e2) && e2 == e,
                None => r matches Ok(g) && {
                    &&& g.wf()
                    &&& g.num_dice == num_dice
                    &&& g.num_sides == num_sides
                    &&& g.num_rolls == num_rolls
                    &&& g.bonus_threshold == bonus_threshold
                    &&& g.bonus_score == bonus_score
                    &&& g.num_slots() == slot_descriptions@.len()
                    &&& forall|i: int| 0 <= i < g.num_slots() ==> {
                        &&& (#[trigger] g.slots@[i]).name == slot_descriptions@[i].name
                        &&& g.slots@[i].rule == slot_descriptions@[i].rule
                        &&& g.slots@[i].bonus == slot_descriptions@[i].bonus
                    }
                },
            },
    {
        if num_dice < 1 || num_dice > MAX_DICE {
            return Err(GameError::UnsupportedDice);
        }
        if num_sides < 1 || num_sides > MAX_SIDES {
            return Err(GameError::UnsupportedSides);
        }
        if slot_descriptions.len() > MAX_SLOTS {
            return Err(GameError::TooManySlots);
        }
        let outcomes = UnorderedDiceOutcome::generate_outcomes(num_dice, num_sides);
        let moves = DiceReroll::generate_rerolls(num_dice);
        let ghost outs = dice_of(outcomes@);
        let ghost n = num_dice as nat;
        let ghost s = num_sides as nat;

        // The a-priori weights sum to `num_sides ^ num_dice`.
        proof {
            crate::apriori::lemma_apriori_total(n, s);
            lemma_weight_total_apriori(outcomes@);
        }

        // Transition lists.
        let mut probabilities: Vec<Vec<Vec<(OutcomeIndex, u64)>>> = Vec::new();
        let mut f: usize = 0;
        while f < outcomes.len()
            invariant
                f <= outcomes@.len(),
                outs == dice_of(outcomes@),
                outs == all_outcomes(n, s),
                n == num_dice, s == num_sides,
                1 <= num_dice <= MAX_DICE,
                1 <= num_sides <= MAX_SIDES,
                slot_descriptions@.len() <= MAX_SLOTS,
                moves@.len() == pow2(n),
                forall|i: int| 0 <= i < moves@.len() ==> {
                    &&& (#[trigger] moves@[i]).index == i
                    &&& moves@[i].rerolled@ == reroll_bits(i as u32, n)
                },
                forall|i: int| 0 <= i < outcomes@.len() ==> {
                    &&& (#[trigger] outcomes@[i]).dice@.len() == num_dice
                    &&& outcomes@[i].num_sides == num_sides
                },
                probabilities@.len() == f,
                forall|g: int| 0 <= g < f ==> (#[trigger] probabilities@[g])@.len() == moves@.len(),
                forall|g: int, m: int| 0 <= g < f && 0 <= m < moves@.len() ==> {
                    &&& (#[trigger] probabilities@[g]@[m])@ == positive_transitions(outs, outs[g], reroll_bits(m as u32, n), s)
                    &&& transition_total(outs, outs[g], reroll_bits(m as u32, n), s)
                        == pow(s as int, num_rerolled(reroll_bits(m as u32, n)))
                    &&& list_total(probabilities@[g]@[m]@) == pow(s as int, num_rerolled(reroll_bits(m as u32, n)))
                    &&& forall|i: int| 0 <= i < probabilities@[g]@[m]@.len() ==> (#[trigger] probabilities@[g]@[m]@[i]).0 < outcomes@.len()
                },
                weight_total(outcomes@) == pow(num_sides as int, num_dice as nat),
            decreases outcomes@.len() - f,
        {
            let mut row: Vec<Vec<(OutcomeIndex, u64)>> = Vec::new();
            let mut m: usize = 0;
            assert(outs.len() == outcomes@.len());
            assert(outs[f as int] == outcomes@[f as int].dice@);
            while m < moves.len()
                invariant
                    f < outcomes@.len(),
                    outs.len() == outcomes@.len(),
                    outs == all_outcomes(n, s),
                    slot_descriptions@.len() <= MAX_SLOTS,
                    m <= moves@.len(),
                    moves@.len() == pow2(n),
                    outs == dice_of(outcomes@),
                    outs[f as int] == outcomes@[f as int].dice@,
                    n == num_dice, s == num_sides,
                    1 <= num_dice <= MAX_DICE,
                    1 <= num_sides <= MAX_SIDES,
                    forall|i: int| 0 <= i < moves@.len() ==> {
                        &&& (#[trigger] moves@[i]).index == i
                        &&& moves@[i].rerolled@ == reroll_bits(i as u32, n)
                    },
                    forall|i: int| 0 <= i < outcomes@.len() ==> {
                        &&& (#[trigger] outcomes@[i]).dice@.len() == num_dice
                        &&& outcomes@[i].num_sides == num_sides
                    },
                    row@.len() == m,
                    forall|j: int| 0 <= j < m ==> {
                        &&& (#[trigger] row@[j])@ == positive_transitions(outs, outs[f as int], reroll_bits(j as u32, n), s)
                        &&& transition_total(outs, outs[f as int], reroll_bits(j as u32, n), s)
                            == pow(s as int, num_rerolled(reroll_bits(j as u32, n)))
                        &&& list_total(row@[j]@) == pow(s as int, num_rerolled(reroll_bits(j as u32, n)))
                        &&& forall|i: int| 0 <= i < row@[j]@.len() ==> (#[trigger] row@[j]@[i]).0 < outcomes@.len()
                    },
                decreases moves@.len() - m,
            {
                assert(moves@[m as int].rerolled@ == reroll_bits(m as u32, n));
                match transition_list(&outcomes, &outcomes[f], &moves[m], num_sides) {
                    Some(list) => {
                        let ghost prev = row@;
                        let ghost lv = list@;
                        assert(lv == positive_transitions(outs, outs[f as int], reroll_bits(m as u32, n), s));
                        row.push(list);
                        assert forall|j: int| 0 <= j < m + 1 implies {
                            &&& (#[trigger] row@[j])@ == positive_transitions(outs, outs[f as int], reroll_bits(j as u32, n), s)
                            &&& transition_total(outs, outs[f as int], reroll_bits(j as u32, n), s)
                                == pow(s as int, num_rerolled(reroll_bits(j as u32, n)))
                            &&& list_total(row@[j]@) == pow(s as int, num_rerolled(reroll_bits(j as u32, n)))
                            &&& forall|i: int| 0 <= i < row@[j]@.len() ==> (#[trigger] row@[j]@[i]).0 < outcomes@.len()
                        } by {
                            if j < m {
                                assert(row@[j] == prev[j]);
                            }
                        }
                    },
                    None => {
                        assert(!consistent(n, s)) by {
                            assert(transition_total(outs, outs[f as int], reroll_bits(m as u32, n), s)
                                != pow(s as int, num_rerolled(reroll_bits(m as u32, n))));
                        }
                        return Err(GameError::InconsistentProbabilities);
                    },
                }
                m += 1;
            }
            let ghost prev = probabilities@;
            probabilities.push(row);
            assert forall|g: int, m: int| 0 <= g < f + 1 && 0 <= m < moves@.len() implies {
                &&& (#[trigger] probabilities@[g]@[m])@ == positive_transitions(outs, outs[g], reroll_bits(m as u32, n), s)
                &&& transition_total(outs, outs[g], reroll_bits(m as u32, n), s)
                    == pow(s as int, num_rerolled(reroll_bits(m as u32, n)))
                &&& list_total(probabilities@[g]@[m]@) == pow(s as int, num_rerolled(reroll_bits(m as u32, n)))
                &&& forall|i: int| 0 <= i < probabilities@[g]@[m]@.len() ==> (#[trigger] probabilities@[g]@[m]@[i]).0 < outcomes@.len()
            } by {
                if g < f {
                    assert(probabilities@[g] == prev[g]);
                } else {
                    assert(probabilities@[g]@[m] == row@[m]);
                }
            }
            f += 1;
        }
        assert(consistent(n, s)) by {
            assert forall|g: int, m: int| 0 <= g < outs.len() && 0 <= m < pow2(n) implies #[trigger] transition_total(
                outs, outs[g], reroll_bits(m as u32, n), s,
            ) == pow(s as int, num_rerolled(reroll_bits(m as u32, n))) by {
                assert((probabilities@[g]@[m])@ == positive_transitions(outs, outs[g], reroll_bits(m as u32, n), s));
            }
        }

        // Categories and their scores.
        let mut slots: Vec<DiceSlot> = Vec::new();
        let mut scores: Vec<Vec<u32>> = Vec::new();
        let mut i: usize = 0;
        while i < slot_descriptions.len()
            invariant
                i <= slot_descriptions@.len() <= MAX_SLOTS,
                1 <= num_dice <= MAX_DICE,
                1 <= num_sides <= MAX_SIDES,
                forall|j: int| 0 <= j < outcomes@.len() ==> {
                    &&& (#[trigger] outcomes@[j]).dice@.len() == num_dice
                    &&& outcomes@[j].num_sides == num_sides
                },
                slots@.len() == i,
                scores@.len() == i,
                forall|j: int| 0 <= j < i ==> {
                    &&& (#[trigger] slots@[j]).index == j
                    &&& slots@[j].slot_mask == 1u32 << j as u32
                    &&& slots@[j].name == slot_descriptions@[j].name
                    &&& slots@[j].rule == slot_descriptions@[j].rule
                    &&& slots@[j].bonus == slot_descriptions@[j].bonus
                },
                forall|j: int| 0 <= j < i ==> (#[trigger] scores@[j])@.len() == outcomes@.len(),
                forall|j: int, o2: int| 0 <= j < i && 0 <= o2 < outcomes@.len() ==> {
                    &&& #[trigger] scores@[j]@[o2] == rule_score(slots@[j].rule, outcomes@[o2].dice@, num_sides as nat)
                    &&& scores@[j]@[o2] <= MAX_SCORE
                },
            decreases slot_descriptions@.len() - i,
        {
            let slot = DiceSlot::new(&slot_descriptions[i], i);
            let mut slot_scores: Vec<u32> = Vec::new();
            let mut o2: usize = 0;
            while o2 < outcomes.len()
                invariant
                    o2 <= outcomes@.len(),
                    1 <= num_dice <= MAX_DICE,
                    1 <= num_sides <= MAX_SIDES,
                    forall|j: int| 0 <= j < outcomes@.len() ==> {
                        &&& (#[trigger] outcomes@[j]).dice@.len() == num_dice
                        &&& outcomes@[j].num_sides == num_sides
                    },
                    slot_scores@.len() == o2,
                    forall|j: int| 0 <= j < o2 ==> {
                        &&& #[trigger] slot_scores@[j] == rule_score(slot.rule, outcomes@[j].dice@, num_sides as nat)
                        &&& slot_scores@[j] <= MAX_SCORE
                    },
                decreases outcomes@.len() - o2,
            {
                slot_scores.push(slot.score(&outcomes[o2]));
                o2 += 1;
            }
            slots.push(slot);
            scores.push(slot_scores);
            i += 1;
        }
        let game = DiceGame {
            outcomes,
            moves,
            slots,
            num_dice,
            num_sides,
            num_rolls,
            bonus_threshold,
            bonus_score,
            scores,
            probabilities,
        };
        assert(dice_of(game.outcomes@) == all_outcomes(n, s));
        assert(consistent(n, s));
        assert(game.num_moves() == pow2(n));
        assert(game.probabilities@.len() == game.num_outcomes());
        assert(game.scores@.len() == game.num_slots());
        assert(forall|i: int| 0 <= i < game.num_outcomes() ==> {
            &&& (#[trigger] game.outcomes@[i]).index == i
            &&& game.outcomes@[i].num_sides == s
            &&& game.outcomes@[i].dice@.len() == n
            &&& game.outcomes@[i].initial_weight == apriori_weight(game.outcomes@[i].dice@)
        });
        assert(forall|i: int| 0 <= i < game.num_moves() ==> {
            &&& (#[trigger] game.moves@[i]).index == i
            &&& game.moves@[i].rerolled@ == reroll_bits(i as u32, n)
        });
        assert(forall|i: int| 0 <= i < game.num_slots() ==> {
            &&& (#[trigger] game.slots@[i]).index == i
            &&& game.slots@[i].slot_mask == 1u32 << i as u32
        });
        assert(forall|i: int| 0 <= i < game.num_slots() ==> (#[trigger] game.scores@[i])@.len() == game.num_outcomes());
        assert(forall|f: int| 0 <= f < game.num_outcomes() ==> (#[trigger] game.probabilities@[f])@.len() == game.num_moves());
        assert(game.wf()) by {
            assert forall|g: int, m: int| 0 <= g < game.num_outcomes() && 0 <= m < game.num_moves() implies {
                &&& list_total(#[trigger] game.transitions(g, m)) == game.move_denominator(m)
                &&& forall|i: int| 0 <= i < game.transitions(g, m).len() ==> (#[trigger] game.transitions(g, m)[i]).0 < game.num_outcomes()
            } by {
                assert(game.moves@[m].rerolled@ == reroll_bits(m as u32, n));
                assert(game.transitions(g, m) == probabilities@[g]@[m]@);
            }
            assert forall|g: int, m: int| 0 <= g < game.num_outcomes() && 0 <= m < game.num_moves() implies
                #[trigger] game.transitions(g, m) == positive_transitions(
                    dice_of(game.outcomes@), game.outcomes@[g].dice@, game.moves@[m].rerolled@, s) by {
                assert(outs[g] == game.outcomes@[g].dice@);
            }
            assert forall|j: int, o2: int| 0 <= j < game.num_slots() && 0 <= o2 < game.num_outcomes() implies {
                &&& #[trigger] game.score_of(j, o2) == rule_score(game.slots@[j].rule, game.outcomes@[o2].dice@, s)
                &&& game.score_of(j, o2) <= MAX_SCORE
            } by {
                assert(game.scores@[j]@[o2] == rule_score(game.slots@[j].rule, game.outcomes@[o2].dice@, s));
            }
        }
        Ok(game)
    }
}

/// The same dice, in any order.
pub open spec fn same_dice(a: Seq<u8>, b: Seq<u8>) -> bool {
    a.len() == b.len() && forall|v: u8| #[trigger] count_of(a, v) == count_of(b, v)
}

/// The a-priori weights of a list of outcomes.
pub open spec fn initial_weights(outcomes: Seq<UnorderedDiceOutcome>) -> Seq<u64> {
    outcomes.map_values(|o: UnorderedDiceOutcome| o.initial_weight)
}

proof fn lemma_initial_weights_total(outcomes: Seq<UnorderedDiceOutcome>)
    ensures
        weights_total(initial_weights(outcomes)) == weight_total(outcomes),
    decreases outcomes.len(),
{
    if outcomes.len() > 0 {
        lemma_initial_weights_total(outcomes.drop_last());
        lemma_weights_total_last(initial_weights(outcomes));
        assert(initial_weights(outcomes).drop_last() =~= initial_weights(outcomes.drop_last()));
    }
}

/// Whether `dice` holds the same dice as `sorted`, in any order.
fn same_dice_exec(sorted: &Vec<u8>, dice: &Vec<u8>) -> (r: bool)
    requires
        sorted@.len() <= MAX_DICE,
    ensures
        r == same_dice(sorted@, dice@),
{
    if sorted.len() != dice.len() {
        return false;
    }
    let mut v: u16 = 0;
    while v < 256
        invariant
            sorted@.len() == dice@.len() <= MAX_DICE,
            v <= 256,
            forall|x: u8| (x as u16) < v ==> #[trigger] count_of(sorted@, x) == count_of(dice@, x),
        decreases 256 - v,
    {
        if crate::outcome::count_value(sorted, v as u8) != crate::outcome::count_value(dice, v as u8) {
            return false;
        }
        v += 1;
    }
    true
}

impl DiceGame {
    pub fn outcomes(&self) -> (r: &Vec<UnorderedDiceOutcome>)
        ensures
            r@ == self.outcomes@,
    {
        &self.outcomes
    }

    pub fn moves(&self) -> (r: &Vec<DiceReroll>)
        ensures
            r@ == self.moves@,
    {
        &self.moves
    }

    pub fn slots(&self) -> (r: &Vec<DiceSlot>)
        ensures
            r@ == self.slots@,
    {
        &self.slots
    }

    /// Rerolls allowed before a category is filled.
    pub fn moves_per_slot(&self) -> (r: u8)
        ensures
            r == self.num_rolls,
    {
        self.num_rolls
    }

    pub fn bonus_score(&self) -> (r: u32)
        ensures
            r == self.bonus_score,
    {
        self.bonus_score
    }

    pub fn bonus_threshold(&self) -> (r: u32)
        ensures
            r == self.bonus_threshold,
    {
        self.bonus_threshold
    }

    /// Points for filling `slot` with `outcome`, from the score table.
    pub fn score(&self, slot: &DiceSlot, outcome: &UnorderedDiceOutcome) -> (r: u32)
        requires
            self.wf(),
            slot.index < self.num_slots(),
            outcome.index < self.num_outcomes(),
        ensures
            r == self.score_of(slot.index as int, outcome.index as int),
    {
        self.scores[slot.index][outcome.index]
    }

    /// The outcomes reachable from `from` with move `mov`, with their weights
    /// out of `num_sides ^ k` for `k` rerolled dice.
    pub fn move_probabilities(&self, from: OutcomeIndex, mov: MoveIndex) -> (r: &Vec<(OutcomeIndex, u64)>)
        requires
            self.wf(),
            from < self.num_outcomes(),
            mov < self.num_moves(),
        ensures
            r@ == self.transitions(from as int, mov as int),
    {
        &self.probabilities[from][mov]
    }

    /// The a-priori weights of the outcomes, in index order.
    pub fn initial_weights(&self) -> (r: Vec<u64>)
        ensures
            r@ == initial_weights(self.outcomes@),
    {
        let mut r: Vec<u64> = Vec::new();
        let mut i: usize = 0;
        while i < self.outcomes.len()
            invariant
                i <= self.outcomes@.len(),
                r@ == initial_weights(self.outcomes@).take(i as int),
            decreases self.outcomes@.len() - i,
        {
            r.push(self.outcomes[i].initial_weight);
            i += 1;
            assert(r@ =~= initial_weights(self.outcomes@).take(i as int));
        }
        assert(r@ =~= initial_weights(self.outcomes@));
        r
    }

    /// The index of the outcome that `draw`, below `num_sides ^ num_dice`, selects.
    pub fn outcome_for_draw(&self, draw: u64) -> (r: OutcomeIndex)
        requires
            self.wf(),
            draw < self.roll_denominator(),
        ensures
            r == draw_index(initial_weights(self.outcomes@), draw as nat),
            r < self.num_outcomes(),
    {
        let weights = self.initial_weights();
        proof {
            lemma_initial_weights_total(self.outcomes@);
        }
        index_for_draw(&weights, draw)
    }

    /// An outcome of a fresh roll of all dice, drawn at random.
    pub fn random_initial_outcome(&self) -> (r: &UnorderedDiceOutcome)
        requires
            self.wf(),
        ensures
            exists|d: nat| d < self.roll_denominator()
                && *r == self.outcomes@[draw_index(initial_weights(self.outcomes@), d) as int],
    {
        proof {
            lemma_pow_bound(self.num_sides as nat, self.num_dice as nat);
        }
        let denominator = pow_exec(self.num_sides, self.num_dice);
        let d = crate::draw::random_below(denominator);
        let i = self.outcome_for_draw(d);
        &self.outcomes[i]
    }

    /// The outcome with the same dice as `dice`, in any order.
    pub fn find_outcome(&self, dice: &Vec<u8>) -> (r: Option<&UnorderedDiceOutcome>)
        requires
            self.wf(),
        ensures
            match r {
                Some(o) => o.index < self.num_outcomes() && *o == self.outcomes@[o.index as int]
                    && same_dice(o.dice@, dice@),
                None => forall|i: int| 0 <= i < self.num_outcomes() ==> !same_dice(#[trigger] self.outcomes@[i].dice@, dice@),
            },
    {
        let mut i: usize = 0;
        while i < self.outcomes.len()
            invariant
                self.wf(),
                i <= self.num_outcomes(),
                forall|j: int| 0 <= j < i ==> !same_dice(#[trigger] self.outcomes@[j].dice@, dice@),
            decreases self.num_outcomes() - i,
        {
            if same_dice_exec(&self.outcomes[i].dice, dice) {
                return Some(&self.outcomes[i]);
            }
            i += 1;
        }
        None
    }

    /// The move that rerolls exactly the dice marked in `rerolled`.
    pub fn find_move(&self, rerolled: &Vec<bool>) -> (r: Option<&DiceReroll>)
        requires
            self.wf(),
        ensures
            match r {
                Some(m) => m.index < self.num_moves() && *m == self.moves@[m.index as int]
                    && m.rerolled@ == rerolled@,
                None => forall|i: int| 0 <= i < self.num_moves() ==> (#[trigger] self.moves@[i]).rerolled@ != rerolled@,
            },
    {
        let mut i: usize = 0;
        while i < self.moves.len()
            invariant
                self.wf(),
                i <= self.num_moves(),
                forall|j: int| 0 <= j < i ==> (#[trigger] self.moves@[j]).rerolled@ != rerolled@,
            decreases self.num_moves() - i,
        {
            if same_flags(&self.moves[i].rerolled, rerolled) {
                return Some(&self.moves[i]);
            }
            i += 1;
        }
        None
    }
}

/// Whether two flag vectors are equal.
fn same_flags(a: &Vec<bool>, b: &Vec<bool>) -> (r: bool)
    ensures
        r == (a@ == b@),
{
    if a.len() != b.len() {
        return false;
    }
    let mut i: usize = 0;
    while i < a.len()
        invariant
            i <= a@.len() == b@.len(),
            forall|j: int| 0 <= j < i ==> a@[j] == b@[j],
        decreases a@.len() - i,
    {
        if a[i] != b[i] {
            return false;
        }
        i += 1;
    }
    assert(a@ =~= b@);
    true
}

proof fn lemma_keep_all_prefix(outs: Seq<Seq<u8>>, f: int, num_sides: nat, k: int)
    requires
        0 <= f < outs.len(),
        0 <= k <= outs.len(),
        forall|t: int| 0 <= t < outs.len() ==> #[trigger] transition_weight(outs[f], outs[t], keep_all(outs[f].len()), num_sides)
            == if t == f { 1nat } else { 0nat },
    ensures
        positive_transitions(outs.take(k), outs[f], keep_all(outs[f].len()), num_sides)
            == if k > f { seq![(f as usize, 1u64)] } else { Seq::<(usize, u64)>::empty() },
    decreases k,
{
    if k > 0 {
        lemma_keep_all_prefix(outs, f, num_sides, k - 1);
        assert(outs.take(k).drop_last() =~= outs.take(k - 1));
        assert(outs.take(k).last() == outs[k - 1]);
        assert(transition_weight(outs[f], outs[k - 1], keep_all(outs[f].len()), num_sides) == if k - 1 == f { 1nat } else { 0nat });
        if k - 1 == f {
            assert(Seq::<(usize, u64)>::empty().push((f as usize, 1u64)) =~= seq![(f as usize, 1u64)]);
        }
    }
}

/// The move that rerolls no die (move 0) leads from every outcome to that
/// outcome alone, with weight 1 out of 1.
pub proof fn lemma_keep_all_transitions(g: DiceGame, f: int)
    requires
        g.wf(),
        0 <= f < g.num_outcomes(),
    ensures
        g.transitions(f, 0) == seq![(f as usize, 1u64)],
        g.move_denominator(0) == 1,
{
    let n = g.num_dice as nat;
    let s = g.num_sides as nat;
    let outs = dice_of(g.outcomes@);
    lemma_outcomes_from_props(n, s, 1);
    lemma_move_zero_keeps_all(n);
    vstd::arithmetic::power2::lemma_pow2_pos(n);
    assert(g.moves@[0].rerolled@ == keep_all(n));
    assert(outs[f] == g.outcomes@[f].dice@);
    assert forall|t: int| 0 <= t < outs.len() implies #[trigger] transition_weight(outs[f], outs[t], keep_all(outs[f].len()), s)
        == if t == f { 1nat } else { 0nat } by {
        lemma_keep_all_weight(outs[f], outs[t], s);
        if t != f {
            if t < f {
                assert(outs[t] != outs[f]);
            } else {
                assert(outs[f] != outs[t]);
            }
        }
    }
    lemma_keep_all_prefix(outs, f, s, outs.len() as int);
    assert(outs.take(outs.len() as int) =~= outs);
    assert(g.transitions(f, 0) == positive_transitions(outs, g.outcomes@[f].dice@, g.moves@[0].rerolled@, s));
    vstd::arithmetic::power::lemma_pow0(s as int);
}

/// The a-priori probabilities of a game's outcomes sum to 1: their weights sum
/// to `num_sides ^ num_dice` (proved for every configuration in
/// `apriori::lemma_apriori_total`).
pub proof fn lemma_apriori_sums_to_one(g: DiceGame)
    requires
        g.wf(),
    ensures
        weight_total(g.outcomes@) == g.roll_denominator(),
{
}

/// In a game that `DiceGame::new` built, the transition probabilities of every
/// outcome and move sum to 1: the weights of each list sum to its denominator.
/// `new` checks these sums when it builds the game, and fails otherwise.
pub proof fn lemma_transitions_sum_to_one(g: DiceGame, f: int, m: int)
    requires
        g.wf(),
        0 <= f < g.num_outcomes(),
        0 <= m < g.num_moves(),
    ensures
        list_total(g.transitions(f, m)) == g.move_denominator(m),
{
}
} // verus!
