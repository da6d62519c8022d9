use vstd::prelude::*;

verus! {

/// The largest number of dice a game may have.
pub const MAX_DICE: u8 = 8;

/// The largest number of faces a die may have.
pub const MAX_SIDES: u8 = 16;

/// How many dice in `dice` show `value`.
pub open spec fn count_of(dice: Seq<u8>, value: u8) -> nat
    decreases dice.len(),
{
    if dice.len() == 0 {
        0
    } else {
        count_of(dice.drop_last(), value) + if dice.last() == value {
            1nat
        } else {
            0nat
        }
    }
}

pub open spec fn factorial(n: nat) -> nat
    decreases n,
{
    if n == 0 {
        1
    } else {
        n * factorial((n - 1) as nat)
    }
}

/// The number of ordered rolls that sort to `dice`, built up as the outcomes are:
/// putting a face in front of a shorter outcome multiplies by the new length and
/// divides by the new multiplicity of that face. The probability of the outcome
/// on a fresh roll is this weight over `num_sides ^ dice.len()`.
pub open spec fn apriori_weight(dice: Seq<u8>) -> nat
    decreases dice.len(),
{
    if dice.len() <= 1 {
        1
    } else {
        let tail = dice.drop_first();
        apriori_weight(tail) * dice.len() / (count_of(tail, dice[0]) + 1)
    }
}

/// All non-decreasing sequences of `num_dice` faces from `start..=num_sides`,
/// ordered by their first face, then by the rest in the same order.
pub open spec fn outcomes_from(num_dice: nat, num_sides: nat, start: nat) -> Seq<Seq<u8>>
    decreases num_dice, num_sides + 1 - start,
{
    if start > num_sides || num_dice == 0 {
        seq![]
    } else {
        let first: Seq<Seq<u8>> = if num_dice == 1 {
            seq![seq![start as u8]]
        } else {
            outcomes_from((num_dice - 1) as nat, num_sides, start).map_values(
                |o: Seq<u8>| seq![start as u8] + o,
            )
        };
        first + outcomes_from(num_dice, num_sides, start + 1)
    }
}

/// All outcomes of a game, in index order.
pub open spec fn all_outcomes(num_dice: nat, num_sides: nat) -> Seq<Seq<u8>> {
    outcomes_from(num_dice, num_sides, 1)
}

/// The dice of each outcome of a list.
pub open spec fn dice_of(outcomes: Seq<UnorderedDiceOutcome>) -> Seq<Seq<u8>> {
    outcomes.map_values(|o: UnorderedDiceOutcome| o.dice@)
}

pub proof fn lemma_count_le_len(dice: Seq<u8>, value: u8)
    ensures
        count_of(dice, value) <= dice.len(),
    decreases dice.len(),
{
    if dice.len() > 0 {
        lemma_count_le_len(dice.drop_last(), value);
    }
}

pub proof fn lemma_apriori_weight_bound(dice: Seq<u8>)
    ensures
        1 <= apriori_weight(dice) <= factorial(dice.len()),
    decreases dice.len(),
{
    if dice.len() > 1 {
        let tail = dice.drop_first();
        lemma_apriori_weight_bound(tail);
        lemma_count_le_len(tail, dice[0]);
        let w = apriori_weight(tail);
        let c = count_of(tail, dice[0]) + 1;
        assert(w * dice.len() / c <= w * dice.len()) by {
            vstd::arithmetic::div_mod::lemma_div_is_ordered_by_denominator(w * dice.len() as int, 1, c as int);
            vstd::arithmetic::div_mod::lemma_div_basics(w * dice.len() as int);
        }
        assert(w * dice.len() >= c) by (nonlinear_arith)
            requires w >= 1, dice.len() >= c, c >= 1;
        vstd::arithmetic::div_mod::lemma_div_is_ordered(c as int, w * dice.len() as int, c as int);
        vstd::arithmetic::div_mod::lemma_div_by_self(c as int);
        assert(w * dice.len() <= factorial(dice.len())) by (nonlinear_arith)
            requires w <= factorial((dice.len() - 1) as nat), factorial(dice.len()) == dice.len() * factorial((dice.len() - 1) as nat);
    } else {
        assert(factorial(0) == 1);
        assert(factorial(1) == 1 * factorial(0));
    }
}

pub proof fn lemma_factorial_small(n: nat)
    requires
        n <= MAX_DICE,
    ensures
        1 <= factorial(n) <= 40320,
    decreases n,
{
    assert(factorial(1) == 1) by { assert(factorial(0) == 1); }
    assert(factorial(2) == 2);
    assert(factorial(3) == 6);
    assert(factorial(4) == 24);
    assert(factorial(5) == 120);
    assert(factorial(6) == 720);
    assert(factorial(7) == 5040);
    assert(factorial(8) == 40320);
    if n > 0 {
        lemma_factorial_small((n - 1) as nat);
        assert(factorial(n) <= factorial(8)) by {
            lemma_factorial_mono(n, 8);
        }
        assert(factorial(n) >= 1) by (nonlinear_arith)
            requires factorial(n) == n * factorial((n - 1) as nat), n >= 1, factorial((n - 1) as nat) >= 1;
    }
}

pub proof fn lemma_factorial_mono(a: nat, b: nat)
    requires
        a <= b,
    ensures
        factorial(a) <= factorial(b),
        factorial(a) >= 1,
    decreases b,
{
    if b == 0 {
    } else if a == b {
        lemma_factorial_mono((a - 1) as nat, (a - 1) as nat);
        assert(factorial(a) >= 1) by (nonlinear_arith)
            requires factorial(a) == a * factorial((a - 1) as nat), a >= 1, factorial((a - 1) as nat) >= 1;
    } else {
        lemma_factorial_mono(a, (b - 1) as nat);
        assert(factorial(b) >= factorial((b - 1) as nat)) by (nonlinear_arith)
            requires factorial(b) == b * factorial((b - 1) as nat), b >= 1, factorial((b - 1) as nat) >= 1;
    }
}

/// The faces are in non-decreasing order.
pub open spec fn is_sorted(dice: Seq<u8>) -> bool {
    forall|i: int, j: int| 0 <= i <= j < dice.len() ==> dice[i] <= dice[j]
}

/// Each generated outcome has `num_dice` sorted faces from `start..=num_sides`,
/// and no outcome is generated twice.
pub proof fn lemma_outcomes_from_props(num_dice: nat, num_sides: nat, start: nat)
    requires
        1 <= num_dice,
        1 <= start,
        num_sides <= 255,
    ensures
        forall|k: int| 0 <= k < outcomes_from(num_dice, num_sides, start).len() ==> {
            let o = #[trigger] outcomes_from(num_dice, num_sides, start)[k];
            &&& o.len() == num_dice
            &&& is_sorted(o)
            &&& forall|i: int| 0 <= i < o.len() ==> start <= #[trigger] o[i] <= num_sides
        },
        forall|k1: int, k2: int| 0 <= k1 < k2 < outcomes_from(num_dice, num_sides, start).len() ==>
            outcomes_from(num_dice, num_sides, start)[k1] != outcomes_from(num_dice, num_sides, start)[k2],
    decreases num_dice, num_sides + 1 - start,
{
    if start > num_sides {
    } else {
        let outs = outcomes_from(num_dice, num_sides, start);
        let rest = outcomes_from(num_dice, num_sides, start + 1);
        lemma_outcomes_from_props(num_dice, num_sides, start + 1);
        let first: Seq<Seq<u8>> = if num_dice == 1 {
            seq![seq![start as u8]]
        } else {
            outcomes_from((num_dice - 1) as nat, num_sides, start).map_values(|o: Seq<u8>| seq![start as u8] + o)
        };
        assert(outs == first + rest);
        if num_dice > 1 {
            let shorter = outcomes_from((num_dice - 1) as nat, num_sides, start);
            lemma_outcomes_from_props((num_dice - 1) as nat, num_sides, start);
            assert forall|k: int| 0 <= k < first.len() implies {
                let o = #[trigger] first[k];
                &&& o.len() == num_dice
                &&& is_sorted(o)
                &&& forall|i: int| 0 <= i < o.len() ==> start <= #[trigger] o[i] <= num_sides
                &&& o[0] == start
            } by {
                let t = shorter[k];
                assert(first[k] == seq![start as u8] + t);
            }
            assert forall|k1: int, k2: int| 0 <= k1 < k2 < first.len() implies first[k1] != first[k2] by {
                assert(first[k1].drop_first() =~= shorter[k1]);
                assert(first[k2].drop_first() =~= shorter[k2]);
            }
        }
        assert forall|k: int| 0 <= k < outs.len() implies {
            let o = #[trigger] outs[k];
            &&& o.len() == num_dice
            &&& is_sorted(o)
            &&& forall|i: int| 0 <= i < o.len() ==> start <= #[trigger] o[i] <= num_sides
        } by {
            if k < first.len() {
                assert(outs[k] == first[k]);
            } else {
                assert(outs[k] == rest[k - first.len()]);
            }
        }
        assert forall|k1: int, k2: int| 0 <= k1 < k2 < outs.len() implies outs[k1] != outs[k2] by {
            if k2 < first.len() {
                assert(outs[k1] == first[k1]);
                assert(outs[k2] == first[k2]);
            } else if k1 >= first.len() {
                assert(outs[k1] == rest[k1 - first.len()]);
                assert(outs[k2] == rest[k2 - first.len()]);
            } else {
                assert(outs[k1] == first[k1]);
                assert(outs[k2] == rest[k2 - first.len()]);
                assert(outs[k1][0] == start);
                assert(outs[k2][0] >= start + 1);
            }
        }
    }
}

/// How many dice of `dice` show `value`.
pub fn count_value(dice: &Vec<u8>, value: u8) -> (r: u8)
    requires
        dice@.len() <= MAX_DICE,
    ensures
        r == count_of(dice@, value),
{
    let mut count: u8 = 0;
    let mut i: usize = 0;
    while i < dice.len()
        invariant
            i <= dice@.len() <= MAX_DICE,
            count == count_of(dice@.take(i as int), value),
        decreases dice@.len() - i,
    {
        assert(dice@.take(i + 1).drop_last() =~= dice@.take(i as int));
        proof {
            lemma_count_le_len(dice@.take(i as int), value);
        }
        if dice[i] == value {
            count += 1;
        }
        i += 1;
    }
    assert(dice@.take(i as int) =~= dice@);
    count
}

/// One unordered outcome of a roll of all dice.
#[derive(Debug)]
pub struct UnorderedDiceOutcome {
    pub index: usize,
    /// The faces, in non-decreasing order.
    pub dice: Vec<u8>,
    pub num_sides: u8,
    /// Ordered rolls giving this outcome, out of `num_sides ^ dice.len()`.
    pub initial_weight: u64,
}

impl UnorderedDiceOutcome {
    /// How many dice show `value`.
    pub fn count_dice_of_value(&self, value: u8) -> (r: u8)
        requires
            self.dice@.len() <= MAX_DICE,
        ensures
            r == count_of(self.dice@, value),
    {
        count_value(&self.dice, value)
    }

    fn generate_outcomes_recurse(num_dice: u8, num_sides: u8, start_at: u8) -> (r: Vec<UnorderedDiceOutcome>)
        requires
            1 <= num_dice <= MAX_DICE,
            1 <= start_at,
            num_sides <= MAX_SIDES,
        ensures
            dice_of(r@) == outcomes_from(num_dice as nat, num_sides as nat, start_at as nat),
            forall|i: int| 0 <= i < r@.len() ==> {
                &&& (#[trigger] r@[i]).index == i
                &&& r@[i].num_sides == num_sides
                &&& r@[i].dice@.len() == num_dice
                &&& r@[i].initial_weight == apriori_weight(r@[i].dice@)
            },
        decreases num_dice,
    {
        let mut outcomes: Vec<UnorderedDiceOutcome> = Vec::new();
        let mut d: u8 = start_at;
        if start_at > num_sides {
            return outcomes;
        }
        while d <= num_sides
            invariant
                1 <= num_dice <= MAX_DICE,
                1 <= start_at <= d <= num_sides + 1,
                num_sides <= MAX_SIDES,
                dice_of(outcomes@) + outcomes_from(num_dice as nat, num_sides as nat, d as nat)
                    == outcomes_from(num_dice as nat, num_sides as nat, start_at as nat),
                forall|i: int| 0 <= i < outcomes@.len() ==> {
                    &&& (#[trigger] outcomes@[i]).index == i
                    &&& outcomes@[i].num_sides == num_sides
                    &&& outcomes@[i].dice@.len() == num_dice
                    &&& outcomes@[i].initial_weight == apriori_weight(outcomes@[i].dice@)
                },
            decreases num_sides + 1 - d,
        {
            let ghost before = dice_of(outcomes@);
            let ghost first: Seq<Seq<u8>> = if num_dice == 1 {
                seq![seq![d]]
            } else {
                outcomes_from((num_dice - 1) as nat, num_sides as nat, d as nat).map_values(
                    |o: Seq<u8>| seq![d] + o,
                )
            };
            assert(outcomes_from(num_dice as nat, num_sides as nat, d as nat)
                == first + outcomes_from(num_dice as nat, num_sides as nat, d as nat + 1));
            if num_dice > 1 {
                let shorter = Self::generate_outcomes_recurse(num_dice - 1, num_sides, d);
                let mut j: usize = 0;
                while j < shorter.len()
                    invariant
                        2 <= num_dice <= MAX_DICE,
                        j <= shorter@.len(),
                        dice_of(shorter@) == outcomes_from((num_dice - 1) as nat, num_sides as nat, d as nat),
                        first == dice_of(shorter@).map_values(|o: Seq<u8>| seq![d] + o),
                        dice_of(outcomes@) == before + first.take(j as int),
                        forall|i: int| 0 <= i < shorter@.len() ==> {
                            &&& (#[trigger] shorter@[i]).dice@.len() == num_dice - 1
                            &&& shorter@[i].initial_weight == apriori_weight(shorter@[i].dice@)
                        },
                        forall|i: int| 0 <= i < outcomes@.len() ==> {
                            &&& (#[trigger] outcomes@[i]).index == i
                            &&& outcomes@[i].num_sides == num_sides
                            &&& outcomes@[i].dice@.len() == num_dice
                            &&& outcomes@[i].initial_weight == apriori_weight(outcomes@[i].dice@)
                        },
                    decreases shorter@.len() - j,
                {
                    let o = &shorter[j];
                    assert(first[j as int] == seq![d] + o.dice@);
                    assert(dice_of(shorter@)[j as int] == o.dice@);
                    assert(o.initial_weight == apriori_weight(o.dice@));
                    assert(o.dice@.len() == num_dice - 1);
                    let mut x: Vec<u8> = Vec::new();
                    x.push(d);
                    let mut k: usize = 0;
                    while k < o.dice.len()
                        invariant
                            k <= o.dice@.len(),
                            x@ == seq![d] + o.dice@.take(k as int),
                        decreases o.dice@.len() - k,
                    {
                        x.push(o.dice[k]);
                        k += 1;
                        assert(x@ =~= seq![d] + o.dice@.take(k as int));
                    }
                    assert(o.dice@.take(k as int) =~= o.dice@);
                    proof {
                        assert(x@.drop_first() =~= o.dice@);
                        lemma_apriori_weight_bound(o.dice@);
                        lemma_factorial_small((num_dice - 1) as nat);
                        lemma_count_le_len(o.dice@, d);
                    }
                    assert(o.initial_weight * num_dice <= 40320 * 8) by (nonlinear_arith)
                        requires o.initial_weight <= 40320, num_dice <= 8;
                    let c = o.count_dice_of_value(d);
                    let initial_weight = o.initial_weight * (num_dice as u64) / (c as u64 + 1);
                    let index = outcomes.len();
                    let ghost prev = outcomes@;
                    let ghost xv = x@;
                    outcomes.push(UnorderedDiceOutcome { index, dice: x, num_sides, initial_weight });
                    assert(dice_of(outcomes@) =~= dice_of(prev).push(xv));
                    assert(first.take(j + 1) =~= first.take(j as int).push(xv));
                    j += 1;
                    assert(dice_of(outcomes@) =~= before + first.take(j as int));
                }
                assert(first.take(j as int) =~= first);
            } else {
                let mut x: Vec<u8> = Vec::new();
                x.push(d);
                let index = outcomes.len();
                outcomes.push(UnorderedDiceOutcome { index, dice: x, num_sides, initial_weight: 1 });
                assert(dice_of(outcomes@) =~= before + first);
            }
            assert(dice_of(outcomes@) + outcomes_from(num_dice as nat, num_sides as nat, d as nat + 1)
                =~= outcomes_from(num_dice as nat, num_sides as nat, start_at as nat));
            d += 1;
        }
        assert(outcomes_from(num_dice as nat, num_sides as nat, d as nat) =~= seq![]);
        assert(dice_of(outcomes@) =~= outcomes_from(num_dice as nat, num_sides as nat, start_at as nat));
        outcomes
    }

    /// Every outcome of `num_dice` dice with `num_sides` faces, indexed in order.
    /// Their a-priori probabilities sum to 1: the weights sum to
    /// `num_sides ^ num_dice`.
    pub fn generate_outcomes(num_dice: u8, num_sides: u8) -> (r: Vec<UnorderedDiceOutcome>)
        requires
            1 <= num_dice <= MAX_DICE,
            num_sides <= MAX_SIDES,
        ensures
            dice_of(r@) == all_outcomes(num_dice as nat, num_sides as nat),
            crate::game::weight_total(r@) == vstd::arithmetic::power::pow(num_sides as int, num_dice as nat),
            forall|i: int| 0 <= i < r@.len() ==> {
                &&& (#[trigger] r@[i]).index == i
                &&& r@[i].num_sides == num_sides
                &&& r@[i].dice@.len() == num_dice
                &&& r@[i].initial_weight == apriori_weight(r@[i].dice@)
            },
    {
        let r = Self::generate_outcomes_recurse(num_dice, num_sides, 1);
        proof {
            crate::apriori::lemma_apriori_total(num_dice as nat, num_sides as nat);
            crate::game::lemma_weight_total_apriori(r@);
        }
        r
    }
}

} // verus!
