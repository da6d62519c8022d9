use vstd::prelude::*;
use crate::combinatorics::{binomial, lemma_binomial_factorial, lemma_binomial_le_pow2};
use crate::outcome::{count_of, count_value, factorial, is_sorted, lemma_count_le_len, UnorderedDiceOutcome, MAX_DICE, MAX_SIDES};
use vstd::arithmetic::power2::pow2;

verus! {

/// Which dice a reroll with bit pattern `bits` rolls again: die `b` when bit `b` is set.
pub open spec fn reroll_bits(bits: u32, num_dice: nat) -> Seq<bool> {
    Seq::new(num_dice, |b: int| bits & (1u32 << b as u32) != 0)
}

/// Every reroll selection of `num_dice` dice, in index order.
pub open spec fn all_rerolls(num_dice: nat) -> Seq<Seq<bool>> {
    Seq::new(pow2(num_dice), |r: int| reroll_bits(r as u32, num_dice))
}

/// How many dice a selection rolls again.
pub open spec fn num_rerolled(rerolled: Seq<bool>) -> nat
    decreases rerolled.len(),
{
    if rerolled.len() == 0 {
        0
    } else {
        num_rerolled(rerolled.drop_last()) + if rerolled.last() {
            1nat
        } else {
            0nat
        }
    }
}

/// `dice` with its first die showing `value` taken out; `None` when no die shows it.
pub open spec fn remove_first(dice: Seq<u8>, value: u8) -> Option<Seq<u8>>
    decreases dice.len(),
{
    if dice.len() == 0 {
        None
    } else if dice[0] == value {
        Some(dice.drop_first())
    } else {
        match remove_first(dice.drop_first(), value) {
            Some(rest) => Some(seq![dice[0]] + rest),
            None => None,
        }
    }
}

/// The dice of `to` left for the reroll once the first `i` positions of `from` that
/// are kept have been matched and taken out; `None` when one cannot be matched.
pub open spec fn remove_kept(to: Seq<u8>, from: Seq<u8>, rerolled: Seq<bool>, i: nat) -> Option<Seq<u8>>
    decreases i,
{
    if i == 0 {
        Some(to)
    } else {
        match remove_kept(to, from, rerolled, (i - 1) as nat) {
            None => None,
            Some(rest) => if rerolled[i - 1] {
                Some(rest)
            } else {
                remove_first(rest, from[i - 1])
            },
        }
    }
}

/// `dice` without the dice showing `value`.
pub open spec fn without(dice: Seq<u8>, value: u8) -> Seq<u8>
    decreases dice.len(),
{
    if dice.len() == 0 {
        dice
    } else {
        let w = without(dice.drop_last(), value);
        if dice.last() == value {
            w
        } else {
            w.push(dice.last())
        }
    }
}

/// The number of ordered rolls of `rest.len()` dice whose faces, from `face` to
/// `num_sides`, are those of `rest`: the product, face by face, of the ways to
/// place that face's dice among the positions still free.
pub open spec fn arrangements(rest: Seq<u8>, face: nat, num_sides: nat) -> nat
    decreases num_sides + 1 - face,
{
    if face > num_sides {
        1
    } else {
        binomial(rest.len(), count_of(rest, face as u8)) * arrangements(
            without(rest, face as u8),
            face + 1,
            num_sides,
        )
    }
}

/// Ordered results of the rerolled dice that turn `from` into `to`. The
/// probability of the transition is this weight over `num_sides ^ k`, `k` the
/// number of rerolled dice.
pub open spec fn transition_weight(from: Seq<u8>, to: Seq<u8>, rerolled: Seq<bool>, num_sides: nat) -> nat {
    match remove_kept(to, from, rerolled, rerolled.len()) {
        None => 0,
        Some(rest) => arrangements(rest, 1, num_sides),
    }
}

pub open spec fn triangular(n: nat) -> nat
    decreases n,
{
    if n == 0 {
        0
    } else {
        n + triangular((n - 1) as nat)
    }
}

proof fn lemma_pow2_mono(a: nat, b: nat)
    requires
        a <= b,
    ensures
        pow2(a) <= pow2(b),
{
    if a < b {
        vstd::arithmetic::power2::lemma_pow2_strictly_increases(a, b);
    }
}

proof fn lemma_triangular_mono(a: nat, b: nat)
    requires
        a <= b,
    ensures
        triangular(a) <= triangular(b),
    decreases b,
{
    if a < b {
        lemma_triangular_mono(a, (b - 1) as nat);
    }
}

proof fn lemma_without_len(dice: Seq<u8>, value: u8)
    ensures
        without(dice, value).len() + count_of(dice, value) == dice.len(),
    decreases dice.len(),
{
    if dice.len() > 0 {
        lemma_without_len(dice.drop_last(), value);
    }
}

proof fn lemma_binomial_pos(n: nat, k: nat)
    requires
        k <= n,
    ensures
        binomial(n, k) >= 1,
    decreases n,
{
    if k != 0 && k != n {
        lemma_binomial_pos((n - 1) as nat, (k - 1) as nat);
    }
}

/// The first position of `value` in `dice`, if any.
fn position_of(dice: &Vec<u8>, value: u8) -> (r: Option<usize>)
    ensures
        match r {
            Some(p) => p < dice@.len() && dice@[p as int] == value && forall|i: int| 0 <= i < p ==> dice@[i] != value,
            None => forall|i: int| 0 <= i < dice@.len() ==> dice@[i] != value,
        },
{
    let mut i: usize = 0;
    while i < dice.len()
        invariant
            i <= dice@.len(),
            forall|j: int| 0 <= j < i ==> dice@[j] != value,
        decreases dice@.len() - i,
    {
        if dice[i] == value {
            return Some(i);
        }
        i += 1;
    }
    None
}

proof fn lemma_remove_first_at(dice: Seq<u8>, value: u8, p: int)
    requires
        0 <= p < dice.len(),
        dice[p] == value,
        forall|i: int| 0 <= i < p ==> dice[i] != value,
    ensures
        remove_first(dice, value) == Some(dice.remove(p)),
    decreases dice.len(),
{
    if p > 0 {
        lemma_remove_first_at(dice.drop_first(), value, p - 1);
        assert(seq![dice[0]] + dice.drop_first().remove(p - 1) =~= dice.remove(p));
    }
}

proof fn lemma_remove_first_none(dice: Seq<u8>, value: u8)
    requires
        forall|i: int| 0 <= i < dice.len() ==> dice[i] != value,
    ensures
        remove_first(dice, value) == None::<Seq<u8>>,
    decreases dice.len(),
{
    if dice.len() > 0 {
        lemma_remove_first_none(dice.drop_first(), value);
    }
}

/// A copy of `dice` without the dice showing `value`.
fn without_value(dice: &Vec<u8>, value: u8) -> (r: Vec<u8>)
    ensures
        r@ == without(dice@, value),
{
    let mut r: Vec<u8> = Vec::new();
    let mut i: usize = 0;
    while i < dice.len()
        invariant
            i <= dice@.len(),
            r@ == without(dice@.take(i as int), value),
        decreases dice@.len() - i,
    {
        assert(dice@.take(i + 1).drop_last() =~= dice@.take(i as int));
        if dice[i] != value {
            r.push(dice[i]);
        }
        i += 1;
    }
    assert(dice@.take(i as int) =~= dice@);
    r
}

impl DiceReroll {
    /// All `2 ^ num_dice` reroll selections; selection `r` rerolls die `b` when bit `b` of `r` is set.
    pub fn generate_rerolls(num_dice: u8) -> (r: Vec<DiceReroll>)
        requires
            num_dice <= MAX_DICE,
        ensures
            r@.len() == pow2(num_dice as nat),
            forall|i: int| 0 <= i < r@.len() ==> {
                &&& (#[trigger] r@[i]).index == i
                &&& r@[i].rerolled@ == reroll_bits(i as u32, num_dice as nat)
            },
    {
        let mut num_rerolls: u32 = 1;
        let mut b: u8 = 0;
        proof {
            vstd::arithmetic::power2::lemma2_to64();
        }
        while b < num_dice
            invariant
                b <= num_dice <= MAX_DICE,
                num_rerolls == pow2(b as nat),
            decreases num_dice - b,
        {
            proof {
                vstd::arithmetic::power2::lemma_pow2_unfold(b as nat + 1);
                vstd::arithmetic::power2::lemma_pow2_strictly_increases(b as nat + 1, 9);
                vstd::arithmetic::power2::lemma2_to64();
            }
            num_rerolls = num_rerolls * 2;
            b += 1;
        }
        let mut x: Vec<DiceReroll> = Vec::new();
        let mut r: u32 = 0;
        while r < num_rerolls
            invariant
                r <= num_rerolls == pow2(num_dice as nat),
                num_dice <= MAX_DICE,
                x@.len() == r,
                forall|i: int| 0 <= i < x@.len() ==> {
                    &&& (#[trigger] x@[i]).index == i
                    &&& x@[i].rerolled@ == reroll_bits(i as u32, num_dice as nat)
                },
            decreases num_rerolls - r,
        {
            let mut rerolled: Vec<bool> = Vec::new();
            let mut d: u8 = 0;
            while d < num_dice
                invariant
                    d <= num_dice <= MAX_DICE,
                    rerolled@ == reroll_bits(r, num_dice as nat).take(d as int),
                decreases num_dice - d,
            {
                rerolled.push(r & (1u32 << d as u32) != 0);
                d += 1;
                assert(rerolled@ =~= reroll_bits(r, num_dice as nat).take(d as int));
            }
            assert(rerolled@ =~= reroll_bits(r, num_dice as nat));
            x.push(DiceReroll { index: r as usize, rerolled });
            r += 1;
        }
        x
    }

    /// Weight of reaching `to` from `from` with this reroll: the ordered results
    /// of the rerolled dice that give `to`, out of `num_sides ^ k` for `k`
    /// rerolled dice. Zero when a kept die has no match in `to`.
    pub fn probability(&self, from: &UnorderedDiceOutcome, to: &UnorderedDiceOutcome) -> (r: u64)
        requires
            self.rerolled@.len() <= MAX_DICE,
            from.dice@.len() == self.rerolled@.len(),
            to.dice@.len() == self.rerolled@.len(),
            from.num_sides == to.num_sides,
            from.num_sides <= MAX_SIDES,
        ensures
            r == transition_weight(from.dice@, to.dice@, self.rerolled@, from.num_sides as nat),
    {
        let n = self.rerolled.len();
        let mut to_roll: Vec<u8> = to.dice.clone();
        assert(to_roll@ =~= to.dice@);
        let mut r: usize = 0;
        while r < n
            invariant
                n == self.rerolled@.len() <= MAX_DICE,
                from.dice@.len() == n,
                r <= n,
                remove_kept(to.dice@, from.dice@, self.rerolled@, r as nat) == Some(to_roll@),
                to_roll@.len() <= MAX_DICE,
            decreases n - r,
        {
            if !self.rerolled[r] {
                match position_of(&to_roll, from.dice[r]) {
                    Some(pos) => {
                        proof {
                            lemma_remove_first_at(to_roll@, from.dice@[r as int], pos as int);
                        }
                        to_roll.remove(pos);
                    },
                    None => {
                        proof {
                            lemma_remove_first_none(to_roll@, from.dice@[r as int]);
                            lemma_remove_kept_stays_none(to.dice@, from.dice@, self.rerolled@, r as nat + 1, n as nat);
                        }
                        return 0;
                    },
                }
            }
            r += 1;
        }
        let ghost rest = to_roll@;
        let mut p: u64 = 1;
        let mut face: u8 = 1;
        while face <= from.num_sides
            invariant
                1 <= face <= from.num_sides + 1,
                from.num_sides <= MAX_SIDES,
                rest.len() <= MAX_DICE,
                to_roll@.len() <= rest.len(),
                1 <= p,
                p * pow2(triangular(to_roll@.len())) <= pow2(triangular(rest.len())),
                p * arrangements(to_roll@, face as nat, from.num_sides as nat)
                    == arrangements(rest, 1, from.num_sides as nat),
            decreases from.num_sides + 1 - face,
        {
            let k = count_value(&to_roll, face);
            proof {
                lemma_count_le_len(to_roll@, face);
                lemma_without_len(to_roll@, face);
                lemma_binomial_le_pow2(to_roll@.len(), k as nat);
                lemma_binomial_pos(to_roll@.len(), k as nat);
            }
            let c = DiceReroll::n_choose_k(to_roll.len() as u8, k);
            let ghost w = without(to_roll@, face);
            proof {
                let len = to_roll@.len();
                vstd::arithmetic::power2::lemma_pow2_pos(triangular(w.len()));
                if k == 0 {
                    assert(c == 1);
                    assert(w.len() == len);
                    assert(c * pow2(triangular(w.len())) == pow2(triangular(len)));
                } else {
                    lemma_triangular_mono(w.len(), (len - 1) as nat);
                    assert(triangular(len) == len + triangular((len - 1) as nat));
                    vstd::arithmetic::power2::lemma_pow2_adds(len, triangular((len - 1) as nat));
                    lemma_pow2_mono(triangular(w.len()), triangular((len - 1) as nat));
                    assert(c * pow2(triangular(w.len())) <= pow2(triangular(len))) by (nonlinear_arith)
                        requires c <= pow2(len), pow2(triangular(w.len())) <= pow2(triangular((len - 1) as nat)),
                            pow2(triangular(len)) == pow2(len) * pow2(triangular((len - 1) as nat));
                }
                assert(c * pow2(triangular(w.len())) <= pow2(triangular(len)));
                assert(p * c * pow2(triangular(w.len())) <= pow2(triangular(rest.len()))) by (nonlinear_arith)
                    requires c * pow2(triangular(w.len())) <= pow2(triangular(len)),
                        p * pow2(triangular(len)) <= pow2(triangular(rest.len())), p >= 1;
                lemma_triangular_mono(rest.len(), 8);
                reveal_with_fuel(triangular, 9);
                assert(triangular(8) == 36);
                lemma_pow2_mono(triangular(rest.len()), 36);
                vstd::arithmetic::power2::lemma2_to64();
                vstd::arithmetic::power2::lemma2_to64_rest();
                assert(p * c <= pow2(36)) by (nonlinear_arith)
                    requires p * c * pow2(triangular(w.len())) <= pow2(triangular(rest.len())),
                        pow2(triangular(rest.len())) <= pow2(36), pow2(triangular(w.len())) >= 1, p >= 1, c >= 1;
                assert(p * c >= 1) by (nonlinear_arith)
                    requires p >= 1, c >= 1;
                assert(p * arrangements(to_roll@, face as nat, from.num_sides as nat)
                    == p * (c * arrangements(w, face as nat + 1, from.num_sides as nat)));
                assert(p * (c * arrangements(w, face as nat + 1, from.num_sides as nat))
                    == (p * c) * arrangements(w, face as nat + 1, from.num_sides as nat)) by (nonlinear_arith);
            }
            p = p * (c as u64);
            to_roll = without_value(&to_roll, face);
            face += 1;
        }
        assert(arrangements(to_roll@, face as nat, from.num_sides as nat) == 1);
        assert(p * arrangements(to_roll@, face as nat, from.num_sides as nat) == p) by (nonlinear_arith)
            requires arrangements(to_roll@, face as nat, from.num_sides as nat) == 1;
        assert(p == arrangements(rest, 1, from.num_sides as nat));
        assert(remove_kept(to.dice@, from.dice@, self.rerolled@, self.rerolled@.len()) == Some(rest));
        p
    }
}

proof fn lemma_remove_kept_stays_none(to: Seq<u8>, from: Seq<u8>, rerolled: Seq<bool>, i: nat, j: nat)
    requires
        i <= j,
        remove_kept(to, from, rerolled, i) == None::<Seq<u8>>,
    ensures
        remove_kept(to, from, rerolled, j) == None::<Seq<u8>>,
    decreases j - i,
{
    if i < j {
        lemma_remove_kept_stays_none(to, from, rerolled, i, (j - 1) as nat);
    }
}

/// The selection that keeps every die.
pub open spec fn keep_all(num_dice: nat) -> Seq<bool> {
    Seq::new(num_dice, |b: int| false)
}

/// Move 0 rerolls no die.
pub proof fn lemma_move_zero_keeps_all(num_dice: nat)
    ensures
        reroll_bits(0, num_dice) == keep_all(num_dice),
        num_rerolled(keep_all(num_dice)) == 0,
    decreases num_dice,
{
    assert(forall|x: u32| #[trigger] (0u32 & x) == 0) by (bit_vector);
    assert(reroll_bits(0, num_dice) =~= keep_all(num_dice));
    if num_dice > 0 {
        lemma_move_zero_keeps_all((num_dice - 1) as nat);
        assert(keep_all(num_dice).drop_last() =~= keep_all((num_dice - 1) as nat));
    }
}

proof fn lemma_remove_kept_self(x: Seq<u8>, i: nat)
    requires
        i <= x.len(),
    ensures
        remove_kept(x, x, keep_all(x.len()), i) == Some(x.skip(i as int)),
    decreases i,
{
    if i > 0 {
        lemma_remove_kept_self(x, (i - 1) as nat);
        assert(x.skip(i - 1)[0] == x[i - 1]);
        assert(x.skip(i - 1).drop_first() =~= x.skip(i as int));
    } else {
        assert(x.skip(0) =~= x);
    }
}

proof fn lemma_arrangements_empty(face: nat, num_sides: nat)
    ensures
        arrangements(Seq::<u8>::empty(), face, num_sides) == 1,
    decreases num_sides + 1 - face,
{
    if face <= num_sides {
        lemma_arrangements_empty(face + 1, num_sides);
        assert(without(Seq::<u8>::empty(), face as u8) =~= Seq::<u8>::empty());
        assert(count_of(Seq::<u8>::empty(), face as u8) == 0);
        assert(binomial(0, 0) == 1);
        assert(arrangements(Seq::<u8>::empty(), face, num_sides) == binomial(0, 0) * arrangements(
            Seq::<u8>::empty(), face + 1, num_sides));
    }
}

proof fn lemma_remove_first_multiset(dice: Seq<u8>, value: u8)
    requires
        remove_first(dice, value) is Some,
    ensures
        remove_first(dice, value).unwrap().len() + 1 == dice.len(),
        dice.to_multiset() =~= remove_first(dice, value).unwrap().to_multiset().insert(value),
    decreases dice.len(),
{
    broadcast use vstd::seq_lib::group_to_multiset_ensures, vstd::multiset::group_multiset_axioms;
    let head = seq![dice[0]];
    assert(head =~= Seq::<u8>::empty().push(dice[0]));
    assert(dice =~= head + dice.drop_first());
    vstd::seq_lib::lemma_multiset_commutative(head, dice.drop_first());
    if dice[0] != value {
        lemma_remove_first_multiset(dice.drop_first(), value);
        let t = remove_first(dice.drop_first(), value).unwrap();
        vstd::seq_lib::lemma_multiset_commutative(head, t);
    }
}

proof fn lemma_remove_kept_multiset(to: Seq<u8>, from: Seq<u8>, i: nat)
    requires
        i <= from.len(),
        remove_kept(to, from, keep_all(from.len()), i) is Some,
    ensures
        ({
            let rest = remove_kept(to, from, keep_all(from.len()), i).unwrap();
            &&& rest.len() + i == to.len()
            &&& to.to_multiset() =~= rest.to_multiset().add(from.take(i as int).to_multiset())
        }),
    decreases i,
{
    broadcast use vstd::seq_lib::group_to_multiset_ensures, vstd::multiset::group_multiset_axioms;
    if i == 0 {
        assert(from.take(0) =~= Seq::<u8>::empty());
    } else {
        let rer = keep_all(from.len());
        let prev = remove_kept(to, from, rer, (i - 1) as nat);
        assert(prev is Some);
        lemma_remove_kept_multiset(to, from, (i - 1) as nat);
        lemma_remove_first_multiset(prev.unwrap(), from[i - 1]);
        assert(from.take(i as int) =~= from.take(i - 1).push(from[i - 1]));
    }
}

/// With every die kept, an outcome can only become itself, with certainty: the
/// weight is 1 (out of `num_sides ^ 0`) from a sorted outcome to itself and 0
/// to any other.
pub proof fn lemma_keep_all_weight(from: Seq<u8>, to: Seq<u8>, num_sides: nat)
    requires
        is_sorted(from),
        is_sorted(to),
        from.len() == to.len(),
    ensures
        transition_weight(from, to, keep_all(from.len()), num_sides) == if from == to {
            1nat
        } else {
            0nat
        },
{
    broadcast use vstd::seq_lib::group_to_multiset_ensures, vstd::multiset::group_multiset_axioms;
    let rer = keep_all(from.len());
    if from == to {
        lemma_remove_kept_self(from, from.len());
        assert(from.skip(from.len() as int) =~= Seq::<u8>::empty());
        lemma_arrangements_empty(1, num_sides);
    } else {
        let r = remove_kept(to, from, rer, from.len());
        if r is Some {
            lemma_remove_kept_multiset(to, from, from.len());
            let rest = r.unwrap();
            assert(rest.len() == 0);
            assert(rest =~= Seq::<u8>::empty());
            assert(from.take(from.len() as int) =~= from);
            assert(rest.to_multiset().len() == 0);
            assert(rest.to_multiset() =~= vstd::multiset::Multiset::<u8>::empty());
            assert(to.to_multiset() =~= from.to_multiset());
            let leq = |a: u8, b: u8| a <= b;
            assert(vstd::relations::sorted_by(from, leq));
            assert(vstd::relations::sorted_by(to, leq));
            assert(vstd::relations::total_ordering(leq));
            vstd::seq_lib::lemma_sorted_unique(from, to, leq);
            assert(false);
        }
    }
}

/// A reroll selection: which dice positions are rolled again.
#[derive(Debug, Clone)]
pub struct DiceReroll {
    pub index: usize,
    pub rerolled: Vec<bool>,
}

impl DiceReroll {
    /// The number of ways to choose `k` of `n` dice.
    pub fn n_choose_k(n: u8, k: u8) -> (r: u32)
        requires
            n < 32,
            k <= n,
        ensures
            r == binomial(n as nat, k as nat),
            r * factorial(k as nat) * factorial((n - k) as nat) == factorial(n as nat),
        decreases n,
    {
        proof {
            lemma_binomial_factorial(n as nat, k as nat);
        }
        if n == 0 || k == 0 || k == n {
            return 1;
        }
        proof {
            lemma_binomial_le_pow2(n as nat, k as nat);
            vstd::arithmetic::power2::lemma_pow2_strictly_increases(n as nat, 32);
            vstd::arithmetic::power2::lemma2_to64();
        }
        Self::n_choose_k(n - 1, k - 1) + Self::n_choose_k(n - 1, k)
    }
}

} // verus!
