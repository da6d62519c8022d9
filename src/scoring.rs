use vstd::prelude::*;
use crate::outcome::{count_of, lemma_count_le_len, UnorderedDiceOutcome, MAX_DICE, MAX_SIDES};
use crate::reroll::triangular;

verus! {

/// No category scores more than this many points.
pub const MAX_SCORE: u32 = 4096;

/// How a category scores a set of dice.
#[derive(Debug, Clone, Copy, PartialEq, Eq)]
pub enum ScoreRule {
    /// The face value times the number of dice showing it.
    Face(u8),
    /// Twice the highest face shown by at least two dice.
    OnePair,
    /// Twice each of the two highest faces shown by at least two dice; zero with fewer than two such faces.
    TwoPairs,
    /// Three times the highest face shown by at least three dice.
    ThreeOfAKind,
    /// Four times the highest face shown by at least four dice.
    FourOfAKind,
    /// Fifty points when all dice show the same face.
    Yatzy,
    /// The sum of the dice.
    Chance,
    /// The sum of the dice when they show `1..=num_dice` once each.
    SmallStraight,
    /// The sum of the dice when they show the `num_dice` highest faces once each.
    LargeStraight,
    /// For an odd number of dice `2m - 1`: a face on `m` dice and another on `m - 1` dice.
    FullHouse,
}

/// `k` times the highest face from `face` down shown by at least `k` dice, else 0.
pub open spec fn of_a_kind(dice: Seq<u8>, face: nat, k: nat) -> nat
    decreases face,
{
    if face == 0 {
        0
    } else if count_of(dice, face as u8) >= k {
        k * face
    } else {
        of_a_kind(dice, (face - 1) as nat, k)
    }
}

/// Two pairs, searching downwards from `face`; `first` is twice the face of the pair found so far, or 0.
pub open spec fn two_pairs_from(dice: Seq<u8>, face: nat, first: nat) -> nat
    decreases face,
{
    if face == 0 {
        0
    } else if count_of(dice, face as u8) >= 2 {
        if first > 0 {
            first + 2 * face
        } else {
            two_pairs_from(dice, (face - 1) as nat, 2 * face)
        }
    } else {
        two_pairs_from(dice, (face - 1) as nat, first)
    }
}

/// Some face of `face..=num_sides` is shown by all dice.
pub open spec fn all_same_from(dice: Seq<u8>, face: nat, num_sides: nat) -> bool
    decreases num_sides + 1 - face,
{
    if face > num_sides || face == 0 {
        false
    } else if count_of(dice, face as u8) == dice.len() {
        true
    } else {
        all_same_from(dice, face + 1, num_sides)
    }
}

/// The sum of the dice showing faces `1..=face`.
pub open spec fn face_sum(dice: Seq<u8>, face: nat) -> nat
    decreases face,
{
    if face == 0 {
        0
    } else {
        face_sum(dice, (face - 1) as nat) + count_of(dice, face as u8) * face
    }
}

/// Each face of `lo..=hi` is shown by exactly one die.
pub open spec fn one_each(dice: Seq<u8>, lo: nat, hi: nat) -> bool {
    forall|x: u8| lo <= x <= hi ==> #[trigger] count_of(dice, x) == 1
}

/// The highest face from `face` down shown by exactly `k` dice, else 0.
pub open spec fn highest_with_count(dice: Seq<u8>, face: nat, k: nat) -> nat
    decreases face,
{
    if face == 0 {
        0
    } else if count_of(dice, face as u8) == k {
        face
    } else {
        highest_with_count(dice, (face - 1) as nat, k)
    }
}

/// The lowest face of `face..=num_sides` other than `except` shown by exactly `k` dice, else 0.
pub open spec fn lowest_with_count(dice: Seq<u8>, face: nat, num_sides: nat, k: nat, except: nat) -> nat
    decreases num_sides + 1 - face,
{
    if face > num_sides || face == 0 {
        0
    } else if face != except && count_of(dice, face as u8) == k {
        face
    } else {
        lowest_with_count(dice, face + 1, num_sides, k, except)
    }
}

pub open spec fn full_house(dice: Seq<u8>, num_sides: nat) -> nat {
    if dice.len() % 2 == 0 {
        0
    } else {
        let m = (dice.len() + 1) / 2;
        let big = highest_with_count(dice, num_sides, m);
        let small = lowest_with_count(dice, 1, num_sides, (m - 1) as nat, big);
        if big == 0 || small == 0 {
            0
        } else {
            big * m + small * (m - 1) as nat
        }
    }
}

/// The points `rule` gives the sorted dice `dice` of a die with `num_sides` faces.
pub open spec fn rule_score(rule: ScoreRule, dice: Seq<u8>, num_sides: nat) -> nat {
    match rule {
        ScoreRule::Face(f) => count_of(dice, f) * (f as nat),
        ScoreRule::OnePair => of_a_kind(dice, num_sides, 2),
        ScoreRule::TwoPairs => two_pairs_from(dice, num_sides, 0),
        ScoreRule::ThreeOfAKind => of_a_kind(dice, num_sides, 3),
        ScoreRule::FourOfAKind => of_a_kind(dice, num_sides, 4),
        ScoreRule::Yatzy => if all_same_from(dice, 1, num_sides) {
            50
        } else {
            0
        },
        ScoreRule::Chance => face_sum(dice, num_sides),
        ScoreRule::SmallStraight => if one_each(dice, 1, dice.len()) {
            triangular(dice.len())
        } else {
            0
        },
        ScoreRule::LargeStraight => if dice.len() <= num_sides && one_each(
            dice,
            (num_sides - dice.len() + 1) as nat,
            num_sides,
        ) {
            (triangular(num_sides) - triangular((num_sides - dice.len()) as nat)) as nat
        } else {
            0
        },
        ScoreRule::FullHouse => full_house(dice, num_sides),
    }
}

fn of_a_kind_exec(o: &UnorderedDiceOutcome, face: u8, k: u8) -> (r: u32)
    requires
        o.dice@.len() <= MAX_DICE,
        face <= MAX_SIDES,
        k <= 4,
    ensures
        r == of_a_kind(o.dice@, face as nat, k as nat),
        r <= 4 * MAX_SIDES,
    decreases face,
{
    if face == 0 {
        0
    } else if o.count_dice_of_value(face) >= k {
        assert(k * face <= 4 * MAX_SIDES) by (nonlinear_arith)
            requires k <= 4, face <= MAX_SIDES;
        k as u32 * face as u32
    } else {
        of_a_kind_exec(o, face - 1, k)
    }
}

fn two_pairs_exec(o: &UnorderedDiceOutcome, face: u8, first: u32) -> (r: u32)
    requires
        o.dice@.len() <= MAX_DICE,
        face <= MAX_SIDES,
        first <= 2 * MAX_SIDES,
    ensures
        r == two_pairs_from(o.dice@, face as nat, first as nat),
        r <= 4 * MAX_SIDES,
    decreases face,
{
    if face == 0 {
        0
    } else if o.count_dice_of_value(face) >= 2 {
        if first > 0 {
            first + 2 * face as u32
        } else {
            two_pairs_exec(o, face - 1, 2 * face as u32)
        }
    } else {
        two_pairs_exec(o, face - 1, first)
    }
}

fn all_same_exec(o: &UnorderedDiceOutcome, face: u8, num_sides: u8) -> (r: bool)
    requires
        o.dice@.len() <= MAX_DICE,
        num_sides <= MAX_SIDES,
    ensures
        r == all_same_from(o.dice@, face as nat, num_sides as nat),
    decreases num_sides + 1 - face,
{
    if face > num_sides || face == 0 {
        false
    } else if o.count_dice_of_value(face) as usize == o.dice.len() {
        true
    } else {
        all_same_exec(o, face + 1, num_sides)
    }
}

fn face_sum_exec(o: &UnorderedDiceOutcome, face: u8) -> (r: u32)
    requires
        o.dice@.len() <= MAX_DICE,
        face <= MAX_SIDES,
    ensures
        r == face_sum(o.dice@, face as nat),
        r <= face * MAX_DICE * MAX_SIDES,
    decreases face,
{
    if face == 0 {
        0
    } else {
        let below = face_sum_exec(o, face - 1);
        let c = o.count_dice_of_value(face);
        proof {
            lemma_count_le_len(o.dice@, face);
            assert(c * face <= MAX_DICE * MAX_SIDES) by (nonlinear_arith)
                requires c <= MAX_DICE, face <= MAX_SIDES;
        }
        below + c as u32 * face as u32
    }
}

fn one_each_exec(o: &UnorderedDiceOutcome, lo: u8, hi: u8) -> (r: bool)
    requires
        o.dice@.len() <= MAX_DICE,
        lo <= hi + 1,
        hi < 255,
    ensures
        r == one_each(o.dice@, lo as nat, hi as nat),
{
    let mut x: u8 = lo;
    while x <= hi
        invariant
            lo <= x,
            x <= hi + 1,
            hi < 255,
            o.dice@.len() <= MAX_DICE,
            forall|y: u8| lo <= y < x ==> #[trigger] count_of(o.dice@, y) == 1,
        decreases hi + 1 - x,
    {
        if o.count_dice_of_value(x) != 1 {
            return false;
        }
        x += 1;
    }
    true
}

fn highest_with_count_exec(o: &UnorderedDiceOutcome, face: u8, k: u8) -> (r: u8)
    requires
        o.dice@.len() <= MAX_DICE,
    ensures
        r == highest_with_count(o.dice@, face as nat, k as nat),
        r <= face,
    decreases face,
{
    if face == 0 {
        0
    } else if o.count_dice_of_value(face) == k {
        face
    } else {
        highest_with_count_exec(o, face - 1, k)
    }
}

fn lowest_with_count_exec(o: &UnorderedDiceOutcome, face: u8, num_sides: u8, k: u8, except: u8) -> (r: u8)
    requires
        o.dice@.len() <= MAX_DICE,
        num_sides <= MAX_SIDES,
    ensures
        r == lowest_with_count(o.dice@, face as nat, num_sides as nat, k as nat, except as nat),
        r <= num_sides,
    decreases num_sides + 1 - face,
{
    if face > num_sides || face == 0 {
        0
    } else if face != except && o.count_dice_of_value(face) == k {
        face
    } else {
        lowest_with_count_exec(o, face + 1, num_sides, k, except)
    }
}

fn triangular_exec(n: u8) -> (r: u32)
    requires
        n <= MAX_SIDES,
    ensures
        r == triangular(n as nat),
        r <= 136,
    decreases n,
{
    if n == 0 {
        0
    } else {
        let t = triangular_exec(n - 1);
        proof {
            lemma_triangular_bound(n as nat);
        }
        t + n as u32
    }
}

proof fn lemma_triangular_closed(n: nat)
    ensures
        2 * triangular(n) == n * (n + 1),
    decreases n,
{
    if n > 0 {
        let m = (n - 1) as nat;
        lemma_triangular_closed(m);
        assert(triangular(n) == n + triangular(m));
        assert(n * (n + 1) == m * (m + 1) + 2 * n) by (nonlinear_arith)
            requires m + 1 == n;
        assert(2 * triangular(n) == 2 * n + 2 * triangular(m));
    } else {
        assert(n * (n + 1) == 0) by (nonlinear_arith)
            requires n == 0;
    }
}

proof fn lemma_triangular_bound(n: nat)
    requires
        n <= MAX_SIDES,
    ensures
        triangular(n) <= 136,
{
    lemma_triangular_closed(n);
    assert(n * (n + 1) <= 16 * 17) by (nonlinear_arith)
        requires n <= 16;
}

impl ScoreRule {
    /// The points this rule gives `outcome`.
    pub fn score(&self, outcome: &UnorderedDiceOutcome) -> (r: u32)
        requires
            1 <= outcome.dice@.len() <= MAX_DICE,
            outcome.num_sides <= MAX_SIDES,
        ensures
            r == rule_score(*self, outcome.dice@, outcome.num_sides as nat),
            r <= MAX_SCORE,
    {
        let n = outcome.dice.len() as u8;
        let s = outcome.num_sides;
        match *self {
            ScoreRule::Face(f) => {
                let c = outcome.count_dice_of_value(f);
                proof {
                    lemma_count_le_len(outcome.dice@, f);
                    assert(c * f <= 8 * 255) by (nonlinear_arith)
                        requires c <= 8, f <= 255;
                }
                c as u32 * f as u32
            },
            ScoreRule::OnePair => of_a_kind_exec(outcome, s, 2),
            ScoreRule::TwoPairs => two_pairs_exec(outcome, s, 0),
            ScoreRule::ThreeOfAKind => of_a_kind_exec(outcome, s, 3),
            ScoreRule::FourOfAKind => of_a_kind_exec(outcome, s, 4),
            ScoreRule::Yatzy => {
                if all_same_exec(outcome, 1, s) {
                    50
                } else {
                    0
                }
            },
            ScoreRule::Chance => {
                let r = face_sum_exec(outcome, s);
                assert(s * MAX_DICE * MAX_SIDES <= 16 * 8 * 16) by (nonlinear_arith)
                    requires s <= 16;
                r
            },
            ScoreRule::SmallStraight => {
                if one_each_exec(outcome, 1, n) {
                    proof {
                        lemma_triangular_bound(n as nat);
                    }
                    triangular_exec(n)
                } else {
                    0
                }
            },
            ScoreRule::LargeStraight => {
                if n <= s && one_each_exec(outcome, s - n + 1, s) {
                    let hi = triangular_exec(s);
                    let lo = triangular_exec(s - n);
                    proof {
                        lemma_triangular_mono_s((s - n) as nat, s as nat);
                    }
                    hi - lo
                } else {
                    0
                }
            },
            ScoreRule::FullHouse => {
                if n % 2 == 0 {
                    return 0;
                }
                let m = (n + 1) / 2;
                let big = highest_with_count_exec(outcome, s, m);
                let small = lowest_with_count_exec(outcome, 1, s, m - 1, big);
                if big == 0 || small == 0 {
                    0
                } else {
                    assert(big * m + small * (m - 1) <= 16 * 8 + 16 * 8) by (nonlinear_arith)
                        requires big <= 16, small <= 16, m <= 8, m >= 1;
                    big as u32 * m as u32 + small as u32 * (m - 1) as u32
                }
            },
        }
    }
}

proof fn lemma_triangular_mono_s(a: nat, b: nat)
    requires
        a <= b,
    ensures
        triangular(a) <= triangular(b),
    decreases b,
{
    if a < b {
        lemma_triangular_mono_s(a, (b - 1) as nat);
    }
}

} // verus!
