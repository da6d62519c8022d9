use vstd::prelude::*;
use crate::combinatorics::{binomial, lemma_binomial_factorial};
use crate::game::apriori_total;
use crate::outcome::{all_outcomes, apriori_weight, count_of, factorial, lemma_count_le_len, lemma_factorial_mono, lemma_outcomes_from_props, outcomes_from};

verus! {

/// `x ^ e`.
pub open spec fn power(x: nat, e: nat) -> nat
    decreases e,
{
    if e == 0 {
        1
    } else {
        x * power(x, (e - 1) as nat)
    }
}

/// `sum_{j < J} binomial(m, j) * x ^ (m - j)`.
pub open spec fn binomial_sum(m: nat, x: nat, big_j: nat) -> nat
    decreases big_j,
{
    if big_j == 0 {
        0
    } else {
        let j = (big_j - 1) as nat;
        binomial_sum(m, x, j) + binomial(m, j) * power(x, (m - j) as nat)
    }
}

proof fn lemma_binomial_split(m: nat, x: nat, big_j: nat)
    requires
        m >= 1,
        1 <= big_j <= m + 1,
    ensures
        binomial_sum(m, x, big_j) == x * binomial_sum((m - 1) as nat, x, if big_j <= m { big_j } else { m })
            + binomial_sum((m - 1) as nat, x, (big_j - 1) as nat),
    decreases big_j,
{
    let m1 = (m - 1) as nat;
    if big_j == 1 {
        assert(binomial(m, 0) == 1);
        assert(binomial(m1, 0) == 1);
        assert(power(x, m) == x * power(x, m1));
        assert(binomial_sum(m1, x, 1) == binomial_sum(m1, x, 0) + binomial(m1, 0) * power(x, (m1 - 0) as nat));
        assert(binomial_sum(m1, x, 1) == power(x, m1));
        assert(binomial_sum(m, x, 1) == binomial_sum(m, x, 0) + binomial(m, 0) * power(x, (m - 0) as nat));
        assert(binomial_sum(m, x, 1) == power(x, m));
    } else {
        let j = (big_j - 1) as nat;
        lemma_binomial_split(m, x, j);
        let pj = power(x, (m - j) as nat);
        if j < m {
            let q = power(x, (m1 - j) as nat);
            assert(pj == x * q);
            assert(binomial(m, j) == binomial(m1, (j - 1) as nat) + binomial(m1, j));
            assert(binomial_sum(m1, x, j + 1) == binomial_sum(m1, x, j) + binomial(m1, j) * q);
            assert(binomial_sum(m1, x, j) == binomial_sum(m1, x, (j - 1) as nat) + binomial(m1, (j - 1) as nat) * pj);
            assert(binomial(m, j) * pj == x * (binomial(m1, j) * q) + binomial(m1, (j - 1) as nat) * pj) by (nonlinear_arith)
                requires binomial(m, j) == binomial(m1, (j - 1) as nat) + binomial(m1, j), pj == x * q;
            assert(x * binomial_sum(m1, x, j + 1) == x * binomial_sum(m1, x, j) + x * (binomial(m1, j) * q)) by (nonlinear_arith)
                requires binomial_sum(m1, x, j + 1) == binomial_sum(m1, x, j) + binomial(m1, j) * q;
        } else {
            assert(j == m);
            assert(binomial(m, m) == 1);
            assert(binomial(m1, m1) == 1);
            assert(power(x, 0) == 1);
            assert(binomial_sum(m1, x, m) == binomial_sum(m1, x, m1) + binomial(m1, m1) * power(x, 0));
        }
    }
}

/// The binomial theorem: `sum_{j <= m} binomial(m, j) * x ^ (m - j) == (x + 1) ^ m`.
pub proof fn lemma_binomial_theorem(m: nat, x: nat)
    ensures
        binomial_sum(m, x, m + 1) == power(x + 1, m),
    decreases m,
{
    if m == 0 {
        assert(binomial(0, 0) == 1);
        assert(binomial_sum(0, x, 1) == binomial_sum(0, x, 0) + binomial(0, 0) * power(x, 0));
    } else {
        let m1 = (m - 1) as nat;
        lemma_binomial_theorem(m1, x);
        lemma_binomial_split(m, x, m + 1);
        assert(x * power(x + 1, m1) + power(x + 1, m1) == (x + 1) * power(x + 1, m1)) by (nonlinear_arith);
    }
}

proof fn lemma_absorption(m1: nat, c: nat)
    requires
        c <= m1,
    ensures
        binomial(m1, c) * (m1 + 1) == binomial(m1 + 1, c + 1) * (c + 1),
{
    let m = m1 + 1;
    lemma_binomial_factorial(m1, c);
    lemma_binomial_factorial(m, c + 1);
    assert((m - (c + 1)) as nat == (m1 - c) as nat);
    let fc = factorial(c);
    let fc1 = factorial(c + 1);
    let fr = factorial((m1 - c) as nat);
    let fm1 = factorial(m1);
    let fm = factorial(m);
    assert(fc1 == (c + 1) * fc);
    assert(fm == m * fm1);
    lemma_factorial_mono(0, c + 1);
    lemma_factorial_mono(0, (m1 - c) as nat);
    let x = fc1 * fr;
    assert(x > 0) by (nonlinear_arith)
        requires fc1 >= 1, fr >= 1, x == fc1 * fr;
    let l = binomial(m1, c) * m;
    let r = binomial(m, c + 1) * (c + 1);
    assert(l * x == fm * (c + 1)) by (nonlinear_arith)
        requires binomial(m1, c) * fc * fr == fm1, fc1 == (c + 1) * fc, fm == m * fm1, x == fc1 * fr,
            l == binomial(m1, c) * m;
    assert(r * x == fm * (c + 1)) by (nonlinear_arith)
        requires binomial(m, c + 1) * fc1 * fr == fm, x == fc1 * fr, r == binomial(m, c + 1) * (c + 1);
    assert(x * l == x * r) by (nonlinear_arith)
        requires l * x == fm * (c + 1), r * x == fm * (c + 1);
    vstd::arithmetic::mul::lemma_mul_equality_converse(x as int, l as int, r as int);
}

proof fn lemma_count_prepend(o: Seq<u8>, d: u8, v: u8)
    ensures
        count_of(seq![d] + o, v) == count_of(o, v) + if d == v { 1nat } else { 0nat },
    decreases o.len(),
{
    if o.len() == 0 {
        assert(seq![d] + o =~= seq![d]);
        assert(seq![d].drop_last() =~= Seq::<u8>::empty());
        assert(count_of(Seq::<u8>::empty(), v) == 0);
        assert(count_of(seq![d], v) == count_of(seq![d].drop_last(), v) + if d == v { 1nat } else { 0nat });
    } else {
        lemma_count_prepend(o.drop_last(), d, v);
        assert((seq![d] + o).drop_last() =~= seq![d] + o.drop_last());
        assert((seq![d] + o).last() == o.last());
    }
}

proof fn lemma_count_absent(o: Seq<u8>, v: u8)
    requires
        forall|i: int| 0 <= i < o.len() ==> o[i] != v,
    ensures
        count_of(o, v) == 0,
    decreases o.len(),
{
    if o.len() > 0 {
        lemma_count_absent(o.drop_last(), v);
    }
}

/// An outcome starting with `c` dice showing its lowest face `d` weighs
/// `binomial(m, c)` times the rest: the ways to place those `c` dice among `m`.
proof fn lemma_weight_split(m: nat, s: nat, d: nat)
    requires
        1 <= m,
        1 <= d,
        s <= 255,
    ensures
        forall|k: int| 0 <= k < outcomes_from(m, s, d).len() ==> {
            let o = #[trigger] outcomes_from(m, s, d)[k];
            let c = count_of(o, d as u8);
            &&& c <= m
            &&& apriori_weight(o) == binomial(m, c) * apriori_weight(o.skip(c as int))
        },
    decreases m,
{
    if d <= s {
        let outs = outcomes_from(m, s, d);
        let rest = outcomes_from(m, s, d + 1);
        lemma_outcomes_from_props(m, s, d + 1);
        let first: Seq<Seq<u8>> = if m == 1 {
            seq![seq![d as u8]]
        } else {
            outcomes_from((m - 1) as nat, s, d).map_values(|o: Seq<u8>| seq![d as u8] + o)
        };
        assert(outs == first + rest);
        if m >= 2 {
            lemma_weight_split((m - 1) as nat, s, d);
            lemma_outcomes_from_props((m - 1) as nat, s, d);
        }
        assert forall|k: int| 0 <= k < outs.len() implies {
            let o = #[trigger] outs[k];
            let c = count_of(o, d as u8);
            &&& c <= m
            &&& apriori_weight(o) == binomial(m, c) * apriori_weight(o.skip(c as int))
        } by {
            let o = outs[k];
            if k < first.len() {
                assert(o == first[k]);
                if m == 1 {
                    lemma_count_prepend(Seq::<u8>::empty(), d as u8, d as u8);
                    assert(seq![d as u8] + Seq::<u8>::empty() =~= seq![d as u8]);
                    assert(count_of(Seq::<u8>::empty(), d as u8) == 0);
                    assert(o.skip(1) =~= Seq::<u8>::empty());
                    assert(binomial(1, 1) == 1);
                } else {
                    let o2 = outcomes_from((m - 1) as nat, s, d)[k];
                    assert(o == seq![d as u8] + o2);
                    let c2 = count_of(o2, d as u8);
                    lemma_count_prepend(o2, d as u8, d as u8);
                    assert(o.drop_first() =~= o2);
                    assert(o.skip((c2 + 1) as int) =~= o2.skip(c2 as int));
                    let w2 = apriori_weight(o2);
                    let wr = apriori_weight(o2.skip(c2 as int));
                    assert(apriori_weight(o) == w2 * m / (c2 + 1));
                    lemma_absorption((m - 1) as nat, c2);
                    assert(w2 * m == binomial(m, c2 + 1) * wr * (c2 + 1)) by (nonlinear_arith)
                        requires w2 == binomial((m - 1) as nat, c2) * wr,
                            binomial((m - 1) as nat, c2) * m == binomial(m, c2 + 1) * (c2 + 1);
                    vstd::arithmetic::div_mod::lemma_div_multiples_vanish((binomial(m, c2 + 1) * wr) as int, (c2 + 1) as int);
                    assert((c2 + 1) * (binomial(m, c2 + 1) * wr) == binomial(m, c2 + 1) * wr * (c2 + 1)) by (nonlinear_arith);
                }
            } else {
                assert(o == rest[k - first.len()]);
                assert forall|i: int| 0 <= i < o.len() implies o[i] != d as u8 by {
                    assert(d + 1 <= o[i]);
                }
                lemma_count_absent(o, d as u8);
                assert(o.skip(0) =~= o);
                assert(binomial(m, 0) == 1);
            }
        }
    }
}

/// The product of `count!` over the faces `lo..=hi`.
pub open spec fn count_factorials(o: Seq<u8>, lo: nat, hi: nat) -> nat
    decreases hi + 1 - lo,
{
    if lo > hi {
        1
    } else {
        factorial(count_of(o, lo as u8)) * count_factorials(o, lo + 1, hi)
    }
}

proof fn lemma_count_factorials_prepend(o: Seq<u8>, d: u8, lo: nat, hi: nat)
    requires
        d < lo,
        hi <= 255,
    ensures
        count_factorials(seq![d] + o, lo, hi) == count_factorials(o, lo, hi),
    decreases hi + 1 - lo,
{
    if lo <= hi {
        lemma_count_prepend(o, d, lo as u8);
        lemma_count_factorials_prepend(o, d, lo + 1, hi);
    }
}

proof fn lemma_count_factorials_absent(o: Seq<u8>, lo: nat, hi: nat)
    requires
        forall|i: int| 0 <= i < o.len() ==> o[i] < lo,
        hi <= 255,
    ensures
        count_factorials(o, lo, hi) == 1,
    decreases hi + 1 - lo,
{
    if lo <= hi {
        assert forall|i: int| 0 <= i < o.len() implies o[i] != lo as u8 by {}
        lemma_count_absent(o, lo as u8);
        lemma_count_factorials_absent(o, lo + 1, hi);
        assert(factorial(0) == 1);
    }
}

/// Every generated outcome weighs the multinomial coefficient of its faces:
/// `apriori_weight(o) * prod_v count_v(o)! == num_dice!`.
pub proof fn lemma_apriori_weight_multinomial(m: nat, s: nat, d: nat)
    requires
        1 <= m,
        1 <= d,
        s <= 255,
    ensures
        forall|k: int| 0 <= k < outcomes_from(m, s, d).len() ==>
            apriori_weight(#[trigger] outcomes_from(m, s, d)[k]) * count_factorials(outcomes_from(m, s, d)[k], d, s)
                == factorial(m),
    decreases m, s + 1 - d,
{
    if d <= s {
        let dd = d as u8;
        let outs = outcomes_from(m, s, d);
        let rest = outcomes_from(m, s, d + 1);
        let first: Seq<Seq<u8>> = if m == 1 {
            seq![seq![dd]]
        } else {
            outcomes_from((m - 1) as nat, s, d).map_values(|o: Seq<u8>| seq![dd] + o)
        };
        assert(outs == first + rest);
        lemma_apriori_weight_multinomial(m, s, d + 1);
        lemma_outcomes_from_props(m, s, d + 1);
        if m >= 2 {
            lemma_apriori_weight_multinomial((m - 1) as nat, s, d);
            lemma_weight_split((m - 1) as nat, s, d);
            lemma_outcomes_from_props((m - 1) as nat, s, d);
        }
        assert forall|k: int| 0 <= k < outs.len() implies
            apriori_weight(#[trigger] outs[k]) * count_factorials(outs[k], d, s) == factorial(m) by {
            let o = outs[k];
            if k < first.len() {
                assert(o == first[k]);
                if m == 1 {
                    lemma_count_prepend(Seq::<u8>::empty(), dd, dd);
                    assert(seq![dd] + Seq::<u8>::empty() =~= seq![dd]);
                    assert(count_of(Seq::<u8>::empty(), dd) == 0);
                    assert(forall|i: int| 0 <= i < o.len() ==> o[i] < d + 1);
                    lemma_count_factorials_absent(o, d + 1, s);
                    assert(factorial(1) == 1 * factorial(0));
                    assert(factorial(0) == 1);
                } else {
                    let o2 = outcomes_from((m - 1) as nat, s, d)[k];
                    assert(o == seq![dd] + o2);
                    let c2 = count_of(o2, dd);
                    lemma_count_prepend(o2, dd, dd);
                    lemma_count_factorials_prepend(o2, dd, d + 1, s);
                    assert(o.drop_first() =~= o2);
                    let w2 = apriori_weight(o2);
                    let w = apriori_weight(o);
                    let wr = apriori_weight(o2.skip(c2 as int));
                    assert(w == w2 * m / (c2 + 1));
                    lemma_absorption((m - 1) as nat, c2);
                    assert(w2 * m == binomial(m, c2 + 1) * wr * (c2 + 1)) by (nonlinear_arith)
                        requires w2 == binomial((m - 1) as nat, c2) * wr,
                            binomial((m - 1) as nat, c2) * m == binomial(m, c2 + 1) * (c2 + 1);
                    vstd::arithmetic::div_mod::lemma_div_multiples_vanish((binomial(m, c2 + 1) * wr) as int, (c2 + 1) as int);
                    assert((c2 + 1) * (binomial(m, c2 + 1) * wr) == binomial(m, c2 + 1) * wr * (c2 + 1)) by (nonlinear_arith);
                    assert(w * (c2 + 1) == w2 * m) by (nonlinear_arith)
                        requires w == binomial(m, c2 + 1) * wr, w2 * m == binomial(m, c2 + 1) * wr * (c2 + 1);
                    let x = count_factorials(o2, d + 1, s);
                    assert(count_factorials(o, d, s) == factorial(c2 + 1) * x);
                    assert(count_factorials(o2, d, s) == factorial(c2) * x);
                    assert(factorial(c2 + 1) == (c2 + 1) * factorial(c2));
                    assert(w2 * (factorial(c2) * x) == factorial((m - 1) as nat));
                    assert(factorial(m) == m * factorial((m - 1) as nat));
                    assert(w * (factorial(c2 + 1) * x) == factorial(m)) by (nonlinear_arith)
                        requires w * (c2 + 1) == w2 * m, factorial(c2 + 1) == (c2 + 1) * factorial(c2),
                            w2 * (factorial(c2) * x) == factorial((m - 1) as nat),
                            factorial(m) == m * factorial((m - 1) as nat);
                }
            } else {
                let k2 = k - first.len();
                assert(o == rest[k2]);
                assert forall|i: int| 0 <= i < o.len() implies o[i] != dd by {
                    assert(d + 1 <= o[i]);
                }
                lemma_count_absent(o, dd);
                assert(factorial(0) == 1);
                assert(count_factorials(o, d, s) == factorial(0) * count_factorials(o, d + 1, s));
            }
        }
    }
}

/// Sum, over the outcomes of `outs` with exactly `j` dice showing `d`, of the
/// weight of what follows those dice.
pub open spec fn rest_total(outs: Seq<Seq<u8>>, d: u8, j: nat) -> nat
    decreases outs.len(),
{
    if outs.len() == 0 {
        0
    } else {
        rest_total(outs.drop_last(), d, j) + if count_of(outs.last(), d) == j {
            apriori_weight(outs.last().skip(j as int))
        } else {
            0nat
        }
    }
}

/// Sum of the weights of the outcomes of `outs` with exactly `j` dice showing `d`.
pub open spec fn count_total(outs: Seq<Seq<u8>>, d: u8, j: nat) -> nat
    decreases outs.len(),
{
    if outs.len() == 0 {
        0
    } else {
        count_total(outs.drop_last(), d, j) + if count_of(outs.last(), d) == j {
            apriori_weight(outs.last())
        } else {
            0nat
        }
    }
}

/// `sum_{j < J} count_total(outs, d, j)`.
pub open spec fn counts_below(outs: Seq<Seq<u8>>, d: u8, big_j: nat) -> nat
    decreases big_j,
{
    if big_j == 0 {
        0
    } else {
        counts_below(outs, d, (big_j - 1) as nat) + count_total(outs, d, (big_j - 1) as nat)
    }
}

proof fn lemma_totals_concat(a: Seq<Seq<u8>>, b: Seq<Seq<u8>>, d: u8, j: nat)
    ensures
        rest_total(a + b, d, j) == rest_total(a, d, j) + rest_total(b, d, j),
        apriori_total(a + b) == apriori_total(a) + apriori_total(b),
    decreases b.len(),
{
    if b.len() == 0 {
        assert(a + b =~= a);
    } else {
        lemma_totals_concat(a, b.drop_last(), d, j);
        assert((a + b).drop_last() =~= a + b.drop_last());
        assert((a + b).last() == b.last());
    }
}

proof fn lemma_rest_prepend(outs: Seq<Seq<u8>>, d: u8, j: nat)
    ensures
        rest_total(outs.map_values(|o: Seq<u8>| seq![d] + o), d, j + 1) == rest_total(outs, d, j),
        rest_total(outs.map_values(|o: Seq<u8>| seq![d] + o), d, 0) == 0,
    decreases outs.len(),
{
    let mapped = outs.map_values(|o: Seq<u8>| seq![d] + o);
    if outs.len() > 0 {
        lemma_rest_prepend(outs.drop_last(), d, j);
        assert(mapped.drop_last() =~= outs.drop_last().map_values(|o: Seq<u8>| seq![d] + o));
        let o = outs.last();
        assert(mapped.last() == seq![d] + o);
        lemma_count_prepend(o, d, d);
        if count_of(o, d) == j {
            lemma_count_le_len(o, d);
            assert((seq![d] + o).skip((j + 1) as int) =~= o.skip(j as int));
        }
    }
}

proof fn lemma_rest_no_face(outs: Seq<Seq<u8>>, d: u8, j: nat)
    requires
        forall|k: int| 0 <= k < outs.len() ==> count_of(#[trigger] outs[k], d) == 0,
    ensures
        rest_total(outs, d, 0) == apriori_total(outs),
        rest_total(outs, d, j + 1) == 0,
    decreases outs.len(),
{
    if outs.len() > 0 {
        assert(count_of(outs[outs.len() - 1], d) == 0);
        lemma_rest_no_face(outs.drop_last(), d, j);
        assert(outs.last().skip(0) =~= outs.last());
    }
}

proof fn lemma_count_total_split(outs: Seq<Seq<u8>>, d: u8, m: nat, j: nat)
    requires
        forall|k: int| 0 <= k < outs.len() ==> apriori_weight(#[trigger] outs[k]) == binomial(m, count_of(outs[k], d))
            * apriori_weight(outs[k].skip(count_of(outs[k], d) as int)),
    ensures
        count_total(outs, d, j) == binomial(m, j) * rest_total(outs, d, j),
    decreases outs.len(),
{
    if outs.len() > 0 {
        lemma_count_total_split(outs.drop_last(), d, m, j);
        let o = outs.last();
        assert(apriori_weight(outs[outs.len() - 1]) == binomial(m, count_of(o, d)) * apriori_weight(o.skip(count_of(o, d) as int)));
        let ct = count_total(outs.drop_last(), d, j);
        let rt = rest_total(outs.drop_last(), d, j);
        assert(ct == binomial(m, j) * rt);
        if count_of(o, d) == j {
            assert(count_total(outs, d, j) == ct + apriori_weight(o));
            assert(rest_total(outs, d, j) == rt + apriori_weight(o.skip(j as int)));
            assert(apriori_weight(o) == binomial(m, j) * apriori_weight(o.skip(j as int)));
            assert(binomial(m, j) * (rt + apriori_weight(o.skip(j as int))) == binomial(m, j) * rt + binomial(m, j) * apriori_weight(o.skip(j as int))) by (nonlinear_arith);
        } else {
            assert(count_total(outs, d, j) == ct);
            assert(rest_total(outs, d, j) == rt);
        }
    } else {
        assert(binomial(m, j) * 0 == 0) by (nonlinear_arith);
    }
}

proof fn lemma_counts_below_step(outs: Seq<Seq<u8>>, d: u8, big_j: nat)
    requires
        outs.len() > 0,
    ensures
        counts_below(outs, d, big_j) == counts_below(outs.drop_last(), d, big_j)
            + if count_of(outs.last(), d) < big_j { apriori_weight(outs.last()) } else { 0nat },
    decreases big_j,
{
    if big_j > 0 {
        lemma_counts_below_step(outs, d, (big_j - 1) as nat);
    }
}

proof fn lemma_counts_below_total(outs: Seq<Seq<u8>>, d: u8, big_j: nat)
    requires
        forall|k: int| 0 <= k < outs.len() ==> count_of(#[trigger] outs[k], d) < big_j,
    ensures
        counts_below(outs, d, big_j) == apriori_total(outs),
    decreases outs.len(),
{
    if outs.len() == 0 {
        lemma_counts_below_empty(outs, d, big_j);
    } else {
        assert(count_of(outs[outs.len() - 1], d) < big_j);
        lemma_counts_below_total(outs.drop_last(), d, big_j);
        lemma_counts_below_step(outs, d, big_j);
    }
}

proof fn lemma_counts_below_empty(outs: Seq<Seq<u8>>, d: u8, big_j: nat)
    requires
        outs.len() == 0,
    ensures
        counts_below(outs, d, big_j) == 0,
    decreases big_j,
{
    if big_j > 0 {
        lemma_counts_below_empty(outs, d, (big_j - 1) as nat);
    }
}

proof fn lemma_counts_below_binomial(outs: Seq<Seq<u8>>, d: u8, m: nat, x: nat, big_j: nat)
    requires
        big_j <= m + 1,
        forall|j: nat| j <= m ==> #[trigger] count_total(outs, d, j) == binomial(m, j) * power(x, (m - j) as nat),
    ensures
        counts_below(outs, d, big_j) == binomial_sum(m, x, big_j),
    decreases big_j,
{
    if big_j > 0 {
        lemma_counts_below_binomial(outs, d, m, x, (big_j - 1) as nat);
        assert(count_total(outs, d, (big_j - 1) as nat) == binomial(m, (big_j - 1) as nat) * power(x, (m - (big_j - 1)) as nat));
    }
}

proof fn lemma_rest_closed(m: nat, s: nat, d: nat, j: nat)
    requires
        1 <= m,
        1 <= d <= s,
        s <= 255,
        j <= m,
    ensures
        rest_total(outcomes_from(m, s, d), d as u8, j) == if j == m {
            1nat
        } else {
            apriori_total(outcomes_from((m - j) as nat, s, d + 1))
        },
    decreases m,
{
    let dd = d as u8;
    let outs = outcomes_from(m, s, d);
    let rest = outcomes_from(m, s, d + 1);
    let first: Seq<Seq<u8>> = if m == 1 {
        seq![seq![dd]]
    } else {
        outcomes_from((m - 1) as nat, s, d).map_values(|o: Seq<u8>| seq![dd] + o)
    };
    assert(outs == first + rest);
    lemma_totals_concat(first, rest, dd, j);
    lemma_outcomes_from_props(m, s, d + 1);
    assert forall|k: int| 0 <= k < rest.len() implies count_of(#[trigger] rest[k], dd) == 0 by {
        let o = rest[k];
        assert forall|i: int| 0 <= i < o.len() implies o[i] != dd by {
            assert(d + 1 <= o[i]);
        }
        lemma_count_absent(o, dd);
    }
    if j == 0 {
        lemma_rest_no_face(rest, dd, 0);
    } else {
        lemma_rest_no_face(rest, dd, (j - 1) as nat);
    }
    if m == 1 {
        lemma_count_prepend(Seq::<u8>::empty(), dd, dd);
        assert(seq![dd] + Seq::<u8>::empty() =~= seq![dd]);
        assert(count_of(Seq::<u8>::empty(), dd) == 0);
        assert(first.drop_last() =~= Seq::<Seq<u8>>::empty());
        assert(seq![dd].skip(1) =~= Seq::<u8>::empty());
        assert(first.last() == seq![dd]);
        assert(count_of(seq![dd], dd) == 1);
        assert(apriori_weight(Seq::<u8>::empty()) == 1);
        assert(rest_total(Seq::<Seq<u8>>::empty(), dd, j) == 0);
        assert(rest_total(first, dd, j) == rest_total(first.drop_last(), dd, j) + if count_of(first.last(), dd) == j {
            apriori_weight(first.last().skip(j as int))
        } else {
            0nat
        });
        assert(rest_total(first, dd, j) == if j == 1 { 1nat } else { 0nat });
    } else {
        let shorter = outcomes_from((m - 1) as nat, s, d);
        if j == 0 {
            lemma_rest_prepend(shorter, dd, 0);
        } else {
            lemma_rest_prepend(shorter, dd, (j - 1) as nat);
            lemma_rest_closed((m - 1) as nat, s, d, (j - 1) as nat);
            assert((m - 1 - (j - 1)) as nat == (m - j) as nat);
        }
    }
}

proof fn lemma_apriori_power(m: nat, s: nat, d: nat)
    requires
        1 <= m,
        1 <= d <= s + 1,
        s <= 255,
    ensures
        apriori_total(outcomes_from(m, s, d)) == power((s + 1 - d) as nat, m),
    decreases s + 1 - d,
{
    let outs = outcomes_from(m, s, d);
    if d == s + 1 {
        assert(outs =~= Seq::<Seq<u8>>::empty());
        assert(power(0, m) == 0 * power(0, (m - 1) as nat));
    } else {
        let dd = d as u8;
        let x = (s - d) as nat;
        lemma_weight_split(m, s, d);
        assert forall|j: nat| j <= m implies #[trigger] count_total(outs, dd, j) == binomial(m, j) * power(x, (m - j) as nat) by {
            lemma_count_total_split(outs, dd, m, j);
            lemma_rest_closed(m, s, d, j);
            if j < m {
                lemma_apriori_power((m - j) as nat, s, d + 1);
                assert((s + 1 - (d + 1)) as nat == x);
            } else {
                assert(power(x, 0) == 1);
            }
        }
        lemma_counts_below_binomial(outs, dd, m, x, m + 1);
        lemma_binomial_theorem(m, x);
        assert forall|k: int| 0 <= k < outs.len() implies count_of(#[trigger] outs[k], dd) < m + 1 by {
        }
        lemma_counts_below_total(outs, dd, m + 1);
    }
}

proof fn lemma_power_pow(x: nat, e: nat)
    ensures
        power(x, e) == vstd::arithmetic::power::pow(x as int, e),
    decreases e,
{
    reveal(vstd::arithmetic::power::pow);
    if e > 0 {
        lemma_power_pow(x, (e - 1) as nat);
    }
}

/// The a-priori probabilities of all outcomes of `num_dice` dice with
/// `num_sides` faces sum to 1: their weights sum to `num_sides ^ num_dice`.
pub proof fn lemma_apriori_total(num_dice: nat, num_sides: nat)
    requires
        1 <= num_dice,
        num_sides <= 255,
    ensures
        apriori_total(all_outcomes(num_dice, num_sides)) == vstd::arithmetic::power::pow(num_sides as int, num_dice),
{
    lemma_apriori_power(num_dice, num_sides, 1);
    lemma_power_pow(num_sides, num_dice);
}

} // verus!
