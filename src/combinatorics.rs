use vstd::prelude::*;
use crate::outcome::factorial;

verus! {

/// Binomial coefficients by Pascal's rule.
pub open spec fn binomial(n: nat, k: nat) -> nat
    decreases n,
{
    if k == 0 || k == n {
        1
    } else if n == 0 || k > n {
        0
    } else {
        binomial((n - 1) as nat, (k - 1) as nat) + binomial((n - 1) as nat, k)
    }
}

/// A binomial coefficient never exceeds the number of subsets.
pub proof fn lemma_binomial_le_pow2(n: nat, k: nat)
    ensures
        binomial(n, k) <= vstd::arithmetic::power2::pow2(n),
    decreases n,
{
    vstd::arithmetic::power2::lemma_pow2_pos(n);
    if k == 0 || k == n {
    } else if n == 0 || k > n {
    } else {
        lemma_binomial_le_pow2((n - 1) as nat, (k - 1) as nat);
        lemma_binomial_le_pow2((n - 1) as nat, k);
        vstd::arithmetic::power2::lemma_pow2_unfold(n);
    }
}

/// The closed form of a binomial coefficient: `n! / (k! (n - k)!)`.
pub proof fn lemma_binomial_factorial(n: nat, k: nat)
    requires
        k <= n,
    ensures
        binomial(n, k) * factorial(k) * factorial((n - k) as nat) == factorial(n),
    decreases n,
{
    if k == 0 {
        assert(factorial(0) == 1);
        assert(binomial(n, 0) == 1);
        assert(1 * 1 * factorial(n) == factorial(n));
    } else if k == n {
        assert(factorial(0) == 1);
        assert(binomial(n, n) == 1);
        assert(1 * factorial(n) * 1 == factorial(n));
    } else {
        let m = (n - 1) as nat;
        lemma_binomial_factorial(m, (k - 1) as nat);
        lemma_binomial_factorial(m, k);
        let a = binomial(m, (k - 1) as nat);
        let b = binomial(m, k);
        let fk1 = factorial((k - 1) as nat);
        let fk = factorial(k);
        let fnk = factorial((n - k) as nat);
        let fnk1 = factorial((m - k) as nat);
        let fm = factorial(m);
        assert(binomial(n, k) == a + b);
        assert(fk == k * fk1);
        assert(fnk == (n - k) * fnk1);
        assert(factorial(n) == n * fm);
        assert(a * fk1 * fnk == fm);
        assert(b * fk * fnk1 == fm);
        assert(a * fk * fnk == k * fm) by (nonlinear_arith)
            requires a * fk1 * fnk == fm, fk == k * fk1;
        assert(b * fk * fnk == (n - k) * fm) by (nonlinear_arith)
            requires b * fk * fnk1 == fm, fnk == (n - k) * fnk1;
        assert((a + b) * fk * fnk == n * fm) by (nonlinear_arith)
            requires a * fk * fnk == k * fm, b * fk * fnk == (n - k) * fm, k <= n;
    }
}

} // verus!
