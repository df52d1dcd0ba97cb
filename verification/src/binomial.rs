//! Binomial coefficients, by Pascal's rule.

use vstd::prelude::*;

verus! {

/// The number of ways to choose `k` items out of `n`.
pub open spec fn binomial(n: nat, k: nat) -> nat
    decreases n,
{
    if k == 0 {
        1
    } else if n == 0 {
        0
    } else {
        binomial((n - 1) as nat, (k - 1) as nat) + binomial((n - 1) as nat, k)
    }
}

/// Nothing can be chosen from fewer items than are asked for.
pub proof fn lemma_binomial_zero(n: nat, k: nat)
    requires
        n < k,
    ensures
        binomial(n, k) == 0,
    decreases n,
{
    if n > 0 {
        lemma_binomial_zero((n - 1) as nat, (k - 1) as nat);
        lemma_binomial_zero((n - 1) as nat, k);
    }
}

/// There is one way to choose everything.
pub proof fn lemma_binomial_all(n: nat)
    ensures
        binomial(n, n) == 1,
    decreases n,
{
    if n > 0 {
        lemma_binomial_all((n - 1) as nat);
        lemma_binomial_zero((n - 1) as nat, n);
    }
}

/// The product of the numbers from one to `n`.
pub open spec fn factorial(n: nat) -> nat
    decreases n,
{
    if n == 0 {
        1
    } else {
        n * factorial((n - 1) as nat)
    }
}

/// Pascal's rule counts what the quotient of factorials counts:
/// `binomial(n, k)` is `n! / (k! (n - k)!)`.
pub proof fn lemma_binomial_factorial(n: nat, k: nat)
    requires
        k <= n,
    ensures
        binomial(n, k) * factorial(k) * factorial((n - k) as nat) == factorial(n),
    decreases n,
{
    if k == 0 {
        assert(binomial(n, k) * factorial(k) * factorial(n) == factorial(n)) by (nonlinear_arith)
            requires
                binomial(n, k) == 1,
                factorial(k) == 1,
        ;
    } else if k == n {
        lemma_binomial_all(n);
        assert(binomial(n, k) * factorial(k) * factorial(0) == factorial(n)) by (nonlinear_arith)
            requires
                binomial(n, k) == 1,
                factorial(0) == 1,
                k == n,
        ;
    } else {
        let m = (n - 1) as nat;
        let j = (k - 1) as nat;
        let with = binomial(m, j);
        let without = binomial(m, k);
        let rest = (m - k) as nat;
        lemma_binomial_factorial(m, j);
        lemma_binomial_factorial(m, k);
        assert((with + without) * (k * factorial(j)) * ((n - k) * factorial(rest)) == n
            * factorial(m)) by (nonlinear_arith)
            requires
                with * factorial(j) * ((n - k) * factorial(rest)) == factorial(m),
                without * (k * factorial(j)) * factorial(rest) == factorial(m),
                0 < k < n,
        ;
    }
}

} // verus!
