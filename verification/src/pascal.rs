//! The binomial coefficient as a mathematical function, and its laws.

use vstd::prelude::*;

verus! {

/// C(n, k): the number of ways to choose `k` items out of `n`.
///
/// Defined by Pascal's identity with the edges C(n, 0) = C(n, n) = 1; there is
/// no way to choose more items than there are, so the value is 0 for `k > n`.
pub open spec fn binomial(n: nat, k: nat) -> nat
    decreases n,
{
    if k > n {
        0
    } else if k == 0 || k == n {
        1
    } else {
        binomial((n - 1) as nat, k) + binomial((n - 1) as nat, (k - 1) as nat)
    }
}

/// Both edges of every row of the triangle are 1.
pub proof fn lemma_binomial_edges(n: nat)
    ensures
        binomial(n, 0) == 1,
        binomial(n, n) == 1,
{
}

/// Pascal's identity: inside the triangle each entry is the sum of the two
/// entries above it.
pub proof fn lemma_binomial_pascal(n: nat, k: nat)
    requires
        n >= 1,
        0 < k < n,
    ensures
        binomial(n, k) == binomial((n - 1) as nat, k) + binomial((n - 1) as nat, (k - 1) as nat),
{
}

/// Pascal's identity also holds on and beyond the right edge: for every
/// `n >= 1` and `k >= 1`, with the entries outside the triangle counted as 0.
pub proof fn lemma_binomial_step(n: nat, k: nat)
    requires
        n >= 1,
        k >= 1,
    ensures
        binomial(n, k) == binomial((n - 1) as nat, k) + binomial((n - 1) as nat, (k - 1) as nat),
{
}

/// Symmetry: choosing `k` items is choosing the `n - k` items to leave out.
pub proof fn lemma_binomial_symmetric(n: nat, k: nat)
    requires
        k <= n,
    ensures
        binomial(n, k) == binomial(n, (n - k) as nat),
    decreases n,
{
    if 0 < k < n {
        lemma_binomial_symmetric((n - 1) as nat, k);
        lemma_binomial_symmetric((n - 1) as nat, (k - 1) as nat);
    }
}

/// Monotonicity: for a fixed `k`, C(n, k) never decreases as `n` grows.
pub proof fn lemma_binomial_monotonic(n1: nat, n2: nat, k: nat)
    requires
        n1 <= n2,
    ensures
        binomial(n1, k) <= binomial(n2, k),
    decreases n2 - n1,
{
    if n1 < n2 {
        lemma_binomial_monotonic(n1, (n2 - 1) as nat, k);
        if k >= 1 {
            lemma_binomial_step(n2, k);
        }
    }
}

/// n!: the number of ways to put `n` items in order.
pub open spec fn factorial(n: nat) -> nat
    decreases n,
{
    if n == 0 {
        1
    } else {
        n * factorial((n - 1) as nat)
    }
}

/// The closed form: C(n, k) * k! * (n - k)! = n! for every `k <= n`.
pub proof fn lemma_binomial_factorial(n: nat, k: nat)
    requires
        k <= n,
    ensures
        binomial(n, k) * factorial(k) * factorial((n - k) as nat) == factorial(n),
    decreases n,
{
    if k == 0 || k == n {
        assert(factorial(0) == 1);
        assert(binomial(n, k) == 1);
        assert(1 * factorial(n) * 1 == factorial(n));
    } else {
        let above: nat = (n - 1) as nat;
        let a: nat = binomial(above, k);
        let b: nat = binomial(above, (k - 1) as nat);
        let fk: nat = factorial(k);
        let fk1: nat = factorial((k - 1) as nat);
        let fm: nat = factorial((n - k) as nat);
        let fm1: nat = factorial((n - k - 1) as nat);
        let f: nat = factorial(above);
        lemma_binomial_factorial(above, k);
        lemma_binomial_factorial(above, (k - 1) as nat);
        assert(a * fk * fm1 == f);
        assert(b * fk1 * fm == f);
        assert(fk == k * fk1);
        assert(fm == (n - k) * fm1);
        assert((a + b) * fk * fm == n * f) by (nonlinear_arith)
            requires
                a * fk * fm1 == f,
                b * fk1 * fm == f,
                fk == k * fk1,
                fm == (n - k) * fm1,
        ;
    }
}

/// In the left half of a row the entries do not decrease: C(n, k - 1) is at
/// most C(n, k) while `2 * k <= n`.
pub proof fn lemma_binomial_rises_to_middle(n: nat, k: nat)
    requires
        k >= 1,
        2 * k <= n,
    ensures
        binomial(n, (k - 1) as nat) <= binomial(n, k),
    decreases n,
{
    let above: nat = (n - 1) as nat;
    lemma_binomial_step(n, k);
    if k == 1 {
        lemma_binomial_edges(above);
    } else {
        lemma_binomial_step(n, (k - 1) as nat);
        lemma_binomial_rises_to_middle(above, (k - 1) as nat);
        if 2 * k <= above {
            lemma_binomial_rises_to_middle(above, k);
        } else {
            lemma_binomial_symmetric(above, k);
        }
    }
}

/// Neighbours in a row: k * C(n, k) = (n - k + 1) * C(n, k - 1) for every
/// `k >= 1`.
pub proof fn lemma_binomial_neighbours(n: nat, k: nat)
    requires
        k >= 1,
    ensures
        k * binomial(n, k) == (n - k + 1) * binomial(n, (k - 1) as nat),
    decreases n,
{
    if n >= 1 {
        let above: nat = (n - 1) as nat;
        let a: int = binomial(above, k) as int;
        let b: int = binomial(above, (k - 1) as nat) as int;
        lemma_binomial_step(n, k);
        lemma_binomial_neighbours(above, k);
        assert(k * a == (n - k) * b);
        if k == 1 {
            assert(b == 1);
            assert(binomial(n, 0) == 1);
            assert(k * (a + b) == (n - k + 1) * 1) by (nonlinear_arith)
                requires
                    k == 1,
                    b == 1,
                    k * a == (n - k) * b,
            ;
        } else {
            let c: int = binomial(above, (k - 2) as nat) as int;
            lemma_binomial_step(n, (k - 1) as nat);
            lemma_binomial_neighbours(above, (k - 1) as nat);
            assert((k - 1) * b == (n - k + 1) * c);
            assert(k * (a + b) == (n - k + 1) * (b + c)) by (nonlinear_arith)
                requires
                    k * a == (n - k) * b,
                    (k - 1) * b == (n - k + 1) * c,
            ;
        }
    } else {
        if k == 1 {
            assert(binomial(0, 1) == 0);
        } else {
            assert(binomial(0, (k - 1) as nat) == 0);
        }
        assert(k * 0 == 0 && (n - k + 1) * 0 == 0);
    }
}

/// In the left half of a row, `2 * k <= n`, no entry to the left of C(n, k)
/// is larger than it.
pub proof fn lemma_binomial_left_half_monotonic(n: nat, i: nat, k: nat)
    requires
        i <= k,
        2 * k <= n,
    ensures
        binomial(n, i) <= binomial(n, k),
    decreases k,
{
    if i < k {
        lemma_binomial_rises_to_middle(n, k);
        lemma_binomial_left_half_monotonic(n, i, (k - 1) as nat);
    }
}

} // verus!
