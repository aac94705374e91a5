//! Which binomial coefficients fit in a `u64`.
//!
//! Row 67 is the last row of Pascal's triangle whose entries all fit; its
//! middle entry is computed here, and every smaller row is bounded by it.

use vstd::prelude::*;
use crate::pascal::{
    binomial, lemma_binomial_left_half_monotonic, lemma_binomial_monotonic,
    lemma_binomial_neighbours, lemma_binomial_symmetric,
};

verus! {

/// One step to the right in a row: the entry to the left of C(n, k) fixes
/// C(n, k) through the ratio of neighbours, `k * C(n, k) = (n - k + 1) * left`.
pub proof fn lemma_binomial_from_left(n: nat, k: nat, left: nat, value: nat)
    requires
        k >= 1,
        binomial(n, (k - 1) as nat) == left,
        k * value == (n - k + 1) * left,
    ensures
        binomial(n, k) == value,
{
    lemma_binomial_neighbours(n, k);
    let found: nat = binomial(n, k);
    assert(found == value) by (nonlinear_arith)
        requires
            k >= 1,
            k * found == (n - k + 1) * left,
            k * value == (n - k + 1) * left,
    ;
}

/// The middle of row 67, the largest entry of the last row that fits in a
/// `u64` as a whole, reached from the left edge step by step.
pub proof fn lemma_binomial_67_33()
    ensures
        binomial(67, 33) == 14226520737620288370,
{
    assert(binomial(67, 0) == 1);
    lemma_binomial_from_left(67, 1, 1, 67);
    lemma_binomial_from_left(67, 2, 67, 2211);
    lemma_binomial_from_left(67, 3, 2211, 47905);
    lemma_binomial_from_left(67, 4, 47905, 766480);
    lemma_binomial_from_left(67, 5, 766480, 9657648);
    lemma_binomial_from_left(67, 6, 9657648, 99795696);
    lemma_binomial_from_left(67, 7, 99795696, 869648208);
    lemma_binomial_from_left(67, 8, 869648208, 6522361560);
    lemma_binomial_from_left(67, 9, 6522361560, 42757703560);
    lemma_binomial_from_left(67, 10, 42757703560, 247994680648);
    lemma_binomial_from_left(67, 11, 247994680648, 1285063345176);
    lemma_binomial_from_left(67, 12, 1285063345176, 5996962277488);
    lemma_binomial_from_left(67, 13, 5996962277488, 25371763481680);
    lemma_binomial_from_left(67, 14, 25371763481680, 97862516286480);
    lemma_binomial_from_left(67, 15, 97862516286480, 345780890878896);
    lemma_binomial_from_left(67, 16, 345780890878896, 1123787895356412);
    lemma_binomial_from_left(67, 17, 1123787895356412, 3371363686069236);
    lemma_binomial_from_left(67, 18, 3371363686069236, 9364899127970100);
    lemma_binomial_from_left(67, 19, 9364899127970100, 24151581961607100);
    lemma_binomial_from_left(67, 20, 24151581961607100, 57963796707857040);
    lemma_binomial_from_left(67, 21, 57963796707857040, 129728497393775280);
    lemma_binomial_from_left(67, 22, 129728497393775280, 271250494550621040);
    lemma_binomial_from_left(67, 23, 271250494550621040, 530707489338171600);
    lemma_binomial_from_left(67, 24, 530707489338171600, 972963730453314600);
    lemma_binomial_from_left(67, 25, 972963730453314600, 1673497616379701112);
    lemma_binomial_from_left(67, 26, 1673497616379701112, 2703342303382594104);
    lemma_binomial_from_left(67, 27, 2703342303382594104, 4105075349580976232);
    lemma_binomial_from_left(67, 28, 4105075349580976232, 5864393356544251760);
    lemma_binomial_from_left(67, 29, 5864393356544251760, 7886597962249166160);
    lemma_binomial_from_left(67, 30, 7886597962249166160, 9989690752182277136);
    lemma_binomial_from_left(67, 31, 9989690752182277136, 11923179284862717872);
    lemma_binomial_from_left(67, 32, 11923179284862717872, 13413576695470557606);
    lemma_binomial_from_left(67, 33, 13413576695470557606, 14226520737620288370);
}

/// Row 68 is the first that does not fit in a `u64` as a whole: its middle
/// entry, twice the middle entry of row 67, is too large.
pub proof fn lemma_binomial_68_34()
    ensures
        binomial(68, 34) == 28453041475240576740,
        binomial(68, 34) > u64::MAX,
{
    lemma_binomial_67_33();
    lemma_binomial_symmetric(67, 33);
}

/// Every entry of the rows 0 to 67 fits in a `u64`.
pub proof fn lemma_binomial_fits_u64(n: nat, k: nat)
    requires
        n <= 67,
    ensures
        binomial(n, k) <= u64::MAX,
{
    lemma_binomial_monotonic(n, 67, k);
    lemma_binomial_67_33();
    if k <= 33 {
        lemma_binomial_left_half_monotonic(67, k, 33);
    } else if k <= 67 {
        lemma_binomial_symmetric(67, k);
        lemma_binomial_left_half_monotonic(67, (67 - k) as nat, 33);
    }
}

/// Whether the first `k + 1` entries of row `n`, C(n, 0) to C(n, k), all fit
/// in a `u64`.
pub open spec fn row_prefix_fits(n: nat, k: nat) -> bool {
    forall|i: nat| i <= k ==> #[trigger] binomial(n, i) <= u64::MAX
}

/// In the left half of a row, `2 * k <= n`, the entry C(n, k) is the largest
/// of the first `k + 1`: where it fits in a `u64`, they all do.
pub proof fn lemma_row_prefix_fits_left_half(n: nat, k: nat)
    requires
        2 * k <= n,
        binomial(n, k) <= u64::MAX,
    ensures
        row_prefix_fits(n, k),
{
    assert forall|i: nat| i <= k implies #[trigger] binomial(n, i) <= u64::MAX by {
        lemma_binomial_left_half_monotonic(n, i, k);
    }
}

/// An entry in the left half of its row that fits in a `u64` stands in a
/// column below 2^32 - 1: from column 2 on it is at least
/// C(n, 2) = n * (n - 1) / 2, which outgrows a `u64` before `n / 2` gets
/// there.
pub proof fn lemma_binomial_fitting_column(n: nat, k: nat)
    requires
        2 * k <= n,
        binomial(n, k) <= u64::MAX,
    ensures
        k < 0xFFFF_FFFF,
{
    if k >= 2 {
        lemma_binomial_left_half_monotonic(n, 2, k);
        lemma_binomial_from_left(n, 1, 1, n);
        lemma_binomial_neighbours(n, 2);
        let pairs: nat = binomial(n, 2);
        assert(k < 0xFFFF_FFFF) by (nonlinear_arith)
            requires
                2 * pairs == (n - 2 + 1) * n,
                pairs <= 0xFFFF_FFFF_FFFF_FFFF,
                2 * k <= n,
        ;
    }
}

} // verus!
