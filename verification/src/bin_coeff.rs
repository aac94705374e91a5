//! Three ways to compute a binomial coefficient in `u64`.

use vstd::prelude::*;
use crate::bounds::{
    lemma_binomial_fits_u64, lemma_binomial_fitting_column, lemma_row_prefix_fits_left_half,
    row_prefix_fits,
};
use crate::pascal::{
    binomial, lemma_binomial_monotonic, lemma_binomial_step, lemma_binomial_symmetric,
};

verus! {

/// Computes C(n, k) by applying Pascal's identity recursively, with no cache.
///
/// The number of calls grows with the value returned.
pub fn naive_bin_coeff(num_objects: u64, num_selections: u64) -> (value: u64)
    requires
        num_selections <= num_objects,
        binomial(num_objects as nat, num_selections as nat) <= u64::MAX,
    ensures
        value == binomial(num_objects as nat, num_selections as nat),
        num_selections == 0 || num_selections == num_objects ==> value == 1,
    decreases num_objects,
{
    if num_selections == 0 || num_selections == num_objects {
        1
    } else {
        naive_bin_coeff(num_objects - 1, num_selections)
            + naive_bin_coeff(num_objects - 1, num_selections - 1)
    }
}

/// Computes C(n, k) bottom-up, one row of Pascal's triangle at a time, in a
/// single buffer that is updated in place.
///
/// On the edges (`k == 0` or `k == n`) the answer is 1 and no buffer is made.
/// Otherwise the rows are built on the shorter side of the triangle, up to
/// column `min(k, n - k)`: C(n, k) and C(n, n - k) are the same number, and in
/// the left half of a row no entry is larger than the last one built, so the
/// buffer never holds more than the result, and its length always fits in a
/// `usize`.
pub fn bottom_up_bin_coeff(num_objects: u64, num_selections: u64) -> (value: u64)
    requires
        num_selections <= num_objects,
        binomial(num_objects as nat, num_selections as nat) <= u64::MAX,
    ensures
        value == binomial(num_objects as nat, num_selections as nat),
        num_selections == 0 || num_selections == num_objects ==> value == 1,
{
    if num_selections == 0 || num_selections == num_objects {
        return 1;
    }
    let shorter: u64 = if num_selections <= num_objects - num_selections {
        num_selections
    } else {
        num_objects - num_selections
    };
    proof {
        lemma_binomial_symmetric(num_objects as nat, num_selections as nat);
        lemma_row_prefix_fits_left_half(num_objects as nat, shorter as nat);
        lemma_binomial_fitting_column(num_objects as nat, shorter as nat);
    }
    rolling_row_entry(num_objects, shorter)
}

/// Builds the first `k + 1` entries of the rows 0 to `n` in one buffer of
/// `k + 1` cells and returns the last entry of row `n`, C(n, k).
///
/// Row by row, the cells are updated from the right to the left, so that
/// each sum reads its left neighbour as it stood in the row above. The
/// largest values that the buffer holds are those of row `n` itself.
fn rolling_row_entry(num_objects: u64, num_selections: u64) -> (value: u64)
    requires
        0 < num_selections < num_objects,
        num_selections < usize::MAX,
        row_prefix_fits(num_objects as nat, num_selections as nat),
    ensures
        value == binomial(num_objects as nat, num_selections as nat),
{
    let width: usize = num_selections as usize;
    let mut sub_solutions: Vec<u64> = vec![0; width + 1];
    sub_solutions[0] = 1;

    let mut row: u64 = 0;
    while row < num_objects
        invariant
            row <= num_objects,
            width == num_selections,
            sub_solutions.len() == width + 1,
            row_prefix_fits(num_objects as nat, num_selections as nat),
            forall|i: int|
                0 <= i <= width ==> sub_solutions[i] == binomial(row as nat, i as nat),
        decreases num_objects - row,
    {
        row += 1;
        let bound: usize = if row < num_selections {
            row as usize
        } else {
            width
        };
        let mut inner: usize = bound;
        while inner >= 1
            invariant
                1 <= row <= num_objects,
                inner <= bound <= width,
                bound == row || bound == width,
                bound <= row,
                width == num_selections,
                sub_solutions.len() == width + 1,
                row_prefix_fits(num_objects as nat, num_selections as nat),
                forall|i: int|
                    0 <= i <= inner ==> sub_solutions[i] == binomial((row - 1) as nat, i as nat),
                forall|i: int|
                    inner < i <= width ==> sub_solutions[i] == binomial(row as nat, i as nat),
            decreases inner,
        {
            let x: u64 = sub_solutions[inner];
            let y: u64 = sub_solutions[inner - 1];
            proof {
                lemma_binomial_step(row as nat, inner as nat);
                lemma_binomial_monotonic(row as nat, num_objects as nat, inner as nat);
            }
            sub_solutions[inner] = x + y;
            inner -= 1;
        }
    }
    sub_solutions[width]
}

/// Every populated cell `(i, j)` of the memo table holds C(i, j).
spec fn memo_sound(table: Seq<Vec<Option<u64>>>) -> bool {
    forall|i: int, j: int|
        0 <= i < table.len() && 0 <= j < table[i].len() ==> (#[trigger] table[i]@[j] matches Some(
            v,
        ) ==> v == binomial(i as nat, j as nat))
}

/// The memo table has a cell for every `(i, j)` with `i <= n` and `j <= k`.
spec fn memo_covers(table: Seq<Vec<Option<u64>>>, n: int, k: int) -> bool {
    &&& 0 <= k <= n < table.len()
    &&& forall|i: int| 0 <= i <= n ==> k < (#[trigger] table[i]).len()
}

/// `after` has as many rows as `before`, each of the same length.
spec fn memo_same_shape(before: Seq<Vec<Option<u64>>>, after: Seq<Vec<Option<u64>>>) -> bool {
    &&& after.len() == before.len()
    &&& forall|i: int| 0 <= i < before.len() ==> (#[trigger] after[i]).len() == before[i].len()
}

/// Whether the recursion for C(n, k) on `table` fills the cell `(i, j)`.
///
/// It fills `(n, k)` itself where that cell is empty, and then, where
/// `(n, k)` lies inside the triangle, whatever the recursion for the two
/// cells above fills. A populated cell stops it, and so does an edge.
spec fn memo_fills(table: Seq<Vec<Option<u64>>>, n: int, k: int, i: int, j: int) -> bool
    decreases n,
{
    &&& 0 <= k <= n
    &&& table[n]@[k] is None
    &&& ((i == n && j == k) || (0 < k < n && (memo_fills(table, n - 1, k, i, j) || memo_fills(
        table,
        n - 1,
        k - 1,
        i,
        j,
    ))))
}

/// `after` is `before` with the cells filled that the recursion for C(n, k)
/// fills, each with its coefficient: a cell populated in `before` is the same
/// in `after`, a cell that the recursion fills holds C(i, j), and every other
/// cell is still empty.
spec fn memo_filled_from(
    before: Seq<Vec<Option<u64>>>,
    after: Seq<Vec<Option<u64>>>,
    n: int,
    k: int,
) -> bool {
    forall|i: int, j: int|
        0 <= i < before.len() && 0 <= j < before[i].len() ==> (match #[trigger] after[i]@[j] {
            Some(v) => if before[i]@[j] is Some {
                before[i]@[j] == Some(v)
            } else {
                memo_fills(before, n, k, i, j) && v == binomial(i as nat, j as nat)
            },
            None => before[i]@[j] is None && !memo_fills(before, n, k, i, j),
        })
}

/// Only cells of the table can be filled: those in the rows up to `n` and the
/// columns up to `k`.
proof fn lemma_memo_fills_within(table: Seq<Vec<Option<u64>>>, n: int, k: int, i: int, j: int)
    requires
        memo_fills(table, n, k, i, j),
    ensures
        0 <= j <= i <= n,
        j <= k,
    decreases n,
{
    if !(i == n && j == k) {
        if memo_fills(table, n - 1, k, i, j) {
            lemma_memo_fills_within(table, n - 1, k, i, j);
        } else {
            lemma_memo_fills_within(table, n - 1, k - 1, i, j);
        }
    }
}

/// Filling goes on from a filled cell: what the recursion for `(m, l)` fills
/// is filled by the recursion for `(n, k)` too, where that one fills `(m, l)`.
proof fn lemma_memo_fills_transitive(
    table: Seq<Vec<Option<u64>>>,
    n: int,
    k: int,
    m: int,
    l: int,
    i: int,
    j: int,
)
    requires
        memo_fills(table, n, k, m, l),
        memo_fills(table, m, l, i, j),
    ensures
        memo_fills(table, n, k, i, j),
    decreases n,
{
    if !(m == n && l == k) {
        if memo_fills(table, n - 1, k, m, l) {
            lemma_memo_fills_transitive(table, n - 1, k, m, l, i, j);
        } else {
            lemma_memo_fills_transitive(table, n - 1, k - 1, m, l, i, j);
        }
    }
}

/// A fuller table is filled less: what the recursion fills on `later` it
/// fills on `earlier` too, where every cell populated in `earlier` is
/// populated in `later`.
proof fn lemma_memo_fills_earlier(
    earlier: Seq<Vec<Option<u64>>>,
    later: Seq<Vec<Option<u64>>>,
    n: int,
    k: int,
    i: int,
    j: int,
)
    requires
        memo_covers(earlier, n, k),
        memo_same_shape(earlier, later),
        forall|a: int, b: int|
            0 <= a < earlier.len() && 0 <= b < earlier[a].len() && (#[trigger] earlier[a]@[b])
                is Some ==> later[a]@[b] is Some,
        memo_fills(later, n, k, i, j),
    ensures
        memo_fills(earlier, n, k, i, j),
    decreases n,
{
    assert(earlier[n]@[k] is None);
    if !(i == n && j == k) {
        if memo_fills(later, n - 1, k, i, j) {
            lemma_memo_fills_earlier(earlier, later, n - 1, k, i, j);
        } else {
            lemma_memo_fills_earlier(earlier, later, n - 1, k - 1, i, j);
        }
    }
}

/// After one recursion has run, a second one still reaches what it would
/// have filled on the table before: a cell that the recursion for `(m, l)`
/// fills on `earlier` is populated in `later` or filled by it on `later`,
/// where `later` is `earlier` after the recursion for `(n, k)`.
proof fn lemma_memo_fills_later(
    earlier: Seq<Vec<Option<u64>>>,
    later: Seq<Vec<Option<u64>>>,
    n: int,
    k: int,
    m: int,
    l: int,
    i: int,
    j: int,
)
    requires
        memo_covers(earlier, m, l),
        memo_same_shape(earlier, later),
        memo_filled_from(earlier, later, n, k),
        memo_fills(earlier, m, l, i, j),
    ensures
        later[i]@[j] is Some || memo_fills(later, m, l, i, j),
    decreases m,
{
    lemma_memo_fills_within(earlier, m, l, i, j);
    if later[m]@[l] is Some {
        assert(memo_fills(earlier, n, k, m, l));
        lemma_memo_fills_transitive(earlier, n, k, m, l, i, j);
        assert(later[i]@[j] is Some);
    } else if !(i == m && j == l) {
        if memo_fills(earlier, m - 1, l, i, j) {
            lemma_memo_fills_later(earlier, later, n, k, m - 1, l, i, j);
        } else {
            lemma_memo_fills_later(earlier, later, n, k, m - 1, l - 1, i, j);
        }
    }
}

/// Computes C(n, k) top-down by Pascal's identity, with a table that caches
/// the value of every cell the recursion visits, so that none is computed
/// twice.
///
/// The table has `(n + 1) * (k + 1)` cells, so `n + 1` has to fit in a `usize`.
pub fn memoized_bin_coeff(num_objects: u64, num_selections: u64) -> (value: u64)
    requires
        num_selections <= num_objects,
        num_objects < usize::MAX,
        binomial(num_objects as nat, num_selections as nat) <= u64::MAX,
    ensures
        value == binomial(num_objects as nat, num_selections as nat),
        num_selections == 0 || num_selections == num_objects ==> value == 1,
{
    let mut lookup_table: Vec<Vec<Option<u64>>> =
        vec![vec![None; num_selections as usize + 1]; num_objects as usize + 1];
    _memoized_bin_coeff(num_objects as usize, num_selections as usize, &mut lookup_table)
}

/// One step of the memoized recursion: returns C(n, k), from the table where
/// the cell is populated, else computed from the row above and stored.
///
/// The table afterwards is fixed cell by cell: what was populated is kept,
/// what the recursion fills holds its coefficient, and nothing else changes.
/// On a populated cell `(n, k)` that is the table as it was; on an empty edge
/// cell (`k == 0` or `k == n`) only that cell is filled.
fn _memoized_bin_coeff(
    num_objects: usize,
    num_selections: usize,
    lookup_table: &mut Vec<Vec<Option<u64>>>,
) -> (value: u64)
    requires
        binomial(num_objects as nat, num_selections as nat) <= u64::MAX,
        memo_covers(old(lookup_table)@, num_objects as int, num_selections as int),
        memo_sound(old(lookup_table)@),
    ensures
        value == binomial(num_objects as nat, num_selections as nat),
        final(lookup_table)@[num_objects as int]@[num_selections as int] == Some(value),
        memo_same_shape(old(lookup_table)@, final(lookup_table)@),
        memo_sound(final(lookup_table)@),
        memo_filled_from(
            old(lookup_table)@,
            final(lookup_table)@,
            num_objects as int,
            num_selections as int,
        ),
    decreases num_objects,
{
    let ghost before = lookup_table@;
    let ghost n = num_objects as int;
    let ghost k = num_selections as int;
    if let Some(x) = lookup_table[num_objects][num_selections] {
        return x;
    }
    if num_selections == 0 {
        lookup_table[num_objects][0] = Some(1);
        return 1;
    }
    if num_selections == num_objects {
        lookup_table[num_objects][num_selections] = Some(1);
        return 1;
    }
    let x: u64 = _memoized_bin_coeff(num_objects - 1, num_selections, lookup_table);
    let ghost first = lookup_table@;
    let y: u64 = _memoized_bin_coeff(num_objects - 1, num_selections - 1, lookup_table);
    let ghost second = lookup_table@;
    lookup_table[num_objects][num_selections] = Some(x + y);
    proof {
        let after = lookup_table@;
        assert forall|i: int, j: int|
            0 <= i < before.len() && 0 <= j < before[i].len() implies (match #[trigger] after[i]@[j] {
            Some(v) => if before[i]@[j] is Some {
                before[i]@[j] == Some(v)
            } else {
                memo_fills(before, n, k, i, j) && v == binomial(i as nat, j as nat)
            },
            None => before[i]@[j] is None && !memo_fills(before, n, k, i, j),
        }) by {
            if !(i == n && j == k) {
                assert(after[i]@[j] == second[i]@[j]);
                if memo_fills(first, n - 1, k - 1, i, j) {
                    lemma_memo_fills_earlier(before, first, n - 1, k - 1, i, j);
                }
                if memo_fills(before, n - 1, k - 1, i, j) {
                    lemma_memo_fills_later(before, first, n - 1, k, n - 1, k - 1, i, j);
                }
            }
        }
    }
    x + y
}

/// Agreement: every pair with `k <= n <= 67` is an input that all three
/// functions accept, and whatever they return on it is the same value,
/// C(n, k).
pub proof fn lemma_algorithms_agree(n: u64, k: u64, naive: u64, bottom_up: u64, memoized: u64)
    requires
        k <= n <= 67,
        call_ensures(naive_bin_coeff, (n, k), naive),
        call_ensures(bottom_up_bin_coeff, (n, k), bottom_up),
        call_ensures(memoized_bin_coeff, (n, k), memoized),
    ensures
        call_requires(naive_bin_coeff, (n, k)),
        call_requires(bottom_up_bin_coeff, (n, k)),
        call_requires(memoized_bin_coeff, (n, k)),
        naive == bottom_up,
        bottom_up == memoized,
        memoized == binomial(n as nat, k as nat),
{
    lemma_binomial_fits_u64(n as nat, k as nat);
}

} // verus!
