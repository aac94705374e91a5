use dynamic_binomial::bin_coeff::{bottom_up_bin_coeff, memoized_bin_coeff, naive_bin_coeff};

/// n! in `u128`, to compare values with the closed form.
fn factorial(n: u64) -> u128 {
    let mut product: u128 = 1;
    for i in 1..=n {
        product *= i as u128;
    }
    product
}

#[test]
fn bottom_up_bin_coeff_test() {
    assert_eq!(bottom_up_bin_coeff(20, 10), 184756);
    assert_eq!(bottom_up_bin_coeff(33, 13), 573166440);
}

#[test]
fn memoized_bin_coeff_test() {
    assert_eq!(memoized_bin_coeff(20, 10), 184756);
    assert_eq!(memoized_bin_coeff(33, 13), 573166440);
}

#[test]
fn naive_bin_coeff_test() {
    assert_eq!(naive_bin_coeff(20, 10), 184756);
    assert_eq!(naive_bin_coeff(25, 5), 53130);
}

#[test]
fn small_triangle_by_hand() {
    let rows: [&[u64]; 7] = [
        &[1],
        &[1, 1],
        &[1, 2, 1],
        &[1, 3, 3, 1],
        &[1, 4, 6, 4, 1],
        &[1, 5, 10, 10, 5, 1],
        &[1, 6, 15, 20, 15, 6, 1],
    ];
    for (n, row) in rows.iter().enumerate() {
        for (k, expected) in row.iter().enumerate() {
            assert_eq!(naive_bin_coeff(n as u64, k as u64), *expected);
            assert_eq!(bottom_up_bin_coeff(n as u64, k as u64), *expected);
            assert_eq!(memoized_bin_coeff(n as u64, k as u64), *expected);
        }
    }
}

#[test]
fn edges_are_one() {
    for n in 0..=70u64 {
        assert_eq!(naive_bin_coeff(n, 0), 1);
        assert_eq!(naive_bin_coeff(n, n), 1);
        assert_eq!(bottom_up_bin_coeff(n, 0), 1);
        assert_eq!(bottom_up_bin_coeff(n, n), 1);
        assert_eq!(memoized_bin_coeff(n, 0), 1);
        assert_eq!(memoized_bin_coeff(n, n), 1);
    }
}

#[test]
fn zero_choose_zero() {
    assert_eq!(naive_bin_coeff(0, 0), 1);
    assert_eq!(bottom_up_bin_coeff(0, 0), 1);
    assert_eq!(memoized_bin_coeff(0, 0), 1);
}

#[test]
fn edges_take_the_shortcut() {
    // With the general branch these would need a buffer of 2^64 entries, or
    // as many nested calls.
    assert_eq!(bottom_up_bin_coeff(u64::MAX, 0), 1);
    assert_eq!(bottom_up_bin_coeff(u64::MAX, u64::MAX), 1);
    assert_eq!(naive_bin_coeff(u64::MAX, 0), 1);
    assert_eq!(naive_bin_coeff(u64::MAX, u64::MAX), 1);
}

#[test]
fn memoized_edges_of_a_large_table() {
    assert_eq!(memoized_bin_coeff(1000, 0), 1);
    assert_eq!(memoized_bin_coeff(1000, 1000), 1);
}

#[test]
fn symmetry() {
    for n in 0..=60u64 {
        for k in 0..=n {
            assert_eq!(memoized_bin_coeff(n, k), memoized_bin_coeff(n, n - k));
            assert_eq!(bottom_up_bin_coeff(n, k), bottom_up_bin_coeff(n, n - k));
        }
    }
    for n in 0..=16u64 {
        for k in 0..=n {
            assert_eq!(naive_bin_coeff(n, k), naive_bin_coeff(n, n - k));
        }
    }
}

#[test]
fn pascal_identity() {
    for n in 1..=60u64 {
        for k in 1..n {
            assert_eq!(
                bottom_up_bin_coeff(n, k),
                bottom_up_bin_coeff(n - 1, k) + bottom_up_bin_coeff(n - 1, k - 1)
            );
            assert_eq!(
                memoized_bin_coeff(n, k),
                memoized_bin_coeff(n - 1, k) + memoized_bin_coeff(n - 1, k - 1)
            );
        }
    }
    for n in 1..=16u64 {
        for k in 1..n {
            assert_eq!(
                naive_bin_coeff(n, k),
                naive_bin_coeff(n - 1, k) + naive_bin_coeff(n - 1, k - 1)
            );
        }
    }
}

#[test]
fn all_three_agree_up_to_twenty() {
    for n in 0..=20u64 {
        for k in 0..=n {
            let naive = naive_bin_coeff(n, k);
            assert_eq!(bottom_up_bin_coeff(n, k), naive);
            assert_eq!(memoized_bin_coeff(n, k), naive);
        }
    }
}

#[test]
fn bottom_up_and_memoized_agree_on_every_full_row() {
    for n in 0..=67u64 {
        for k in 0..=n {
            assert_eq!(bottom_up_bin_coeff(n, k), memoized_bin_coeff(n, k));
        }
    }
}

#[test]
fn non_decreasing_in_n() {
    for k in 0..=30u64 {
        let mut previous: u64 = 1;
        for n in k..=60u64 {
            let value = bottom_up_bin_coeff(n, k);
            assert!(previous <= value);
            assert_eq!(memoized_bin_coeff(n, k), value);
            previous = value;
        }
    }
}

#[test]
fn rises_to_the_middle_of_the_row() {
    for n in 0..=67u64 {
        for k in 1..=n / 2 {
            assert!(memoized_bin_coeff(n, k - 1) <= memoized_bin_coeff(n, k));
        }
    }
}

#[test]
fn closed_form_with_factorials() {
    for n in 0..=30u64 {
        for k in 0..=n {
            let expected = factorial(n) / (factorial(k) * factorial(n - k));
            assert_eq!(bottom_up_bin_coeff(n, k) as u128, expected);
            assert_eq!(memoized_bin_coeff(n, k) as u128, expected);
        }
    }
    assert_eq!(naive_bin_coeff(10, 3) as u128 * factorial(3) * factorial(7), factorial(10));
}

#[test]
fn choose_one_and_two() {
    for n in 2..=200u64 {
        assert_eq!(bottom_up_bin_coeff(n, 1), n);
        assert_eq!(memoized_bin_coeff(n, 1), n);
        assert_eq!(bottom_up_bin_coeff(n, 2), n * (n - 1) / 2);
        assert_eq!(memoized_bin_coeff(n, 2), n * (n - 1) / 2);
    }
    assert_eq!(naive_bin_coeff(200, 1), 200);
    assert_eq!(naive_bin_coeff(68, 2), 2278);
}

#[test]
fn largest_entry_of_the_last_row_that_fits() {
    assert_eq!(bottom_up_bin_coeff(67, 33), 14226520737620288370);
    assert_eq!(bottom_up_bin_coeff(67, 34), 14226520737620288370);
    assert_eq!(memoized_bin_coeff(67, 33), 14226520737620288370);
    assert_eq!(memoized_bin_coeff(67, 34), 14226520737620288370);
}

#[test]
fn near_the_right_edge_of_a_long_row() {
    // Row 100 does not fit in a u64 as a whole; these entries do.
    assert_eq!(memoized_bin_coeff(100, 98), 4950);
    assert_eq!(memoized_bin_coeff(100, 2), 4950);
    assert_eq!(bottom_up_bin_coeff(100, 98), 4950);
    assert_eq!(bottom_up_bin_coeff(100, 2), 4950);
    assert_eq!(naive_bin_coeff(100, 98), 4950);
    assert_eq!(bottom_up_bin_coeff(100, 99), 100);
    assert_eq!(memoized_bin_coeff(100, 99), 100);
}

#[test]
fn bottom_up_past_the_middle_of_row_68() {
    assert_eq!(bottom_up_bin_coeff(68, 66), 2278);
    assert_eq!(bottom_up_bin_coeff(68, 67), 68);
    assert_eq!(bottom_up_bin_coeff(68, 2), 2278);
    assert_eq!(bottom_up_bin_coeff(68, 1), 68);
    assert_eq!(bottom_up_bin_coeff(68, 38), 17876288714431443296);
    assert_eq!(bottom_up_bin_coeff(68, 30), 17876288714431443296);
}

#[test]
fn long_rows_near_both_edges() {
    for n in 68..=200u64 {
        for k in 0..=4u64 {
            let left = bottom_up_bin_coeff(n, k);
            assert_eq!(bottom_up_bin_coeff(n, n - k), left);
            assert_eq!(memoized_bin_coeff(n, k), left);
            assert_eq!(memoized_bin_coeff(n, n - k), left);
            if k >= 1 {
                assert_eq!(
                    bottom_up_bin_coeff(n, n - k),
                    bottom_up_bin_coeff(n - 1, n - k) + bottom_up_bin_coeff(n - 1, n - k - 1)
                );
            }
            assert!(bottom_up_bin_coeff(n - 1, n - 1 - k) <= bottom_up_bin_coeff(n, n - 1 - k));
        }
    }
    assert_eq!(bottom_up_bin_coeff(200, 196), 64684950);
    assert_eq!(bottom_up_bin_coeff(1000, 997), 166167000);
}

#[test]
fn selected_known_values() {
    assert_eq!(bottom_up_bin_coeff(52, 5), 2598960);
    assert_eq!(memoized_bin_coeff(52, 5), 2598960);
    assert_eq!(bottom_up_bin_coeff(49, 6), 13983816);
    assert_eq!(memoized_bin_coeff(49, 6), 13983816);
    assert_eq!(bottom_up_bin_coeff(64, 32), 1832624140942590534);
    assert_eq!(memoized_bin_coeff(64, 32), 1832624140942590534);
}
