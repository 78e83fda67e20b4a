use qsalib::score::{distance, efficiency_of, entropy_part, log2, ratio, DIGITS, ONE, TOP_BIT};

fn as_real(score: u64) -> f64 {
    score as f64 / ONE as f64
}

#[test]
fn constants_are_powers_of_two() {
    assert_eq!(ONE, 1u64 << 32);
    assert_eq!(TOP_BIT, 1u64 << 63);
    assert_eq!(DIGITS, 32);
}

#[test]
fn ratio_rounds_down() {
    assert_eq!(ratio(1, 3), 1431655765);
    assert_eq!(ratio(2, 3), 2863311530);
    assert_eq!(ratio(3, 4), 3221225472);
    assert_eq!(ratio(0, 9), 0);
    assert_eq!(ratio(9, 9), ONE);
    assert_eq!(ratio(u64::MAX, u64::MAX), ONE);
    assert_eq!(ratio(u64::MAX - 1, u64::MAX), ONE - 1);
    assert_eq!(ratio(1, u64::MAX), 1);
}

#[test]
fn distance_is_the_absolute_difference() {
    assert_eq!(distance(5, 9), 4);
    assert_eq!(distance(9, 5), 4);
    assert_eq!(distance(7, 7), 0);
    assert_eq!(distance(0, u64::MAX), u64::MAX);
}

#[test]
fn logarithm_is_exact_on_powers_of_two() {
    for k in 0..64u64 {
        assert_eq!(log2(1u64 << k), k * ONE);
    }
}

#[test]
fn logarithm_follows_the_real_logarithm() {
    let inputs = [3u64, 5, 6, 7, 10, 1000, 123456789, 3221225472, u64::MAX / 3, u64::MAX];
    for x in inputs {
        assert!((as_real(log2(x)) - (x as f64).log2()).abs() < 1e-9, "log2({})", x);
    }
}

#[test]
fn logarithm_of_three() {
    assert_eq!(log2(3) / ONE, 1);
    assert!((as_real(log2(3)) - 1.584962500721156).abs() < 1e-9);
    assert_eq!(log2(6), log2(3) + ONE);
    assert_eq!(log2(3 << 40), log2(3) + 40 * ONE);
}

#[test]
fn logarithm_does_not_decrease() {
    let mut last = 0;
    for x in 1..5000u64 {
        let now = log2(x);
        assert!(now >= last);
        last = now;
    }
    assert!(log2(u64::MAX) < 64 * ONE);
    assert!(log2(u64::MAX) >= log2(u64::MAX - 1));
}

#[test]
fn entropy_share_of_a_probability() {
    assert_eq!(entropy_part(0), 0);
    assert_eq!(entropy_part(ONE), 0);
    assert_eq!(entropy_part(ONE / 2), (ONE as u128 / 2) * ONE as u128);
    assert_eq!(entropy_part(ONE / 4), (ONE as u128 / 4) * (2 * ONE as u128));
}

#[test]
fn efficiency_of_a_uniform_column_is_one() {
    assert_eq!(efficiency_of(ONE / 4, ONE / 4, ONE / 4, ONE / 4), ONE);
}

#[test]
fn efficiency_of_a_conserved_column_is_zero() {
    assert_eq!(efficiency_of(ONE, 0, 0, 0), 0);
    assert_eq!(efficiency_of(0, ONE, 0, 0), 0);
    assert_eq!(efficiency_of(0, 0, ONE, 0), 0);
    assert_eq!(efficiency_of(0, 0, 0, ONE), 0);
    assert_eq!(efficiency_of(0, 0, 0, 0), 0);
}

#[test]
fn efficiency_of_three_to_one() {
    let e = as_real(efficiency_of(3 * (ONE / 4), ONE / 4, 0, 0));
    assert!((e - 0.4056390622295664).abs() < 1e-6);
}

#[test]
fn efficiency_of_two_equal_bases_is_one_half() {
    assert_eq!(efficiency_of(ONE / 2, 0, ONE / 2, 0), ONE / 2);
}

#[test]
fn efficiency_follows_the_entropy_formula() {
    let columns = [[1u64, 2, 3, 4], [10, 0, 1, 0], [7, 7, 7, 1], [1, 1, 1, 1], [5, 0, 0, 9]];
    for counts in columns {
        let whole: u64 = counts.iter().sum();
        let p: Vec<u64> = counts.iter().map(|&n| ratio(n, whole)).collect();
        let mut entropy = 0.0;
        for &n in &counts {
            if n > 0 {
                let q = n as f64 / whole as f64;
                entropy -= q * q.log2();
            }
        }
        let e = as_real(efficiency_of(p[0], p[1], p[2], p[3]));
        assert!((e - entropy / 2.0).abs() < 1e-6);
        assert!(e <= 1.0);
    }
}

#[test]
fn ratio_is_zero_of_no_part_only() {
    assert_eq!(ratio(1, ONE), 1);
    assert_eq!(ratio(1, ONE + 1), 1);
    assert_eq!(ratio(3, 3 * ONE), 1);
    assert_eq!(ratio(3, 3 * ONE + 1), 1);
    assert_eq!(ratio(1, 1 << 33), 1);
    assert_eq!(ratio(1, u64::MAX), 1);
    assert_eq!(ratio(0, 1 << 33), 0);
    assert_eq!(ratio(0, u64::MAX), 0);
    assert_eq!(ratio(ONE - 1, ONE), ONE - 1);
}

#[test]
fn ratio_is_one_of_the_whole_only() {
    assert_eq!(ratio(u64::MAX - 1, u64::MAX), ONE - 1);
    assert_eq!(ratio((1 << 33) - 1, 1 << 33), ONE - 1);
    assert_eq!(ratio(1 << 33, 1 << 33), ONE);
}

#[test]
fn logarithm_is_within_two_units_below_the_real_one() {
    let inputs = [3u64, 5, 7, 11, 1000003, 3221225472, u64::MAX];
    for x in inputs {
        let exact = (x as f64).log2() * ONE as f64;
        let score = log2(x) as f64;
        assert!(score <= exact + 1.0, "log2({})", x);
        assert!(exact < score + 3.0, "log2({})", x);
    }
}
