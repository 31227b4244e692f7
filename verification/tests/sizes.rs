use rust_helpers::factorial_upper_bound;
use rust_helpers::sizes::saturating_power;

#[test]
fn powers_that_fit_are_exact() {
    assert_eq!(saturating_power(2, 10), 1024);
    assert_eq!(saturating_power(3, 4), 81);
    assert_eq!(saturating_power(10, 9), 1_000_000_000);
    assert_eq!(saturating_power(7, 1), 7);
    assert_eq!(saturating_power(7, 0), 1);
    assert_eq!(saturating_power(2, 31), 1usize << 31);
}

#[test]
fn powers_of_zero_and_one() {
    assert_eq!(saturating_power(0, 0), 1);
    assert_eq!(saturating_power(0, 1), 0);
    assert_eq!(saturating_power(0, usize::MAX), 0);
    assert_eq!(saturating_power(1, 0), 1);
    assert_eq!(saturating_power(1, usize::MAX), 1);
}

#[test]
fn powers_that_do_not_fit_give_the_largest_word() {
    assert_eq!(saturating_power(2, usize::BITS as usize), usize::MAX);
    assert_eq!(saturating_power(2, 1000), usize::MAX);
    assert_eq!(saturating_power(usize::MAX, 2), usize::MAX);
    assert_eq!(saturating_power(10, usize::MAX), usize::MAX);
    assert_eq!(saturating_power(2, usize::BITS as usize - 1), 1usize << (usize::BITS - 1));
}

#[test]
fn factorial_bound_at_the_edge_of_a_word() {
    if usize::BITS == 64 {
        assert_eq!(factorial_upper_bound(20), 2432902008176640000);
        assert_eq!(factorial_upper_bound(21), usize::MAX);
    }
    if usize::BITS == 32 {
        assert_eq!(factorial_upper_bound(12), 479001600);
        assert_eq!(factorial_upper_bound(13), usize::MAX);
    }
}
