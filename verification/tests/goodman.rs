use extremal::goodman::{goodman_gap, goodman_minimum};

fn goodman_minimum_exact(n: u32) -> u64 {
    if n < 3 {
        return 0;
    }
    let n = n as u64;
    let c_n_3 = n * (n - 1) * (n - 2) / 6;
    let d_low = (n - 1) / 2;
    let d_high = n / 2;
    let sum = if n % 2 == 1 {
        n * d_low * (n - 1 - d_low)
    } else {
        (n / 2) * d_low * (n - 1 - d_low) + (n / 2) * d_high * (n - 1 - d_high)
    };
    c_n_3 - sum / 2
}

#[test]
fn goodman_minimum_cross_validation() {
    for n in 0..50 {
        let fast = goodman_minimum(n);
        let exact = goodman_minimum_exact(n);
        assert_eq!(fast, exact, "goodman_minimum({n}) = {fast}, expected {exact} (from degree-sum)");
    }
}

#[test]
fn goodman_minimum_known_values() {
    assert_eq!(goodman_minimum(0), 0);
    assert_eq!(goodman_minimum(1), 0);
    assert_eq!(goodman_minimum(2), 0);
    assert_eq!(goodman_minimum(3), 0);
    assert_eq!(goodman_minimum(4), 0);
    assert_eq!(goodman_minimum(5), 0);
    assert_eq!(goodman_minimum(6), 2);
    assert_eq!(goodman_minimum(7), 4);
    assert_eq!(goodman_minimum(8), 8);
    assert_eq!(goodman_minimum(9), 12);
    assert_eq!(goodman_minimum(17), 136);
    assert_eq!(goodman_minimum(25), 500);
}

#[test]
fn goodman_gap_works() {
    let n = 10;
    let min = goodman_minimum(n);
    assert_eq!(goodman_gap(n, min / 2, min - min / 2), 0);
    assert_eq!(goodman_gap(n, min, 1), 1);
}

#[test]
fn goodman_monotone() {
    let mut prev = 0;
    for n in 0..=50 {
        let g = goodman_minimum(n);
        assert!(g >= prev, "Goodman({n})={g} < Goodman({})={prev}", n - 1);
        prev = g;
    }
}

#[test]
fn goodman_gap_consistency() {
    assert_eq!(goodman_minimum(5), 0);
    assert_eq!(goodman_minimum(6), 2);
    assert_eq!(goodman_gap(5, 0, 0), 0);
    assert_eq!(goodman_gap(6, 1, 1), 0);
    assert_eq!(goodman_gap(6, 2, 1), 1);
}

#[test]
fn goodman_gap_saturates_below_minimum() {
    assert_eq!(goodman_gap(10, 0, 0), 0);
    assert_eq!(goodman_minimum(10), 20);
    assert_eq!(goodman_gap(10, 15, 10), 5);
}
