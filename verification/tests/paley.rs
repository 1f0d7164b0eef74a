use extremal::paley::{is_prime, paley_graph};

#[test]
fn paley_5_is_c5() {
    let g = paley_graph(5);
    assert_eq!(g.num_edges(), 5);
    for v in 0..5 {
        assert_eq!(g.degree(v), 2);
    }
}

#[test]
fn paley_17_is_regular() {
    let g = paley_graph(17);
    for v in 0..17 {
        assert_eq!(g.degree(v), 8);
    }
}

#[test]
fn paley_self_complementary() {
    let g = paley_graph(5);
    let comp = g.complement();
    assert_eq!(g.num_edges(), comp.num_edges());
}

#[test]
fn primes_by_trial_division() {
    let primes: Vec<u32> = (0..60).filter(|&n| is_prime(n)).collect();
    assert_eq!(primes, vec![2, 3, 5, 7, 11, 13, 17, 19, 23, 29, 31, 37, 41, 43, 47, 53, 59]);
    assert!(is_prime(65521));
    assert!(!is_prime(65537 * 3));
    assert!(is_prime(4294967291));
}

#[test]
fn paley_on_non_prime_uses_next_prime() {
    // n = 6: the prime is 13; vertices 0..6 with i - j a square mod 13
    // (squares: 1, 3, 4, 9, 10, 12).
    let g = paley_graph(6);
    assert_eq!(g.n(), 6);
    assert!(g.edge(0, 1)); // -1 = 12
    assert!(!g.edge(0, 2)); // -2 = 11
    assert!(g.edge(0, 3)); // -3 = 10
    assert!(g.edge(0, 4)); // -4 = 9
    assert!(!g.edge(0, 5)); // -5 = 8
}
