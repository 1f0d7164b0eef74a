use std::collections::HashSet;

use extremal::adjacency::AdjacencyMatrix;
use extremal::cayley::{build_cayley, enumerate_pairs, prime_sqrt};
use extremal::circulant::build_circulant;
use extremal::clique::{NeighborSet, count_cliques};
use extremal::random::{perturb, random_graph};
use extremal::seidel::{random_subset, seidel_switch};
use rand::SeedableRng;
use rand::rngs::SmallRng;

#[test]
fn prime_sqrt_works() {
    assert_eq!(prime_sqrt(4), Some(2));
    assert_eq!(prime_sqrt(9), Some(3));
    assert_eq!(prime_sqrt(25), Some(5));
    assert_eq!(prime_sqrt(49), Some(7));
    assert_eq!(prime_sqrt(16), None);
    assert_eq!(prime_sqrt(5), None);
    assert_eq!(prime_sqrt(17), None);
}

#[test]
fn enumerate_pairs_z2xz2() {
    let pairs = enumerate_pairs(2);
    assert_eq!(pairs.len(), 3);
}

#[test]
fn enumerate_pairs_z3xz3() {
    let pairs = enumerate_pairs(3);
    assert_eq!(pairs.len(), 4);
}

#[test]
fn enumerate_pairs_z5xz5() {
    let pairs = enumerate_pairs(5);
    assert_eq!(pairs.len(), 12);
}

#[test]
fn enumerate_pairs_z3xz3_representatives() {
    assert_eq!(enumerate_pairs(3), vec![(0, 1), (1, 0), (1, 1), (1, 2)]);
}

#[test]
fn build_cayley_empty() {
    let pairs = enumerate_pairs(3);
    let g = build_cayley(3, &pairs, 0);
    assert_eq!(g.num_edges(), 0);
}

#[test]
fn build_cayley_vertex_transitive() {
    let pairs = enumerate_pairs(3);
    let g = build_cayley(3, &pairs, 0b1010);
    let d0 = g.degree(0);
    for v in 1..9 {
        assert_eq!(g.degree(v), d0, "Cayley graph must be vertex-transitive: deg({v}) != deg(0)");
    }
}

#[test]
fn build_cayley_single_generator() {
    // Connection set {(0,1), (0,2)} on Z_3 x Z_3: three disjoint triangles
    // {3i, 3i+1, 3i+2}.
    let pairs = enumerate_pairs(3);
    let g = build_cayley(3, &pairs, 0b0001);
    assert_eq!(g.num_edges(), 9);
    assert!(g.edge(0, 1) && g.edge(1, 2) && g.edge(0, 2));
    assert!(!g.edge(0, 3));
    let nbrs = NeighborSet::from_adj(&g);
    assert_eq!(count_cliques(&nbrs, 3, 9), 3);
}

#[test]
fn build_circulant_c5_cycle() {
    let g = build_circulant(5, 2, 0b01);
    assert_eq!(g.n(), 5);
    assert_eq!(g.num_edges(), 5);
    for v in 0..5 {
        assert_eq!(g.degree(v), 2);
    }
}

#[test]
fn build_circulant_c5_complete() {
    let g = build_circulant(5, 2, 0b11);
    assert_eq!(g.num_edges(), 10);
    for v in 0..5 {
        assert_eq!(g.degree(v), 4);
    }
}

#[test]
fn build_circulant_empty() {
    let g = build_circulant(5, 2, 0b00);
    assert_eq!(g.num_edges(), 0);
}

#[test]
fn build_circulant_distance_two() {
    // C(6, {2}) is two disjoint triangles: 0-2-4 and 1-3-5.
    let g = build_circulant(6, 3, 0b010);
    assert_eq!(g.num_edges(), 6);
    assert!(g.edge(0, 2) && g.edge(2, 4) && g.edge(0, 4));
    assert!(!g.edge(0, 1));
}

fn r33_seed() -> AdjacencyMatrix {
    let mut g = AdjacencyMatrix::new(5);
    g.set_edge(0, 1, true);
    g.set_edge(1, 2, true);
    g.set_edge(2, 3, true);
    g.set_edge(3, 4, true);
    g.set_edge(0, 4, true);
    g
}

#[test]
fn seidel_switch_involution() {
    let g = r33_seed();
    let set = vec![0, 2];
    let switched = seidel_switch(&g, &set);
    let back = seidel_switch(&switched, &set);
    assert_eq!(g.num_edges(), back.num_edges());
    for i in 0..5 {
        for j in (i + 1)..5 {
            assert_eq!(g.edge(i, j), back.edge(i, j));
        }
    }
}

#[test]
fn seidel_switch_changes_edges() {
    let g = r33_seed();
    let set = vec![0];
    let switched = seidel_switch(&g, &set);
    assert!(!switched.edge(0, 1));
    assert!(switched.edge(0, 2));
    assert!(switched.edge(0, 3));
    assert!(!switched.edge(0, 4));
    assert!(switched.edge(1, 2));
    assert!(switched.edge(2, 3));
    assert!(switched.edge(3, 4));
}

#[test]
fn seidel_empty_set_is_identity() {
    let g = r33_seed();
    let switched = seidel_switch(&g, &[]);
    for i in 0..5 {
        for j in (i + 1)..5 {
            assert_eq!(g.edge(i, j), switched.edge(i, j));
        }
    }
}

#[test]
fn seidel_switch_by_whole_vertex_set_is_identity() {
    let g = r33_seed();
    let switched = seidel_switch(&g, &[0, 1, 2, 3, 4]);
    assert_eq!(g, switched);
}

#[test]
fn random_subset_correct_size() {
    let mut rng = SmallRng::seed_from_u64(42);
    for size in 1..=5 {
        let s = random_subset(10, size, &mut rng);
        assert_eq!(s.len(), size as usize);
        for &v in &s {
            assert!(v < 10);
        }
        let unique: HashSet<u32> = s.iter().copied().collect();
        assert_eq!(unique.len(), s.len());
    }
}

#[test]
fn random_subset_caps_at_n() {
    let mut rng = SmallRng::seed_from_u64(7);
    let mut s = random_subset(4, 9, &mut rng);
    s.sort();
    assert_eq!(s, vec![0, 1, 2, 3]);
}

#[test]
fn random_graph_and_perturb_keep_order() {
    let mut rng = SmallRng::seed_from_u64(1);
    let mut g = random_graph(12, &mut rng);
    assert_eq!(g.n(), 12);
    let before = g.clone();
    perturb(&mut g, 3, &mut rng);
    assert_eq!(g.n(), 12);
    let mut differing = 0;
    for i in 0..12 {
        for j in (i + 1)..12 {
            if g.edge(i, j) != before.edge(i, j) {
                differing += 1;
            }
        }
    }
    assert!(differing <= 3);
}
