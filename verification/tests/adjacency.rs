use extremal::adjacency::AdjacencyMatrix;

#[test]
fn new_graph_has_no_edges() {
    let g = AdjacencyMatrix::new(10);
    assert_eq!(g.num_edges(), 0);
    for i in 0..10 {
        for j in 0..10 {
            assert!(!g.edge(i, j));
        }
    }
}

#[test]
fn set_and_get_edge() {
    let mut g = AdjacencyMatrix::new(5);
    g.set_edge(1, 3, true);
    assert!(g.edge(1, 3));
    assert!(g.edge(3, 1));
    assert!(!g.edge(0, 1));
    assert_eq!(g.num_edges(), 1);
}

#[test]
fn self_loop_ignored() {
    let mut g = AdjacencyMatrix::new(5);
    g.set_edge(2, 2, true);
    assert!(!g.edge(2, 2));
    assert_eq!(g.num_edges(), 0);
}

#[test]
fn complement_flips_all_edges() {
    let mut g = AdjacencyMatrix::new(4);
    g.set_edge(0, 1, true);
    g.set_edge(2, 3, true);
    let comp = g.complement();
    assert!(!comp.edge(0, 1));
    assert!(!comp.edge(2, 3));
    assert!(comp.edge(0, 2));
    assert!(comp.edge(0, 3));
    assert!(comp.edge(1, 2));
    assert!(comp.edge(1, 3));
    assert_eq!(comp.num_edges(), 4);
}

#[test]
fn neighbors_correct() {
    let mut g = AdjacencyMatrix::new(4);
    g.set_edge(0, 1, true);
    g.set_edge(0, 3, true);
    let mut nbrs = g.neighbors(0);
    nbrs.sort();
    assert_eq!(nbrs, vec![1, 3]);
}

#[test]
fn complete_graph_edge_count() {
    let n = 5u32;
    let mut g = AdjacencyMatrix::new(n);
    for i in 0..n {
        for j in (i + 1)..n {
            g.set_edge(i, j, true);
        }
    }
    assert_eq!(g.num_edges(), 10);
}

#[test]
fn permute_vertices_relabels() {
    let mut g = AdjacencyMatrix::new(4);
    g.set_edge(0, 1, true);
    g.set_edge(1, 2, true);
    g.set_edge(2, 3, true);
    let perm = vec![3, 2, 1, 0];
    let h = g.permute_vertices(&perm);
    assert!(h.edge(0, 1));
    assert!(h.edge(1, 2));
    assert!(h.edge(2, 3));
    assert_eq!(h.num_edges(), 3);
}

#[test]
fn neighbor_masks_correct() {
    let mut g = AdjacencyMatrix::new(4);
    g.set_edge(0, 1, true);
    g.set_edge(0, 3, true);
    g.set_edge(1, 2, true);
    let masks = g.neighbor_masks();
    assert_eq!(masks[0], (1 << 1) | (1 << 3));
    assert_eq!(masks[1], (1 << 0) | (1 << 2));
    assert_eq!(masks[2], 1 << 1);
    assert_eq!(masks[3], 1 << 0);
}

#[test]
fn n_zero_and_one() {
    let g0 = AdjacencyMatrix::new(0);
    assert_eq!(g0.n(), 0);
    assert_eq!(g0.num_edges(), 0);

    let g1 = AdjacencyMatrix::new(1);
    assert_eq!(g1.n(), 1);
    assert_eq!(g1.num_edges(), 0);
}

#[test]
fn remove_edge_clears_it() {
    let mut g = AdjacencyMatrix::new(6);
    g.set_edge(4, 1, true);
    assert!(g.edge(1, 4));
    g.set_edge(1, 4, false);
    assert!(!g.edge(4, 1));
    assert_eq!(g.num_edges(), 0);
}

#[test]
fn total_bits_and_packed_size() {
    assert_eq!(AdjacencyMatrix::total_bits(0), 0);
    assert_eq!(AdjacencyMatrix::total_bits(1), 0);
    assert_eq!(AdjacencyMatrix::total_bits(5), 10);
    assert_eq!(AdjacencyMatrix::total_bits(17), 136);
    let g = AdjacencyMatrix::new(5);
    assert_eq!(g.packed_bits().len(), 2);
}

#[test]
fn from_bits_roundtrip_and_length_check() {
    let mut g = AdjacencyMatrix::new(5);
    g.set_edge(0, 1, true);
    g.set_edge(2, 4, true);
    let bits = g.packed_bits().to_vec();
    let h = AdjacencyMatrix::from_bits(5, bits).unwrap();
    assert_eq!(g, h);
    assert!(h.edge(4, 2));
    assert!(AdjacencyMatrix::from_bits(5, vec![0u8; 3]).is_err());
}

#[test]
fn packed_bit_layout() {
    // pair (0,1) is bit 0, the most significant bit of byte 0
    let mut g = AdjacencyMatrix::new(4);
    g.set_edge(0, 1, true);
    assert_eq!(g.packed_bits(), &[0b1000_0000]);
    // pair (2,3) is the last of the six pairs: bit 5
    let mut h = AdjacencyMatrix::new(4);
    h.set_edge(3, 2, true);
    assert_eq!(h.packed_bits(), &[0b0000_0100]);
}

#[test]
fn degree_and_complement_involution() {
    let mut g = AdjacencyMatrix::new(5);
    g.set_edge(0, 1, true);
    g.set_edge(0, 2, true);
    g.set_edge(3, 4, true);
    assert_eq!(g.degree(0), 2);
    assert_eq!(g.degree(4), 1);
    let back = g.complement().complement();
    assert_eq!(g, back);
    assert_eq!(g.num_edges() + g.complement().num_edges(), 10);
}

#[test]
fn num_edges_ignores_padding_bits() {
    let m = AdjacencyMatrix::from_bits(2, vec![0xFF]).unwrap();
    assert!(m.edge(0, 1));
    assert_eq!(m.num_edges(), 1);
    assert_eq!(m.packed_bits(), &[0xFFu8][..], "the bytes are kept as given");
}

#[test]
fn complement_has_the_other_pairs() {
    let mut g = AdjacencyMatrix::new(4);
    g.set_edge(0, 1, true);
    g.set_edge(1, 2, true);
    g.set_edge(2, 3, true);
    assert_eq!(g.num_edges(), 3);
    assert_eq!(g.complement().num_edges(), 3);
    g.set_edge(0, 3, true);
    assert_eq!(g.num_edges(), 4);
    assert_eq!(g.complement().num_edges(), 2);
    assert_eq!(g.complement().complement(), g);
}
