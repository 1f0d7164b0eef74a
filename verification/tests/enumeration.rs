use extremal::cayley::CayleySearch;
use extremal::circulant::CirculantSearch;
use extremal::clique::{NeighborSet, count_cliques};
use extremal::adjacency::AdjacencyMatrix;
use extremal::cid::compute_cid;
use extremal::search::SearchResult;
use extremal::types::GraphCid;

/// The CID of the smallest relabelling of a small graph (by packed bits),
/// so isomorphic graphs share it; larger graphs keep their own CID.
fn canonical_cid(g: &AdjacencyMatrix) -> GraphCid {
    let n = g.n() as usize;
    if n > 7 {
        return compute_cid(g);
    }
    let mut perm: Vec<u32> = (0..n as u32).collect();
    let mut best = g.permute_vertices(&perm);
    let mut c = vec![0usize; n];
    let mut i = 0;
    while i < n {
        if c[i] < i {
            if i % 2 == 0 {
                perm.swap(0, i);
            } else {
                perm.swap(c[i], i);
            }
            let h = g.permute_vertices(&perm);
            if h.packed_bits() < best.packed_bits() {
                best = h;
            }
            c[i] += 1;
            i = 0;
        } else {
            c[i] = 0;
            i += 1;
        }
    }
    compute_cid(&best)
}

fn assert_all_valid(result: &SearchResult, n: u32, k: u32, ell: u32) {
    for d in &result.discoveries {
        assert_eq!(d.graph.n(), n);
        let adj = NeighborSet::from_adj(&d.graph);
        let comp = NeighborSet::from_adj(&d.graph.complement());
        assert_eq!(count_cliques(&adj, k, n) + count_cliques(&comp, ell, n), 0);
    }
}

#[test]
fn circulant_finds_r33_n5() {
    let (result, _) = CirculantSearch.search(5, 3, 3, 0, 25, false, Vec::new(), canonical_cid);
    assert!(result.valid, "should find valid R(3,3) circulant on 5 vertices");
    assert!(!result.discoveries.is_empty(), "should discover at least 1 valid circulant");
    assert_all_valid(&result, 5, 3, 3);
}

#[test]
fn circulant_finds_r44_n17() {
    let (result, _) = CirculantSearch.search(17, 4, 4, 0, 25, false, Vec::new(), canonical_cid);
    assert!(result.valid, "should find valid R(4,4) circulant on 17 vertices");
    assert_eq!(result.iterations_used, 256);
}

#[test]
fn circulant_skips_second_round() {
    let (result, _) = CirculantSearch.search(5, 3, 3, 0, 25, true, Vec::new(), canonical_cid);
    assert_eq!(result.iterations_used, 0, "should skip when already done");
}

#[test]
fn circulant_reports_carry_state() {
    let (_, done) = CirculantSearch.search(5, 3, 3, 0, 25, false, Vec::new(), canonical_cid);
    assert!(done);
}

#[test]
fn circulant_reports_every_valid_mask() {
    // On 5 vertices the connection sets {1} and {2} both give a 5-cycle;
    // {} and {1, 2} give the empty and the complete graph, which are not
    // R(3,3)-valid. Named by their own edges, the two 5-cycles differ.
    let (result, _) = CirculantSearch.search(5, 3, 3, 0, 25, false, Vec::new(), compute_cid);
    let masks: Vec<u64> = result.discoveries.iter().map(|d| d.iteration).collect();
    assert_eq!(masks, vec![1, 2]);
    let best = result.best_graph.expect("a valid graph");
    assert_eq!(best.num_edges(), 5);
}

#[test]
fn circulant_polish_keeps_discoveries_valid() {
    let (result, _) = CirculantSearch.search(17, 4, 4, 20, 5, false, Vec::new(), canonical_cid);
    assert!(result.valid);
    assert!(result.discoveries.len() > 1);
    assert_all_valid(&result, 17, 4, 4);
}

#[test]
fn cayley_finds_r33_n4() {
    let (result, _) = CayleySearch.search(4, 3, 3, 0, 25, false, Vec::new(), canonical_cid);
    assert!(result.valid, "should find valid R(3,3) Cayley on 4 vertices");
    assert!(!result.discoveries.is_empty(), "should discover at least 1 valid Cayley graph");
    assert_all_valid(&result, 4, 3, 3);
}

#[test]
fn cayley_finds_r44_n9() {
    let (result, _) = CayleySearch.search(9, 4, 4, 0, 25, false, Vec::new(), canonical_cid);
    assert!(result.valid, "should find valid R(4,4) Cayley on 9 vertices");
    assert_all_valid(&result, 9, 4, 4);
}

#[test]
fn cayley_skips_non_square_prime() {
    let (result, _) = CayleySearch.search(17, 4, 4, 0, 25, false, Vec::new(), canonical_cid);
    assert_eq!(result.iterations_used, 0, "should skip non-p² values");
}

#[test]
fn cayley_skips_second_round() {
    let (result, _) = CayleySearch.search(4, 3, 3, 0, 25, true, Vec::new(), canonical_cid);
    assert_eq!(result.iterations_used, 0, "should skip when already done");
}

#[test]
fn cayley_reports_carry_state() {
    let (_, done) = CayleySearch.search(4, 3, 3, 0, 25, false, Vec::new(), canonical_cid);
    assert!(done);
}

#[test]
fn cayley_skips_too_many_pairs() {
    // Z_7 x Z_7 has 24 pairs, more than the exhaustive limit.
    let (result, _) = CayleySearch.search(49, 5, 5, 0, 25, false, Vec::new(), canonical_cid);
    assert_eq!(result.iterations_used, 0);
    assert!(!result.valid);
}

#[test]
fn cayley_enumerates_all_masks_of_z3() {
    // Z_3 x Z_3 has four pairs: 16 connection sets.
    let (result, _) = CayleySearch.search(9, 4, 4, 0, 25, false, Vec::new(), canonical_cid);
    assert_eq!(result.iterations_used, 16);
}

#[test]
fn circulant_deduplicates_isomorphic() {
    // C(5, {1}) and C(5, {2}) are isomorphic (both are C5): one discovery.
    let (result, done) = CirculantSearch.search(5, 3, 3, 0, 25, false, Vec::new(), canonical_cid);
    assert_eq!(result.discoveries.len(), 1, "isomorphic circulants should dedup to 1");
    let g = &result.discoveries[0].graph;
    assert_eq!(g.num_edges(), 5);
    for v in 0..5u32 {
        assert!(g.edge(v, (v + 1) % 5));
    }
    assert!(result.valid);
    assert_eq!(result.iterations_used, 4);
    assert!(done);
}

#[test]
fn circulant_skips_known_cids() {
    let (first, _) = CirculantSearch.search(5, 3, 3, 0, 25, false, Vec::new(), canonical_cid);
    let known = vec![canonical_cid(&first.discoveries[0].graph)];
    let (again, _) = CirculantSearch.search(5, 3, 3, 0, 25, false, known, canonical_cid);
    assert!(again.discoveries.is_empty());
    assert!(again.valid);
}
