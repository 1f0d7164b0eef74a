//! Circulant graphs: vertex `i` is adjacent to `i + d (mod n)` for every
//! distance `d` of a connection set, chosen by a bitmask.

use vstd::prelude::*;

use crate::adjacency::{AdjacencyMatrix, is_vertex_pair, ordered, size_fits};
use crate::clique::pow2;
use crate::polish::{
    all_valid, count_violations, four_clique_key, four_key, key_less, key_lt, lemma_kept_valid, polish_walk,
    violation_count,
};
use crate::search::{RawDiscovery, SearchResult, keep_new_discoveries, kept_new};
use crate::types::GraphCid;

verus! {

/// Exhaustive enumeration of circulant graphs.
pub struct CirculantSearch;

/// Bit `b` of `mask` is set.
pub open spec fn mask_has(mask: u32, b: int) -> bool {
    0 <= b < 32 && (mask >> (b as u32)) & 1u32 == 1u32
}

/// The circulant graph on `0..n` whose distances are the `d` in `1..=half`
/// with bit `d - 1` of `mask` set.
pub open spec fn circulant_edges(n: int, half: int, mask: u32) -> Set<(int, int)> {
    Set::new(
        |e: (int, int)|
            is_vertex_pair(n, e) && exists|d: int|
                1 <= d <= half && #[trigger] mask_has(mask, d - 1) && ((e.0 + d) % n == e.1 || (e.1 + d) % n
                    == e.0),
    )
}

/// The edges added for the vertices before `i`, and for `i` the distances
/// up to `dmax`.
pub open spec fn circulant_prefix(n: int, half: int, mask: u32, i: int, dmax: int) -> Set<(int, int)> {
    Set::new(
        |e: (int, int)|
            exists|a: int, d: int|
                #![trigger mask_has(mask, d - 1), ordered(a, (a + d) % n)]
                0 <= a < n && 1 <= d <= half && mask_has(mask, d - 1) && (a < i || (a == i && d <= dmax))
                    && (a + d) % n != a && e == ordered(a, (a + d) % n),
    )
}

/// The circulant graph on `n` vertices with distances `bit + 1` for the set
/// bits `bit < half` of `mask`.
pub fn build_circulant(n: u32, half: u32, mask: u32) -> (g: AdjacencyMatrix)
    requires
        size_fits(n as int),
        half <= 32,
        n + 32 <= u32::MAX,
    ensures
        g.wf(),
        g.order() == n,
        g@ == circulant_edges(n as int, half as int, mask),
{
    let mut g = AdjacencyMatrix::new(n);
    let mut i: u32 = 0;
    assert(g@ =~= circulant_prefix(n as int, half as int, mask, 0, 0));
    while i < n
        invariant
            i <= n,
            half <= 32,
            n + 32 <= u32::MAX,
            g.wf(),
            g.order() == n,
            g@ == circulant_prefix(n as int, half as int, mask, i as int, 0),
        decreases n - i,
    {
        let mut bit: u32 = 0;
        while bit < half
            invariant
                i < n,
                bit <= half,
                half <= 32,
                n + 32 <= u32::MAX,
                g.wf(),
                g.order() == n,
                g@ == circulant_prefix(n as int, half as int, mask, i as int, bit as int),
            decreases half - bit,
        {
            let ghost old_edges = g@;
            if (mask >> bit) & 1 == 1 {
                let dist = bit + 1;
                let j = (i + dist) % n;
                if i != j {
                    let lo = if i < j {
                        i
                    } else {
                        j
                    };
                    let hi = if i < j {
                        j
                    } else {
                        i
                    };
                    g.set_edge(lo, hi, true);
                    proof {
                        assert(ordered(lo as int, hi as int) == ordered(i as int, ((i + dist) as int) % (n as int)));
                        assert(mask_has(mask, dist - 1));
                    }
                }
            }
            proof {
                let d = bit + 1;
                assert(g@ =~= circulant_prefix(n as int, half as int, mask, i as int, d as int)) by {
                    assert forall|e: (int, int)| #[trigger] g@.contains(e) implies circulant_prefix(
                        n as int,
                        half as int,
                        mask,
                        i as int,
                        d as int,
                    ).contains(e) by {
                        if !old_edges.contains(e) {
                            assert(mask_has(mask, d - 1));
                            assert(e == ordered(i as int, ((i + d) % (n as int))));
                        }
                    }
                    assert forall|e: (int, int)| #[trigger] circulant_prefix(
                        n as int,
                        half as int,
                        mask,
                        i as int,
                        d as int,
                    ).contains(e) implies g@.contains(e) by {
                        let (a, dd) = choose|a: int, dd: int|
                            #![trigger mask_has(mask, dd - 1), ordered(a, (a + dd) % (n as int))]
                            0 <= a < n && 1 <= dd <= half && mask_has(mask, dd - 1) && (a < i || (a == i
                                && dd <= d)) && (a + dd) % (n as int) != a && e == ordered(a, (a + dd) % (n as int));
                        if !(a == i && dd == d) {
                            assert(circulant_prefix(n as int, half as int, mask, i as int, bit as int).contains(e));
                        }
                    }
                }
            }
            bit = bit + 1;
        }
        proof {
            assert(g@ =~= circulant_prefix(n as int, half as int, mask, i + 1, 0)) by {
                assert forall|e: (int, int)| #[trigger] circulant_prefix(
                    n as int,
                    half as int,
                    mask,
                    i + 1,
                    0,
                ).contains(e) implies g@.contains(e) by {
                    let (a, dd) = choose|a: int, dd: int|
                        #![trigger mask_has(mask, dd - 1), ordered(a, (a + dd) % (n as int))]
                        0 <= a < n && 1 <= dd <= half && mask_has(mask, dd - 1) && (a < i + 1 || (a == i + 1
                            && dd <= 0)) && (a + dd) % (n as int) != a && e == ordered(a, (a + dd) % (n as int));
                    assert(circulant_prefix(n as int, half as int, mask, i as int, half as int).contains(e));
                }
                assert forall|e: (int, int)| #[trigger] g@.contains(e) implies circulant_prefix(
                    n as int,
                    half as int,
                    mask,
                    i + 1,
                    0,
                ).contains(e) by {
                    let (a, dd) = choose|a: int, dd: int|
                        #![trigger mask_has(mask, dd - 1), ordered(a, (a + dd) % (n as int))]
                        0 <= a < n && 1 <= dd <= half && mask_has(mask, dd - 1) && (a < i || (a == i
                            && dd <= half)) && (a + dd) % (n as int) != a && e == ordered(a, (a + dd) % (n as int));
                }
            }
        }
        i = i + 1;
    }
    proof {
        assert(g@ =~= circulant_edges(n as int, half as int, mask)) by {
            assert forall|e: (int, int)| #[trigger] g@.contains(e) implies circulant_edges(
                n as int,
                half as int,
                mask,
            ).contains(e) by {
                let (a, dd) = choose|a: int, dd: int|
                    #![trigger mask_has(mask, dd - 1), ordered(a, (a + dd) % (n as int))]
                    0 <= a < n && 1 <= dd <= half && mask_has(mask, dd - 1) && (a < n || (a == n && dd
                        <= 0)) && (a + dd) % (n as int) != a && e == ordered(a, (a + dd) % (n as int));
                let b = (a + dd) % (n as int);
                assert(0 <= b < n);
                assert(is_vertex_pair(n as int, e));
            }
            assert forall|e: (int, int)| #[trigger] circulant_edges(n as int, half as int, mask).contains(e)
                implies g@.contains(e) by {
                let d = choose|d: int|
                    1 <= d <= half && #[trigger] mask_has(mask, d - 1) && ((e.0 + d) % (n as int) == e.1
                        || (e.1 + d) % (n as int) == e.0);
                if (e.0 + d) % (n as int) == e.1 {
                    assert(ordered(e.0, (e.0 + d) % (n as int)) == e);
                } else {
                    assert(ordered(e.1, (e.1 + d) % (n as int)) == e);
                }
            }
        }
    }
    g
}

/// The circulant graph of `mask` on `n` vertices has no `k`-clique and its
/// complement no `ell`-clique.
pub open spec fn circulant_valid(n: int, mask: u32, k: nat, ell: nat) -> bool {
    violation_count(circulant_edges(n, n / 2, mask), n, k, ell) == 0
}

/// Every valid circulant graph of a mask below `upto` is among the
/// discoveries, reported with its mask as the iteration.
pub open spec fn valid_masks_reported(d: Seq<RawDiscovery>, n: int, k: nat, ell: nat, upto: int) -> bool {
    forall|mask: u32|
        mask < upto && #[trigger] circulant_valid(n, mask, k, ell) ==> exists|i: int|
            0 <= i < d.len() && #[trigger] d[i].graph@ == circulant_edges(n, n / 2, mask) && d[i].iteration
                == mask
}

/// The discoveries come in mask order: their iterations never decrease,
/// and the first one of each iteration is the circulant graph of that
/// mask.
pub open spec fn mask_ordered(d: Seq<RawDiscovery>, n: int) -> bool {
    &&& forall|i: int| 0 < i < d.len() ==> d[i - 1].iteration <= (#[trigger] d[i]).iteration
    &&& forall|i: int|
        0 <= i < d.len() && (i == 0 || d[i - 1].iteration < d[i].iteration) ==> (#[trigger] d[i]).graph@ == circulant_edges(
            n,
            n / 2,
            d[i].iteration as u32,
        )
}

/// Most polish walks per enumeration.
pub const MAX_POLISH_PER_ROUND: u32 = 50;

impl CirculantSearch {
    /// Enumerate all `2^(n/2)` circulant graphs on `n` vertices. Each one
    /// with no `k`-clique whose complement has no `ell`-clique is reported,
    /// with its mask as the iteration, and the first fifty of them are
    /// polished, every graph of the polish walk being reported too. The best
    /// graph is the valid one, found or polished, with the lowest
    /// `(max, min)` 4-clique counts. When the enumeration was already done in
    /// an earlier round nothing is searched. The flag handed back says that
    /// the enumeration is complete. Of the graphs found, only those whose
    /// CID (`cid_of`, meant to name the isomorphism class) is not among
    /// `known_cids` nor that of an earlier one are handed back.
    pub fn search<F: Fn(&AdjacencyMatrix) -> GraphCid>(
        &self,
        n: u32,
        k: u32,
        ell: u32,
        polish_max_steps: u32,
        polish_tabu_tenure: u32,
        already_enumerated: bool,
        known_cids: Vec<GraphCid>,
        cid_of: F,
    ) -> (r: (SearchResult, bool))
        requires
            n <= 63,
            polish_max_steps > 0 ==> n >= 1,
            polish_max_steps + polish_tabu_tenure <= u32::MAX,
            forall|g: &AdjacencyMatrix| g.wf() ==> #[trigger] cid_of.requires((g,)),
        ensures
            r.1,
            already_enumerated ==> r.0.iterations_used == 0 && !r.0.valid && r.0.discoveries@.len() == 0,
            !already_enumerated ==> r.0.iterations_used == pow2((n / 2) as nat),
            !already_enumerated ==> (r.0.valid <==> exists|mask: u32|
                mask < pow2((n / 2) as nat) && #[trigger] circulant_valid(n as int, mask, k as nat, ell as nat)),
            r.0.valid <==> r.0.best_graph is Some,
            r.0.best_graph matches Some(g) ==> g.wf() && g.order() == n && violation_count(
                g@,
                n as int,
                k as nat,
                ell as nat,
            ) == 0,
            r.0.best_graph matches Some(g) ==> forall|mask: u32|
                mask < pow2((n / 2) as nat) && #[trigger] circulant_valid(n as int, mask, k as nat, ell as nat)
                    ==> !key_less(four_key(circulant_edges(n as int, (n / 2) as int, mask), n as int), four_key(g@, n as int)),
            all_valid(r.0.discoveries@, n as int, k as nat, ell as nat),
            !already_enumerated ==> exists|
                found: Seq<RawDiscovery>,
                known1: Seq<GraphCid>,
                c: Seq<GraphCid>,
                pos: Seq<int>,
            |
                #[trigger] kept_new(cid_of, found, known_cids@, known1, r.0.discoveries@, c, pos) && valid_masks_reported(
                    found,
                    n as int,
                    k as nat,
                    ell as nat,
                    pow2((n / 2) as nat) as int,
                ) && all_valid(found, n as int, k as nat, ell as nat) && mask_ordered(found, n as int),
    {
        if already_enumerated {
            return (SearchResult { best_graph: None, valid: false, iterations_used: 0, discoveries: Vec::new() }, true);
        }
        let half = n / 2;
        let mut total: u32 = 1;
        let mut i: u32 = 0;
        while i < half
            invariant
                i <= half,
                half <= 31,
                total == pow2(i as nat),
                total <= 0x8000_0000,
            decreases half - i,
        {
            proof {
                crate::clique::lemma_pow2_mono(i as nat, 30);
                assert(pow2(30) == 0x4000_0000) by {
                    reveal_with_fuel(pow2, 31);
                }
            }
            total = total * 2;
            i = i + 1;
        }
        let mut discoveries: Vec<RawDiscovery> = Vec::new();
        let mut best_valid: Option<AdjacencyMatrix> = None;
        let mut best_key: (u64, u64) = (0, 0);
        let mut polish_calls: u32 = 0;
        let mut mask: u32 = 0;
        while mask < total
            invariant
                mask <= total,
                total == pow2(half as nat),
                half == n / 2,
                n <= 63,
                polish_max_steps > 0 ==> n >= 1,
                polish_max_steps + polish_tabu_tenure <= u32::MAX,
                polish_calls <= MAX_POLISH_PER_ROUND,
                all_valid(discoveries@, n as int, k as nat, ell as nat),
                valid_masks_reported(discoveries@, n as int, k as nat, ell as nat, mask as int),
                mask_ordered(discoveries@, n as int),
                forall|i: int| 0 <= i < discoveries@.len() ==> (#[trigger] discoveries@[i]).iteration < mask,
                best_valid is Some <==> exists|m: u32|
                    m < mask && #[trigger] circulant_valid(n as int, m, k as nat, ell as nat),
                best_valid matches Some(g) ==> g.wf() && g.order() == n && violation_count(
                    g@,
                    n as int,
                    k as nat,
                    ell as nat,
                ) == 0 && best_key == four_key(g@, n as int),
                forall|m: u32|
                    m < mask && #[trigger] circulant_valid(n as int, m, k as nat, ell as nat) ==> !key_less(
                        four_key(circulant_edges(n as int, (n / 2) as int, m), n as int),
                        best_key,
                    ),
            decreases total - mask,
        {
            assert(n * (n - 1) <= 63 * 62) by (nonlinear_arith)
                requires
                    n <= 63,
            ;
            let adj = build_circulant(n, half, mask);
            let violations = count_violations(&adj, k, ell);
            let ghost before = discoveries@;
            if violations == 0 {
                assert(circulant_valid(n as int, mask, k as nat, ell as nat));
                let key = four_clique_key(&adj);
                discoveries.push(RawDiscovery { graph: adj.copy_of(), iteration: mask as u64 });
                proof {
                    let d = discoveries@;
                    assert(d[d.len() - 1].graph@ == circulant_edges(n as int, (n / 2) as int, mask));
                    assert forall|i: int| 0 <= i < d.len() - 1 implies #[trigger] d[i] == before[i] by {}
                    assert(d[d.len() - 1].iteration as u32 == mask);
                    assert forall|m: u32|
                        m < mask + 1 && #[trigger] circulant_valid(n as int, m, k as nat, ell as nat) implies exists|j: int|
                            0 <= j < d.len() && #[trigger] d[j].graph@ == circulant_edges(n as int, (n / 2) as int, m)
                                && d[j].iteration == m by {
                        if m < mask {
                            let j = choose|j: int|
                                0 <= j < before.len() && #[trigger] before[j].graph@ == circulant_edges(n as int, (n / 2) as int, m)
                                    && before[j].iteration == m;
                            assert(d[j] == before[j]);
                        } else {
                            assert(d[d.len() - 1].graph@ == circulant_edges(n as int, (n / 2) as int, m));
                        }
                    }
                }
                let better = match &best_valid {
                    Some(_) => key_lt(key, best_key),
                    None => true,
                };
                if better {
                    best_valid = Some(adj.copy_of());
                    best_key = key;
                }
                if polish_max_steps > 0 && polish_calls < MAX_POLISH_PER_ROUND {
                    polish_calls = polish_calls + 1;
                    let ghost before_polish = discoveries@;
                    let polished = polish_walk(
                        &adj,
                        k,
                        ell,
                        polish_max_steps,
                        polish_tabu_tenure,
                        &mut discoveries,
                        mask as u64,
                    );
                    proof {
                        let d = discoveries@;
                        assert forall|j: int| 0 <= j < d.len() implies (#[trigger] d[j]).graph.wf() && d[j].graph.order()
                            == n && violation_count(d[j].graph@, n as int, k as nat, ell as nat) == 0 by {
                            if j < before_polish.len() {
                                assert(d[j] == before_polish[j]);
                            }
                        }
                        assert forall|j: int| 0 <= j < before_polish.len() implies #[trigger] d[j] == before_polish[j] by {
                            assert(d[j] == d.take(before_polish.len() as int)[j]);
                        }
                        assert(before_polish[before_polish.len() - 1].iteration == mask);
                        assert forall|m: u32|
                            m < mask + 1 && #[trigger] circulant_valid(n as int, m, k as nat, ell as nat) implies exists|j: int|
                                0 <= j < d.len() && #[trigger] d[j].graph@ == circulant_edges(n as int, (n / 2) as int, m)
                                    && d[j].iteration == m by {
                            let j = choose|j: int|
                                0 <= j < before_polish.len() && #[trigger] before_polish[j].graph@ == circulant_edges(
                                    n as int,
                                    (n / 2) as int,
                                    m,
                                ) && before_polish[j].iteration == m;
                            assert(d[j] == before_polish[j]);
                        }
                    }
                    if let Some(p) = polished {
                        let pkey = four_clique_key(&p);
                        if key_lt(pkey, best_key) {
                            best_valid = Some(p);
                            best_key = pkey;
                        }
                    }
                }
            } else {
                proof {
                    assert(!circulant_valid(n as int, mask, k as nat, ell as nat));
                }
            }
            mask = mask + 1;
        }
        let mut known = known_cids;
        let kept = keep_new_discoveries(&discoveries, &mut known, &cid_of);
        proof {
            let (c, pos) = choose|c: Seq<GraphCid>, pos: Seq<int>|
                #[trigger] kept_new(cid_of, discoveries@, known_cids@, known@, kept@, c, pos);
            lemma_kept_valid(cid_of, discoveries@, known_cids@, known@, kept@, c, pos, n as int, k as nat, ell as nat);
        }
        let valid = best_valid.is_some();
        let ghost kept_view = kept@;
        let res = SearchResult { best_graph: best_valid, valid, iterations_used: total as u64, discoveries: kept };
        assert(res.discoveries@ == kept_view);
        (res, true)
    }
}

} // verus!
