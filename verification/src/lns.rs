//! Large neighbourhood search: pick a random block of vertices and visit
//! every colouring of the pairs inside it, in Gray-code order so that each
//! state is one flip from the last, reporting the valid graphs met.

use vstd::prelude::*;
use vstd::std_specs::bits::u64_trailing_zeros;

use crate::adjacency::{AdjacencyMatrix, ordered};
use crate::bits::{bit64, lemma_drop_lowest_bits};
use crate::clique::{count_cliques, lemma_cliques_of_small, lemma_through_bounds, violation_delta};
use crate::gradient::{counts_exact, lemma_entry_flip};
use crate::histogram::complement_edges;
use crate::paley::{paley_candidate, paley_graph};
use crate::polish::{Findings, all_valid, four_key, key_less, lemma_kept_valid, violation_count};
use crate::random::{choose_multiple, seeded_rng, toggle};
use crate::search::{SearchResult, keep_new_discoveries, kept_new};
use crate::types::GraphCid;
use crate::tree2::BeamEntry;

verus! {

/// Large neighbourhood search over blocks of vertices.
pub struct LnsSearch;

/// The parameters of a block search round.
pub struct LnsConfig {
    /// Clique size to avoid in the graph.
    pub k: u32,
    /// Clique size to avoid in the complement.
    pub ell: u32,
    /// Vertices per block.
    pub block_size: u32,
    /// Steps of each polish walk (zero: no polishing).
    pub polish_max_steps: u32,
    /// Steps a pair stays tabu while polishing.
    pub polish_tabu_tenure: u32,
}

impl LnsConfig {
    /// The parameters a round uses when none are given.
    pub fn defaults() -> (r: Self)
        ensures
            r.k == 5,
            r.ell == 5,
            r.block_size == 6,
            r.polish_max_steps == 100,
            r.polish_tabu_tenure == 25,
    {
        LnsConfig { k: 5, ell: 5, block_size: 6, polish_max_steps: 100, polish_tabu_tenure: 25 }
    }
}

/// Most polish walks per round.
pub const MAX_LNS_POLISH: u32 = 20;

/// The block size used on `n` vertices: the configured one, at most `n`.
pub open spec fn effective_block(block_size: u32, n: u32) -> int {
    if block_size <= n {
        block_size as int
    } else {
        n as int
    }
}

/// The flips one block runs through: one per colouring of its pairs but
/// the first, `2^(b(b-1)/2) - 1` for a block of `b` vertices.
pub open spec fn block_steps(block_size: u32, n: u32) -> int {
    let b = effective_block(block_size, n);
    ((1u64 << ((b * (b - 1) / 2) as u32)) - 1) as int
}

/// A nonzero word below `2^m` has its lowest set bit below `m`.
proof fn lemma_tz_below(x: u64, m: u64)
    requires
        x != 0,
        m < 64,
        x < (1u64 << m),
    ensures
        u64_trailing_zeros(x) < m,
{
    lemma_drop_lowest_bits(x);
    let t = u64_trailing_zeros(x) as u64;
    assert(bit64(x, t as int));
    assert(t < 64 && m < 64 && (x >> t) & 1u64 == 1u64 && x < (1u64 << m) ==> t < m) by (bit_vector);
}

/// The pair of block positions `a` and `b`, smaller vertex first.
pub open spec fn block_pair(block: Seq<u32>, a: int, b: int) -> (u32, u32) {
    if block[a] < block[b] {
        (block[a], block[b])
    } else {
        (block[b], block[a])
    }
}

/// `p` is the pair of two block positions `a < b` that come before
/// `(i, j)` in row-major order.
pub open spec fn listed_before(block: Seq<u32>, i: int, j: int, p: (u32, u32)) -> bool {
    exists|a: int, b: int|
        0 <= a < b < block.len() && (a < i || (a == i && b < j)) && #[trigger] block_pair(block, a, b) == p
}

/// `r` lists the pairs of the block positions in `ab`, in row-major
/// order: `(a, b)` with `a < b`, by `a` and then by `b`.
pub open spec fn row_major(block: Seq<u32>, r: Seq<(u32, u32)>, ab: Seq<(int, int)>) -> bool {
    &&& ab.len() == r.len()
    &&& forall|t: int| 0 <= t < r.len() ==> 0 <= (#[trigger] ab[t]).0 < ab[t].1 < block.len() && r[t] == block_pair(block, ab[t].0, ab[t].1)
    &&& forall|s: int, t: int| 0 <= s < t < r.len() ==> (#[trigger] ab[s]).0 < (#[trigger] ab[t]).0 || (ab[s].0 == ab[t].0 && ab[s].1 < ab[t].1)
}

/// The pairs inside a block, each ordered: every pair of two distinct
/// block vertices, smaller first, exactly once, in the row-major order of
/// their positions in the block.
fn block_pairs(block: &Vec<u32>, n: u32) -> (r: Vec<(u32, u32)>)
    requires
        block@.no_duplicates(),
        forall|i: int| 0 <= i < block@.len() ==> #[trigger] block@[i] < n,
    ensures
        r@.len() == block@.len() * (block@.len() - 1) / 2,
        forall|i: int| 0 <= i < r@.len() ==> (#[trigger] r@[i]).0 < r@[i].1 < n,
        forall|x: u32, y: u32| #[trigger] r@.contains((x, y)) <==> x < y && block@.contains(x) && block@.contains(y),
        r@.no_duplicates(),
        exists|ab: Seq<(int, int)>| #[trigger] row_major(block@, r@, ab),
{
    let mut r: Vec<(u32, u32)> = Vec::new();
    let mut i: usize = 0;
    let ghost len = block@.len() as int;
    let ghost bl = block@;
    let ghost mut ab: Seq<(int, int)> = Seq::empty();
    while i < block.len()
        invariant
            i <= block@.len(),
            len == block@.len(),
            bl == block@,
            block@.no_duplicates(),
            forall|j: int| 0 <= j < block@.len() ==> #[trigger] block@[j] < n,
            forall|j: int| 0 <= j < r@.len() ==> (#[trigger] r@[j]).0 < r@[j].1 < n,
            r@.len() == i * (2 * len - i - 1) / 2,
            r@.no_duplicates(),
            forall|p: (u32, u32)| #[trigger] r@.contains(p) <==> listed_before(bl, i as int, 0, p),
            row_major(bl, r@, ab),
            forall|t: int| 0 <= t < ab.len() ==> (#[trigger] ab[t]).0 < i,
        decreases block@.len() - i,
    {
        let mut j: usize = i + 1;
        let ghost start = r@.len();
        proof {
            assert forall|p: (u32, u32)| listed_before(bl, i as int, 0, p) <==> listed_before(bl, i as int, i + 1, p) by {
                if listed_before(bl, i as int, i + 1, p) {
                    let (a, b) = choose|a: int, b: int|
                        0 <= a < b < bl.len() && (a < i || (a == i && b < i + 1)) && #[trigger] block_pair(bl, a, b) == p;
                    assert(a < i);
                }
                if listed_before(bl, i as int, 0, p) {
                    let (a, b) = choose|a: int, b: int|
                        0 <= a < b < bl.len() && (a < i || (a == i && b < 0)) && #[trigger] block_pair(bl, a, b) == p;
                    assert(block_pair(bl, a, b) == p);
                }
            }
        }
        while j < block.len()
            invariant
                i < block@.len(),
                i + 1 <= j <= block@.len(),
                len == block@.len(),
                bl == block@,
                block@.no_duplicates(),
                forall|t: int| 0 <= t < block@.len() ==> #[trigger] block@[t] < n,
                forall|t: int| 0 <= t < r@.len() ==> (#[trigger] r@[t]).0 < r@[t].1 < n,
                r@.len() == start + (j - i - 1),
                start == i * (2 * len - i - 1) / 2,
                r@.no_duplicates(),
                forall|p: (u32, u32)| #[trigger] r@.contains(p) <==> listed_before(bl, i as int, j as int, p),
                row_major(bl, r@, ab),
                forall|t: int| 0 <= t < ab.len() ==> (#[trigger] ab[t]).0 < i || (ab[t].0 == i && ab[t].1 < j),
            decreases block@.len() - j,
        {
            let a = block[i];
            let b = block[j];
            assert(a != b) by {
                assert(block@[i as int] != block@[j as int]);
            }
            let ghost before = r@;
            let ghost q = block_pair(bl, i as int, j as int);
            proof {
                if before.contains(q) {
                    let (a0, b0) = choose|a0: int, b0: int|
                        0 <= a0 < b0 < bl.len() && (a0 < i || (a0 == i && b0 < j)) && #[trigger] block_pair(bl, a0, b0) == q;
                    assert(bl[a0] == bl[i as int] || bl[a0] == bl[j as int]);
                    assert(bl[b0] == bl[i as int] || bl[b0] == bl[j as int]);
                    assert(false);
                }
            }
            if a < b {
                r.push((a, b));
            } else {
                r.push((b, a));
            }
            proof {
                let ab0 = ab;
                ab = ab.push((i as int, j as int));
                assert forall|t: int| 0 <= t < r@.len() implies 0 <= (#[trigger] ab[t]).0 < ab[t].1 < bl.len() && r@[t] == block_pair(bl, ab[t].0, ab[t].1) by {
                    if t < ab0.len() {
                        assert(ab[t] == ab0[t]);
                        assert(r@[t] == before[t]);
                    }
                }
                assert forall|s: int, t: int| 0 <= s < t < r@.len() implies (#[trigger] ab[s]).0 < (#[trigger] ab[t]).0 || (ab[s].0 == ab[t].0 && ab[s].1 < ab[t].1) by {
                    assert(ab[s] == ab0[s]);
                    if t < ab0.len() {
                        assert(ab[t] == ab0[t]);
                    }
                }
                assert forall|t: int| 0 <= t < ab.len() implies (#[trigger] ab[t]).0 < i || (ab[t].0 == i && ab[t].1 < j + 1) by {
                    if t < ab0.len() {
                        assert(ab[t] == ab0[t]);
                    }
                }
                assert(r@ == before.push(q));
                assert forall|s: int, t: int| 0 <= s < t < r@.len() implies r@[s] != r@[t] by {
                    if t == r@.len() - 1 {
                        assert(r@[s] == before[s]);
                        assert(before.contains(before[s]));
                    } else {
                        assert(r@[s] == before[s] && r@[t] == before[t]);
                    }
                }
                assert forall|p: (u32, u32)| #[trigger] r@.contains(p) <==> listed_before(bl, i as int, j + 1, p) by {
                    if r@.contains(p) {
                        let w = choose|w: int| 0 <= w < r@.len() && r@[w] == p;
                        if w < before.len() {
                            assert(before[w] == p);
                            assert(before.contains(p));
                            let (a0, b0) = choose|a0: int, b0: int|
                                0 <= a0 < b0 < bl.len() && (a0 < i || (a0 == i && b0 < j)) && #[trigger] block_pair(bl, a0, b0) == p;
                            assert(block_pair(bl, a0, b0) == p);
                        } else {
                            assert(block_pair(bl, i as int, j as int) == p);
                        }
                    }
                    if listed_before(bl, i as int, j + 1, p) {
                        let (a0, b0) = choose|a0: int, b0: int|
                            0 <= a0 < b0 < bl.len() && (a0 < i || (a0 == i && b0 < j + 1)) && #[trigger] block_pair(bl, a0, b0) == p;
                        if a0 == i && b0 == j {
                            assert(r@[r@.len() - 1] == p);
                        } else {
                            assert(listed_before(bl, i as int, j as int, p));
                            assert(before.contains(p));
                            let w = choose|w: int| 0 <= w < before.len() && before[w] == p;
                            assert(r@[w] == p);
                        }
                    }
                }
            }
            j = j + 1;
        }
        proof {
            assert forall|p: (u32, u32)| listed_before(bl, i as int, len, p) <==> listed_before(bl, i + 1, 0, p) by {
                if listed_before(bl, i as int, len, p) {
                    let (a0, b0) = choose|a0: int, b0: int|
                        0 <= a0 < b0 < bl.len() && (a0 < i || (a0 == i && b0 < len)) && #[trigger] block_pair(bl, a0, b0) == p;
                    assert(block_pair(bl, a0, b0) == p);
                }
                if listed_before(bl, i + 1, 0, p) {
                    let (a0, b0) = choose|a0: int, b0: int|
                        0 <= a0 < b0 < bl.len() && (a0 < i + 1 || (a0 == i + 1 && b0 < 0)) && #[trigger] block_pair(bl, a0, b0) == p;
                    assert(block_pair(bl, a0, b0) == p);
                }
            }
        }
        assert((i + 1) * (2 * len - (i + 1) - 1) / 2 == i * (2 * len - i - 1) / 2 + (len - i - 1)) by (nonlinear_arith)
            requires
                0 <= i < len,
        ;
        i = i + 1;
    }
    assert(len * (2 * len - len - 1) / 2 == len * (len - 1) / 2);
    proof {
        assert forall|x: u32, y: u32| #[trigger] r@.contains((x, y)) <==> x < y && bl.contains(x) && bl.contains(y) by {
            if r@.contains((x, y)) {
                assert(listed_before(bl, len, 0, (x, y)));
                let (a0, b0) = choose|a0: int, b0: int|
                    0 <= a0 < b0 < bl.len() && (a0 < len || (a0 == len && b0 < 0)) && #[trigger] block_pair(bl, a0, b0) == (x, y);
                assert(bl[a0] != bl[b0]);
                assert(bl.contains(bl[a0]) && bl.contains(bl[b0]));
            }
            if x < y && bl.contains(x) && bl.contains(y) {
                let s = choose|s: int| 0 <= s < bl.len() && bl[s] == x;
                let t = choose|t: int| 0 <= t < bl.len() && bl[t] == y;
                assert(s != t);
                if s < t {
                    assert(block_pair(bl, s, t) == (x, y));
                } else {
                    assert(block_pair(bl, t, s) == (x, y));
                }
                assert(listed_before(bl, len, 0, (x, y)));
            }
        }
    }
    r
}

/// The pair of `edges` that step `s` of a Gray-code walk flips: the one
/// at the position of the lowest set bit of `s`.
pub open spec fn gray_pair(edges: Seq<(u32, u32)>, s: int) -> (int, int) {
    let p = edges[u64_trailing_zeros(s as u64) as int];
    ordered(p.0 as int, p.1 as int)
}

/// `gs` is the Gray-code walk over the pairs `edges` from `g0`: each state
/// follows from the one before by flipping the pair of its step.
pub open spec fn gray_walk(g0: Set<(int, int)>, edges: Seq<(u32, u32)>, gs: Seq<Set<(int, int)>>) -> bool {
    &&& gs.len() >= 1
    &&& gs[0] == g0
    &&& forall|s: int| 1 <= s < gs.len() ==> #[trigger] gs[s] == toggle(gs[s - 1], gray_pair(edges, s))
}

/// What every block search satisfies, given the seed `g0`, the blocks'
/// pair lists `blks` and their walks `walks`: each block of `m` pairs of
/// `0..n` walks all `steps + 1` colourings from the seed in Gray-code
/// order, one block per `steps` iterations; when the seed or any graph of
/// a walk is valid, something valid was found.
pub open spec fn lns_outcome(
    n: int,
    k: nat,
    ell: nat,
    m: int,
    steps: int,
    init: Option<AdjacencyMatrix>,
    r: SearchResult,
    g0: Set<(int, int)>,
    blks: Seq<Seq<(u32, u32)>>,
    walks: Seq<Seq<Set<(int, int)>>>,
) -> bool {
    &&& init matches Some(g) ==> g0 == g@
    &&& blks.len() == walks.len()
    &&& r.iterations_used == walks.len() * steps
    &&& forall|b: int| 0 <= b < blks.len() ==> #[trigger] block_ok(g0, blks[b], walks[b], m, n, steps + 1)
    &&& (violation_count(g0, n, k, ell) == 0 || exists|b: int, s: int|
        0 <= b < walks.len() && 0 <= s < walks[b].len() && violation_count(#[trigger] walks[b][s], n, k, ell) == 0)
        ==> r.valid
}

/// One block: `m` pairs of `0..n`, walked through all `total` colourings
/// from `g0`.
pub open spec fn block_ok(g0: Set<(int, int)>, edges: Seq<(u32, u32)>, walk: Seq<Set<(int, int)>>, m: int, n: int, total: int) -> bool {
    &&& edges.len() == m
    &&& forall|i: int| 0 <= i < m ==> (#[trigger] edges[i]).0 < edges[i].1 < n
    &&& walk.len() == total
    &&& gray_walk(g0, edges, walk)
}

/// Every block so far is a `block_ok` block.
pub open spec fn blocks_ok(
    g0: Set<(int, int)>,
    blks: Seq<Seq<(u32, u32)>>,
    walks: Seq<Seq<Set<(int, int)>>>,
    m: int,
    n: int,
    total: int,
) -> bool {
    &&& blks.len() == walks.len()
    &&& forall|b: int| 0 <= b < blks.len() ==> #[trigger] block_ok(g0, blks[b], walks[b], m, n, total)
}

/// The pair `p` is one of the pairs of `edges`.
pub open spec fn among(edges: Seq<(u32, u32)>, p: (int, int)) -> bool {
    exists|t: int| 0 <= t < edges.len() && ordered(edges[t].0 as int, edges[t].1 as int) == p
}

impl LnsSearch {
    /// Visit blocks while the budget allows a full block: each picks
    /// `min(block_size, n)` random vertices and runs through all colourings
    /// of the pairs inside it in Gray-code order, one flip per iteration,
    /// reporting (and polishing, up to twenty walks) every valid graph met,
    /// then puts the block back as it was. The seed is `init_graph`, or the
    /// Paley graph on `n` vertices, and is reported when valid. The best
    /// graph is the valid one with the lowest `(max, min)` 4-clique counts.
    /// Of the graphs found (`found`), only those whose CID (`cid_of`, meant
    /// to name the isomorphism class) is not among `known_cids` nor that of
    /// an earlier one are handed back.
    pub fn search<F: Fn(&AdjacencyMatrix) -> GraphCid>(
        &self,
        n: u32,
        max_iters: u64,
        seed: u64,
        init_graph: Option<AdjacencyMatrix>,
        cfg: &LnsConfig,
        known_cids: Vec<GraphCid>,
        cid_of: F,
    ) -> (r: SearchResult)
        requires
            2 <= n <= 63,
            2 <= effective_block(cfg.block_size, n) <= 11,
            init_graph matches Some(g) ==> g.wf() && g.order() == n,
            init_graph is None ==> exists|q: int|
                (if n >= 5 {
                    n as int
                } else {
                    5
                }) <= q <= u32::MAX && #[trigger] paley_candidate(q),
            cfg.polish_max_steps + cfg.polish_tabu_tenure <= u32::MAX,
            forall|g: &AdjacencyMatrix| g.wf() ==> #[trigger] cid_of.requires((g,)),
        ensures
            all_valid(r.discoveries@, n as int, cfg.k as nat, cfg.ell as nat),
            r.iterations_used <= max_iters,
            r.valid <==> r.best_graph is Some,
            r.best_graph matches Some(g) ==> g.wf() && g.order() == n && violation_count(
                g@,
                n as int,
                cfg.k as nat,
                cfg.ell as nat,
            ) == 0,
            r.iterations_used == (max_iters as int / block_steps(cfg.block_size, n)) * block_steps(cfg.block_size, n),
            exists|found: SearchResult, g0: Set<(int, int)>, blks: Seq<Seq<(u32, u32)>>, walks: Seq<Seq<Set<(int, int)>>>|
                #[trigger] lns_outcome(
                    n as int,
                    cfg.k as nat,
                    cfg.ell as nat,
                    effective_block(cfg.block_size, n) * (effective_block(cfg.block_size, n) - 1) / 2,
                    block_steps(cfg.block_size, n),
                    init_graph,
                    found,
                    g0,
                    blks,
                    walks,
                ) && found.best_graph == r.best_graph && found.valid == r.valid && found.iterations_used
                    == r.iterations_used && (r.valid <==> found.discoveries@.len() > 0) && ((init_graph matches Some(g)
                    && violation_count(g@, n as int, cfg.k as nat, cfg.ell as nat) == 0) ==> {
                    &&& r.valid
                    &&& found.discoveries@[0].graph@ == init_graph->0@
                    &&& found.discoveries@[0].iteration == 0
                }) && (r.best_graph matches Some(b) ==> forall|i: int|
                    0 <= i < found.discoveries@.len() ==> !key_less(
                    four_key((#[trigger] found.discoveries@[i]).graph@, n as int),
                    four_key(b@, n as int),
                )) && exists|known1: Seq<GraphCid>, c: Seq<GraphCid>, pos: Seq<int>|
                    #[trigger] kept_new(cid_of, found.discoveries@, known_cids@, known1, r.discoveries@, c, pos),
    {
        let k = cfg.k;
        let ell = cfg.ell;
        let bs = if cfg.block_size <= n {
            cfg.block_size
        } else {
            n
        };
        assert(bs * (bs - 1) <= 110) by (nonlinear_arith)
            requires
                2 <= bs <= 11,
        ;
        let m: u32 = bs * (bs - 1) / 2;
        assert(m < 64) by (nonlinear_arith)
            requires
                2 <= bs <= 11,
                m == bs * (bs - 1) / 2,
        ;
        assert(m >= 1) by (nonlinear_arith)
            requires
                2 <= bs,
                m == bs * (bs - 1) / 2,
        ;
        let total_states: u64 = 1u64 << m;
        assert(total_states >= 2) by (bit_vector)
            requires
                1 <= m < 64,
                total_states == 1u64 << m,
        ;
        let mut rng = seeded_rng(seed);
        let graph = match init_graph {
            Some(g) => g,
            None => {
                assert(n * (n - 1) <= 63 * 62) by (nonlinear_arith)
                    requires
                        2 <= n <= 63,
                ;
                paley_graph(n)
            },
        };
        let mut e = BeamEntry::from_graph(graph, k, ell);
        let mut findings = Findings::new();
        let mut vertices: Vec<u32> = Vec::new();
        let mut x: u32 = 0;
        while x < n
            invariant
                x <= n,
                vertices@.len() == x,
                forall|i: int| 0 <= i < vertices@.len() ==> #[trigger] vertices@[i] == i,
            decreases n - x,
        {
            vertices.push(x);
            x = x + 1;
        }
        assert(vertices@.no_duplicates());
        let mut iters_used: u64 = 0;
        let ghost seed_edges = e.graph@;
        if e.violations == 0 {
            findings.report_valid(&e.graph, k, ell, 0, 0, MAX_LNS_POLISH, 0);
        }
        let ghost first = findings.discoveries@[0];
        let ghost seed_valid = e.violations == 0;
        let ghost mut blocks: int = 0;
        let ghost mut blks: Seq<Seq<(u32, u32)>> = Seq::empty();
        let ghost mut walks: Seq<Seq<Set<(int, int)>>> = Seq::empty();
        assert(total_states - 1 == block_steps(cfg.block_size, n));
        while total_states - 1 <= max_iters - iters_used
            invariant
                2 <= n <= 63,
                k == cfg.k,
                ell == cfg.ell,
                2 <= bs <= 11,
                bs <= n,
                m == bs * (bs - 1) / 2,
                1 <= m < 64,
                total_states == 1u64 << m,
                total_states >= 2,
                vertices@.len() == n,
                vertices@.no_duplicates(),
                forall|i: int| 0 <= i < vertices@.len() ==> #[trigger] vertices@[i] == i,
                cfg.polish_max_steps + cfg.polish_tabu_tenure <= u32::MAX,
                e.wf(),
                e.graph.order() == n,
                iters_used <= max_iters,
                findings.inv(n as int, k as nat, ell as nat),
                findings.lowest(n as int),
                findings.best is Some <==> findings.discoveries@.len() > 0,
                blocks >= 0,
                iters_used == blocks * (total_states - 1),
                seed_valid ==> findings.discoveries@.len() >= 1 && findings.discoveries@[0] == first,
                seed_valid == (violation_count(seed_edges, n as int, k as nat, ell as nat) == 0),
                e.graph@ == seed_edges,
                blks.len() == blocks,
                walks.len() == blocks,
                blocks_ok(seed_edges, blks, walks, m as int, n as int, total_states as int),
                (exists|b: int, s: int|
                    0 <= b < walks.len() && 0 <= s < walks[b].len() && violation_count(#[trigger] walks[b][s], n as int, k as nat, ell as nat) == 0)
                    ==> findings.discoveries@.len() > 0,
            decreases max_iters - iters_used,
        {
            let block = choose_multiple(&mut rng, vertices.as_slice(), bs as usize);
            proof {
                assert forall|i: int| 0 <= i < block@.len() implies #[trigger] block@[i] < n by {
                    assert(vertices@.contains(block@[i]));
                }
            }
            let edges = block_pairs(&block, n);
            let mut original_states: Vec<bool> = Vec::new();
            let mut t: usize = 0;
            while t < edges.len()
                invariant
                    t <= edges@.len(),
                    original_states@.len() == t,
                    blks.len() == walks.len(),
                    blocks_ok(seed_edges, blks, walks, m as int, n as int, total_states as int),
                    (exists|b: int, s: int|
                        0 <= b < walks.len() && 0 <= s < walks[b].len() && violation_count(#[trigger] walks[b][s], n as int, k as nat, ell as nat) == 0)
                        ==> findings.discoveries@.len() > 0,
                    e.wf(),
                    e.graph.order() == n,
                    e.graph@ == seed_edges,
                    forall|i: int| 0 <= i < edges@.len() ==> (#[trigger] edges@[i]).0 < edges@[i].1 < n,
                    forall|i: int|
                        0 <= i < t ==> #[trigger] original_states@[i] == seed_edges.contains(
                            ordered(edges@[i].0 as int, edges@[i].1 as int),
                        ),
                decreases edges@.len() - t,
            {
                let (u, v) = edges[t];
                original_states.push(e.graph.edge(u, v));
                t = t + 1;
            }
            proof {
                lemma_cliques_of_small(e.adj_nbrs.masks@, k as nat, n as int);
                lemma_cliques_of_small(e.comp_nbrs.masks@, ell as nat, n as int);
            }
            let mut kc = count_cliques(&e.adj_nbrs, k, n) as i64;
            let mut ei = count_cliques(&e.comp_nbrs, ell, n) as i64;
            let ghost block_start = iters_used;
            proof {
                assert(t == edges@.len());
                if violation_count(seed_edges, n as int, k as nat, ell as nat) == 0 {
                    assert(findings.discoveries@.len() >= 1);
                }
            }
            let mut step: u64 = 1;
            let ghost mut gs: Seq<Set<(int, int)>> = seq![e.graph@];
            while step < total_states
                invariant
                    blks.len() == walks.len(),
                    blocks_ok(seed_edges, blks, walks, m as int, n as int, total_states as int),
                    (exists|b: int, s: int|
                        0 <= b < walks.len() && 0 <= s < walks[b].len() && violation_count(#[trigger] walks[b][s], n as int, k as nat, ell as nat) == 0)
                        ==> findings.discoveries@.len() > 0,
                    seed_valid == (violation_count(seed_edges, n as int, k as nat, ell as nat) == 0),
                    gs.len() == step,
                    gs[0] == seed_edges,
                    gs[step - 1] == e.graph@,
                    forall|s: int| 1 <= s < gs.len() ==> #[trigger] gs[s] == toggle(gs[s - 1], gray_pair(edges@, s)),
                    forall|p: (int, int)| !among(edges@, p) ==> (#[trigger] e.graph@.contains(p) == seed_edges.contains(p)),
                    (exists|s: int| 0 <= s < gs.len() && violation_count(#[trigger] gs[s], n as int, k as nat, ell as nat) == 0)
                        ==> findings.discoveries@.len() > 0,
                    original_states@.len() == edges@.len(),
                    forall|i: int|
                        0 <= i < edges@.len() ==> #[trigger] original_states@[i] == seed_edges.contains(
                            ordered(edges@[i].0 as int, edges@[i].1 as int),
                        ),
                    1 <= step <= total_states,
                    2 <= n <= 63,
                    k == cfg.k,
                    ell == cfg.ell,
                    1 <= m < 64,
                    total_states == 1u64 << m,
                    edges@.len() == m,
                    forall|i: int| 0 <= i < edges@.len() ==> (#[trigger] edges@[i]).0 < edges@[i].1 < n,
                    cfg.polish_max_steps + cfg.polish_tabu_tenure <= u32::MAX,
                    e.wf(),
                    e.graph.order() == n,
                    kc >= 0,
                    ei >= 0,
                    counts_exact(e, k as nat, kc as u64, ell as nat, ei as u64),
                    iters_used + (total_states - step) <= max_iters,
                    iters_used == block_start + (step - 1),
                    findings.inv(n as int, k as nat, ell as nat),
                    findings.lowest(n as int),
                findings.lowest(n as int),
                    findings.best is Some <==> findings.discoveries@.len() > 0,
                    seed_valid ==> findings.discoveries@.len() >= 1 && findings.discoveries@[0] == first,
                decreases total_states - step,
            {
                proof {
                    lemma_tz_below(step, m as u64);
                }
                let bit = step.trailing_zeros() as usize;
                let (u, v) = edges[bit];
                proof {
                    lemma_through_bounds(e.adj_nbrs.masks@, k as nat, u as int, v as int, true);
                    lemma_through_bounds(e.comp_nbrs.masks@, ell as nat, u as int, v as int, true);
                    lemma_through_bounds(e.comp_nbrs.masks@, ell as nat, u as int, v as int, false);
                    lemma_entry_flip(e, k as nat, ell as nat, u as int, v as int);
                    lemma_cliques_of_small(
                        crate::clique::graph_masks(toggle(e.graph@, ordered(u as int, v as int)), n as int),
                        k as nat,
                        n as int,
                    );
                    lemma_cliques_of_small(
                        crate::clique::graph_masks(
                            complement_edges(toggle(e.graph@, ordered(u as int, v as int)), n as int),
                            n as int,
                        ),
                        ell as nat,
                        n as int,
                    );
                }
                let (dk, de) = violation_delta(&e.adj_nbrs, &e.comp_nbrs, k, ell, u, v);
                let ghost g_prev = e.graph@;
                e.flip(u, v);
                proof {
                    assert(bit == u64_trailing_zeros(step));
                    assert(gray_pair(edges@, step as int) == ordered(u as int, v as int));
                    assert forall|p: (int, int)| !among(edges@, p) implies (#[trigger] e.graph@.contains(p) == seed_edges.contains(p)) by {
                        if p == ordered(u as int, v as int) {
                            assert(among(edges@, p));
                        }
                    }
                }
                kc = kc + dk;
                ei = ei + de;
                iters_used = iters_used + 1;
                if kc <= 0 && ei <= 0 {
                    proof {
                        lemma_cliques_of_small(e.adj_nbrs.masks@, k as nat, n as int);
                        lemma_cliques_of_small(e.comp_nbrs.masks@, ell as nat, n as int);
                    }
                    let actual_kc = count_cliques(&e.adj_nbrs, k, n);
                    let actual_ei = count_cliques(&e.comp_nbrs, ell, n);
                    kc = actual_kc as i64;
                    ei = actual_ei as i64;
                    if actual_kc == 0 && actual_ei == 0 {
                        let ghost before = findings.discoveries@;
                        findings.report_valid(
                            &e.graph,
                            k,
                            ell,
                            cfg.polish_max_steps,
                            cfg.polish_tabu_tenure,
                            MAX_LNS_POLISH,
                            iters_used,
                        );
                        proof {
                            if seed_valid {
                                assert(findings.discoveries@.take(before.len() as int)[0] == before[0]);
                            }
                        }
                    }
                }
                proof {
                    let g0 = gs;
                    gs = gs.push(e.graph@);
                    assert forall|s2: int| 1 <= s2 < gs.len() implies #[trigger] gs[s2] == toggle(gs[s2 - 1], gray_pair(edges@, s2)) by {
                        if s2 < g0.len() {
                            assert(gs[s2] == g0[s2] && gs[s2 - 1] == g0[s2 - 1]);
                        }
                    }
                    if exists|s2: int| 0 <= s2 < gs.len() && violation_count(#[trigger] gs[s2], n as int, k as nat, ell as nat) == 0 {
                        let s2 = choose|s2: int| 0 <= s2 < gs.len() && violation_count(#[trigger] gs[s2], n as int, k as nat, ell as nat) == 0;
                        if s2 < g0.len() {
                            assert(gs[s2] == g0[s2]);
                        }
                    }
                }
                step = step + 1;
            }
            let mut t: usize = 0;
            while t < edges.len()
                invariant
                    t <= edges@.len(),
                    original_states@.len() == edges@.len(),
                    blks.len() == walks.len(),
                    blocks_ok(seed_edges, blks, walks, m as int, n as int, total_states as int),
                    (exists|b: int, s: int|
                        0 <= b < walks.len() && 0 <= s < walks[b].len() && violation_count(#[trigger] walks[b][s], n as int, k as nat, ell as nat) == 0)
                        ==> findings.discoveries@.len() > 0,
                    gs.len() == total_states,
                    (exists|s: int| 0 <= s < gs.len() && violation_count(#[trigger] gs[s], n as int, k as nat, ell as nat) == 0)
                        ==> findings.discoveries@.len() > 0,
                    gray_walk(seed_edges, edges@, gs),
                    edges@.len() == m,
                    e.wf(),
                    e.graph.order() == n,
                    forall|i: int| 0 <= i < edges@.len() ==> (#[trigger] edges@[i]).0 < edges@[i].1 < n,
                    forall|i: int|
                        0 <= i < edges@.len() ==> #[trigger] original_states@[i] == seed_edges.contains(
                            ordered(edges@[i].0 as int, edges@[i].1 as int),
                        ),
                    forall|i: int|
                        0 <= i < t ==> e.graph@.contains(ordered(edges@[i].0 as int, edges@[i].1 as int))
                            == #[trigger] original_states@[i],
                    forall|p: (int, int)| !among(edges@, p) ==> (#[trigger] e.graph@.contains(p) == seed_edges.contains(p)),
                decreases edges@.len() - t,
            {
                let (u, v) = edges[t];
                let ghost g_prev = e.graph@;
                if e.graph.edge(u, v) != original_states[t] {
                    e.flip(u, v);
                }
                proof {
                    let q = ordered(u as int, v as int);
                    assert(e.graph@.contains(q) == original_states@[t as int]);
                    assert forall|i: int|
                        0 <= i < t + 1 implies e.graph@.contains(ordered(edges@[i].0 as int, edges@[i].1 as int))
                            == #[trigger] original_states@[i] by {
                        if i < t && ordered(edges@[i].0 as int, edges@[i].1 as int) != q {
                            assert(g_prev.contains(ordered(edges@[i].0 as int, edges@[i].1 as int)) == original_states@[i]);
                        }
                    }
                    assert forall|p: (int, int)| !among(edges@, p) implies (#[trigger] e.graph@.contains(p) == seed_edges.contains(p)) by {
                        if p == q {
                            assert(among(edges@, p));
                        }
                        assert(g_prev.contains(p) == seed_edges.contains(p));
                    }
                }
                t = t + 1;
            }
            proof {
                assert forall|p: (int, int)| e.graph@.contains(p) == seed_edges.contains(p) by {
                    if among(edges@, p) {
                        let i = choose|i: int| 0 <= i < edges@.len() && ordered(edges@[i].0 as int, edges@[i].1 as int) == p;
                        assert(original_states@[i] == seed_edges.contains(p));
                    }
                }
                assert(e.graph@ =~= seed_edges);
                let b0 = blks;
                let w0 = walks;
                blks = blks.push(edges@);
                walks = walks.push(gs);
                assert forall|b: int| 0 <= b < blks.len() implies #[trigger] block_ok(seed_edges, blks[b], walks[b], m as int, n as int, total_states as int) by {
                    if b < b0.len() {
                        assert(blks[b] == b0[b] && walks[b] == w0[b]);
                        assert(block_ok(seed_edges, b0[b], w0[b], m as int, n as int, total_states as int));
                    }
                }
                if exists|b: int, s2: int|
                    0 <= b < walks.len() && 0 <= s2 < walks[b].len() && violation_count(#[trigger] walks[b][s2], n as int, k as nat, ell as nat) == 0 {
                    let (b, s2) = choose|b: int, s2: int|
                        0 <= b < walks.len() && 0 <= s2 < walks[b].len() && violation_count(#[trigger] walks[b][s2], n as int, k as nat, ell as nat) == 0;
                    if b < w0.len() {
                        assert(walks[b] == w0[b]);
                        assert(violation_count(w0[b][s2], n as int, k as nat, ell as nat) == 0);
                    } else {
                        assert(walks[b] == gs);
                        assert(violation_count(gs[s2], n as int, k as nat, ell as nat) == 0);
                    }
                }
            }
            proof {
                blocks = blocks + 1;
                assert(iters_used == blocks * (total_states - 1)) by (nonlinear_arith)
                    requires
                        iters_used == (blocks - 1) * (total_states - 1) + (total_states - 1),
                ;
            }
        }
        proof {
            let d = (total_states - 1) as int;
            vstd::arithmetic::div_mod::lemma_fundamental_div_mod_converse(
                max_iters as int,
                d,
                blocks,
                max_iters - iters_used,
            );
        }
        let Findings { discoveries, best, .. } = findings;
        let valid = best.is_some();
        let found = SearchResult { best_graph: best, valid, iterations_used: iters_used, discoveries };
        let ghost r = found;
        proof {
            if seed_valid {
                assert(r.valid);
            }
            assert(bs as int == effective_block(cfg.block_size, n));
            assert(m as int == effective_block(cfg.block_size, n) * (effective_block(cfg.block_size, n) - 1) / 2);
            assert(r.iterations_used == walks.len() * block_steps(cfg.block_size, n));
            assert(lns_outcome(
                n as int,
                k as nat,
                ell as nat,
                effective_block(cfg.block_size, n) * (effective_block(cfg.block_size, n) - 1) / 2,
                block_steps(cfg.block_size, n),
                init_graph,
                r,
                seed_edges,
                blks,
                walks,
            ));
        }
        let SearchResult { best_graph, valid, iterations_used, discoveries } = found;
        let mut known = known_cids;
        let kept = keep_new_discoveries(&discoveries, &mut known, &cid_of);
        let ghost kept_view = kept@;
        proof {
            let (c, pos) = choose|c: Seq<GraphCid>, pos: Seq<int>|
                #[trigger] kept_new(cid_of, discoveries@, known_cids@, known@, kept@, c, pos);
            lemma_kept_valid(cid_of, discoveries@, known_cids@, known@, kept@, c, pos, n as int, cfg.k as nat, cfg.ell as nat);
        }
        let res = SearchResult { best_graph, valid, iterations_used, discoveries: kept };
        proof {
            assert(res.discoveries@ == kept_view);
            assert(r.discoveries@ == discoveries@);
        }
        res
    }
}

} // verus!
