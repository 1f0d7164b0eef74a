//! Beam entries of the incremental beam search: a graph together with its
//! complement, the neighbour masks of both and its violation counts, kept
//! consistent under edge flips.

use vstd::prelude::*;

use crate::adjacency::{AdjacencyMatrix, is_vertex_pair, ordered};
use crate::bits::bit64;
use crate::clique::{NeighborSet, count_cliques, graph_cliques, graph_masks, is_row_mask, lemma_graph_masks};
use crate::histogram::complement_edges;
use crate::random::toggle;

verus! {

/// Incremental beam search.
pub struct Tree2Search;

/// A graph with its complement, both neighbour-mask tables and its
/// violation counts.
pub struct BeamEntry {
    pub graph: AdjacencyMatrix,
    pub comp: AdjacencyMatrix,
    pub adj_nbrs: NeighborSet,
    pub comp_nbrs: NeighborSet,
    pub violations: u64,
    pub kc: u64,
    pub ei: u64,
}

/// Flipping bit `s` of a word reverses bit `s` and keeps the others.
pub proof fn lemma_bit_xor(x: u64, s: int, t: int)
    requires
        0 <= s < 64,
        0 <= t < 64,
    ensures
        bit64(x ^ (1u64 << (s as u64)), t) == (bit64(x, t) != (s == t)),
{
    let ss = s as u64;
    let tt = t as u64;
    assert(ss < 64 && tt < 64 ==> ((((x ^ (1u64 << ss)) >> tt) & 1u64 == 1u64) == (((x >> tt) & 1u64
        == 1u64) != (ss == tt)))) by (bit_vector);
}

/// A clique count on at most 63 vertices is below `2^63`.
proof fn lemma_count_small(masks: Seq<u64>, k: nat, n: int)
    requires
        0 <= n <= 63,
    ensures
        crate::clique::cliques_of(masks, k, n) <= 0x7fff_ffff_ffff_ffff,
{
    crate::clique::lemma_cliques_of_small(masks, k, n);
}

/// The complement of the graph with one pair reversed is the complement with
/// that pair reversed.
pub proof fn lemma_complement_toggle(edges: Set<(int, int)>, n: int, p: (int, int))
    requires
        is_vertex_pair(n, p),
    ensures
        complement_edges(toggle(edges, p), n) == toggle(complement_edges(edges, n), p),
{
    assert(complement_edges(toggle(edges, p), n) =~= toggle(complement_edges(edges, n), p));
}

/// Reversing the pair `{u, v}` in the masks of a graph gives the masks of
/// the graph with that pair reversed.
pub proof fn lemma_flip_masks(masks: Seq<u64>, edges: Set<(int, int)>, n: int, u: int, v: int)
    requires
        0 <= u < n,
        0 <= v < n,
        u != v,
        n <= 64,
        masks == graph_masks(edges, n),
        forall|w: int| 0 <= w < n ==> is_row_mask(#[trigger] masks[w], edges, n, w),
    ensures
        ({
            let m1 = masks.update(u, masks[u] ^ (1u64 << (v as u64)));
            let m2 = m1.update(v, m1[v] ^ (1u64 << (u as u64)));
            &&& m2 == graph_masks(toggle(edges, ordered(u, v)), n)
            &&& forall|w: int| 0 <= w < n ==> is_row_mask(#[trigger] m2[w], toggle(edges, ordered(u, v)), n, w)
        }),
{
    let m1 = masks.update(u, masks[u] ^ (1u64 << (v as u64)));
    let m2 = m1.update(v, m1[v] ^ (1u64 << (u as u64)));
    let e2 = toggle(edges, ordered(u, v));
    assert forall|w: int| 0 <= w < n implies is_row_mask(#[trigger] m2[w], e2, n, w) by {
        assert(is_row_mask(masks[w], edges, n, w));
        assert forall|x: int| 0 <= x < 64 implies (#[trigger] bit64(m2[w], x) <==> (x < n && w != x
            && e2.contains(ordered(w, x)))) by {
            if w == u {
                lemma_bit_xor(masks[u], v, x);
            } else if w == v {
                lemma_bit_xor(masks[v], u, x);
            }
            assert(bit64(masks[w], x) <==> (x < n && w != x && edges.contains(ordered(w, x))));
        }
    }
    lemma_graph_masks(m2, e2, n);
}

impl BeamEntry {
    /// The caches agree with the graph: the complement and both mask
    /// tables are those of the graph on its vertex count, at most 63.
    pub open spec fn wf(&self) -> bool {
        let n = self.graph.order() as int;
        &&& self.graph.wf()
        &&& self.comp.wf()
        &&& self.comp.order() == self.graph.order()
        &&& n <= 63
        &&& self.comp@ == complement_edges(self.graph@, n)
        &&& self.adj_nbrs.wf()
        &&& self.comp_nbrs.wf()
        &&& self.adj_nbrs.masks@.len() == n
        &&& self.comp_nbrs.masks@.len() == n
        &&& self.adj_nbrs.masks@ == graph_masks(self.graph@, n)
        &&& self.comp_nbrs.masks@ == graph_masks(self.comp@, n)
        &&& forall|w: int| 0 <= w < n ==> is_row_mask(#[trigger] self.adj_nbrs.masks@[w], self.graph@, n, w)
        &&& forall|w: int| 0 <= w < n ==> is_row_mask(#[trigger] self.comp_nbrs.masks@[w], self.comp@, n, w)
    }

    /// The entry for `graph`, with its `k`-clique count, its complement's
    /// `ell`-clique count and their sum.
    pub fn from_graph(graph: AdjacencyMatrix, k: u32, ell: u32) -> (r: Self)
        requires
            graph.wf(),
            graph.order() <= 63,
        ensures
            r.wf(),
            r.graph@ == graph@,
            r.graph.order() == graph.order(),
            r.kc == graph_cliques(graph@, graph.order() as int, k as nat),
            r.ei == graph_cliques(complement_edges(graph@, graph.order() as int), graph.order() as int, ell as nat),
            r.violations == r.kc + r.ei,
    {
        let comp = graph.complement();
        let adj_nbrs = NeighborSet::from_adj(&graph);
        let comp_nbrs = NeighborSet::from_adj(&comp);
        let n = graph.n();
        let kc = count_cliques(&adj_nbrs, k, n);
        let ei = count_cliques(&comp_nbrs, ell, n);
        proof {
            lemma_count_small(adj_nbrs.masks@, k as nat, n as int);
            lemma_count_small(comp_nbrs.masks@, ell as nat, n as int);
            assert forall|w: int| 0 <= w < n implies is_row_mask(#[trigger] adj_nbrs.masks@[w], graph@, n as int, w) by {
                assert forall|x: int| 0 <= x < 64 implies (#[trigger] bit64(adj_nbrs.masks@[w], x) <==> (x < n && w
                    != x && graph@.contains(ordered(w, x)))) by {}
            }
            assert forall|w: int| 0 <= w < n implies is_row_mask(#[trigger] comp_nbrs.masks@[w], comp@, n as int, w) by {
                assert forall|x: int| 0 <= x < 64 implies (#[trigger] bit64(comp_nbrs.masks@[w], x) <==> (x < n && w
                    != x && comp@.contains(ordered(w, x)))) by {}
            }
        }
        BeamEntry { graph, comp, adj_nbrs, comp_nbrs, violations: kc + ei, kc, ei }
    }

    /// Reverse the pair `{u, v}` in the graph, the complement and both mask
    /// tables; the counts are left for the caller to update.
    pub fn flip(&mut self, u: u32, v: u32)
        requires
            old(self).wf(),
            u < old(self).graph.order(),
            v < old(self).graph.order(),
            u != v,
        ensures
            final(self).wf(),
            final(self).graph.order() == old(self).graph.order(),
            final(self).graph@ == toggle(old(self).graph@, ordered(u as int, v as int)),
            final(self).violations == old(self).violations,
            final(self).kc == old(self).kc,
            final(self).ei == old(self).ei,
    {
        let ghost n = self.graph.order() as int;
        let ghost g0 = self.graph@;
        let ghost c0 = self.comp@;
        let ghost p = ordered(u as int, v as int);
        proof {
            self.graph.lemma_edges_are_pairs();
            assert(is_vertex_pair(n, p));
        }
        let cur = self.graph.edge(u, v);
        self.graph.set_edge(u, v, !cur);
        self.comp.set_edge(u, v, cur);
        self.adj_nbrs.flip_edge(u, v);
        self.comp_nbrs.flip_edge(u, v);
        proof {
            assert(self.graph@ =~= toggle(g0, p));
            lemma_complement_toggle(g0, n, p);
            assert(self.comp@ =~= toggle(c0, p));
            lemma_flip_masks(old(self).adj_nbrs.masks@, g0, n, u as int, v as int);
            lemma_flip_masks(old(self).comp_nbrs.masks@, c0, n, u as int, v as int);
        }
    }
}

} // verus!
