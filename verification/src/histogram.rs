//! The 2-colour clique histogram: for each clique size `k` from 3 up, the
//! number of `k`-cliques of the graph ("red") and of its complement
//! ("blue").

use vstd::prelude::*;

use crate::adjacency::{AdjacencyMatrix, all_pairs};
use crate::clique::{NeighborSet, count_cliques, graph_cliques, lemma_clique_count_fits};

verus! {

/// Counts for one clique size.
#[derive(Clone, Copy, Debug, PartialEq, Eq)]
pub struct HistogramTier {
    /// The clique size `k`.
    pub k: u32,
    /// Number of `k`-cliques of the graph.
    pub red: u64,
    /// Number of `k`-cliques of the complement.
    pub blue: u64,
}

/// Tiers for `k = 3, 4, ...`, with the empty tiers at the top removed.
#[derive(Clone, Debug, PartialEq, Eq)]
pub struct CliqueHistogram {
    pub tiers: Vec<HistogramTier>,
    /// Vertex count of the graph.
    pub n: u32,
}

/// The edges missing from `edges` on `0..n`.
pub open spec fn complement_edges(edges: Set<(int, int)>, n: int) -> Set<(int, int)> {
    all_pairs(n).difference(edges)
}

/// Taking the complement twice gives the graph back.
pub proof fn lemma_complement_involution(edges: Set<(int, int)>, n: int)
    requires
        edges.subset_of(all_pairs(n)),
    ensures
        complement_edges(complement_edges(edges, n), n) == edges,
{
    assert(complement_edges(complement_edges(edges, n), n) =~= edges);
}

/// The tier for clique size `k` of the graph with edge set `edges`.
pub open spec fn tier_of(edges: Set<(int, int)>, n: int, k: int) -> HistogramTier {
    HistogramTier {
        k: k as u32,
        red: graph_cliques(edges, n, k as nat) as u64,
        blue: graph_cliques(complement_edges(edges, n), n, k as nat) as u64,
    }
}

/// The tiers for `k = 3..=max_k`, before trimming.
pub open spec fn all_tiers(edges: Set<(int, int)>, n: int, max_k: int) -> Seq<HistogramTier> {
    Seq::new(
        if max_k >= 3 {
            (max_k - 2) as nat
        } else {
            0
        },
        |i: int| tier_of(edges, n, i + 3),
    )
}

/// `s` without its trailing tiers whose counts are both zero.
pub open spec fn trim_zero(s: Seq<HistogramTier>) -> Seq<HistogramTier>
    decreases s.len(),
{
    if s.len() > 0 && s.last().red == 0 && s.last().blue == 0 {
        trim_zero(s.drop_last())
    } else {
        s
    }
}

/// No tier has a `k`-clique in red or an `ell`-clique in blue.
pub open spec fn ramsey_valid(tiers: Seq<HistogramTier>, k: u32, ell: u32) -> bool {
    forall|i: int|
        0 <= i < tiers.len() ==> !(#[trigger] tiers[i].k == k && tiers[i].red > 0) && !(tiers[i].k == ell
            && tiers[i].blue > 0)
}

/// Trimming keeps a prefix and leaves no empty tier on top.
pub proof fn lemma_trim_zero(s: Seq<HistogramTier>)
    ensures
        trim_zero(s).len() <= s.len(),
        trim_zero(s) == s.take(trim_zero(s).len() as int),
        trim_zero(s).len() > 0 ==> !(trim_zero(s).last().red == 0 && trim_zero(s).last().blue == 0),
        forall|i: int| #![trigger s[i]] trim_zero(s).len() <= i < s.len() ==> s[i].red == 0 && s[i].blue == 0,
    decreases s.len(),
{
    if s.len() > 0 && s.last().red == 0 && s.last().blue == 0 {
        lemma_trim_zero(s.drop_last());
        let t = trim_zero(s.drop_last());
        assert(t == s.drop_last().take(t.len() as int));
        assert(s.drop_last().take(t.len() as int) =~= s.take(t.len() as int));
        assert forall|i: int| #![trigger s[i]] t.len() <= i < s.len() implies s[i].red == 0 && s[i].blue == 0 by {
            if i < s.len() - 1 {
                assert(s.drop_last()[i] == s[i]);
            }
        }
    } else {
        assert(s.take(s.len() as int) =~= s);
    }
}

/// Larger of two counts first.
pub fn tier_key(red: u64, blue: u64) -> (r: (u64, u64))
    ensures
        r.0 >= r.1,
        (r.0 == red && r.1 == blue) || (r.0 == blue && r.1 == red),
{
    if red >= blue {
        (red, blue)
    } else {
        (blue, red)
    }
}

impl CliqueHistogram {
    /// The histogram of `matrix` for `k = 3..=max_k`, with the empty tiers
    /// at the top trimmed.
    pub fn compute(matrix: &AdjacencyMatrix, max_k: u32) -> (r: Self)
        requires
            matrix.wf(),
            max_k >= 3 ==> matrix.order() <= 63,
        ensures
            r.n == matrix.order(),
            r.tiers@ == trim_zero(all_tiers(matrix@, matrix.order() as int, max_k as int)),
            forall|i: int| 0 <= i < r.tiers@.len() ==> #[trigger] r.tiers@[i].k == i + 3,
            r.tiers@.len() > 0 ==> !(r.tiers@.last().red == 0 && r.tiers@.last().blue == 0),
    {
        let n = matrix.n();
        let ghost full = all_tiers(matrix@, n as int, max_k as int);
        let mut tiers: Vec<HistogramTier> = Vec::new();
        if max_k >= 3 {
            let adj_nbrs = NeighborSet::from_adj(matrix);
            let comp = matrix.complement();
            let comp_nbrs = NeighborSet::from_adj(&comp);
            let mut k: u64 = 3;
            while k <= max_k as u64
                invariant
                    3 <= k,
                    k - 3 <= max_k - 2,
                    max_k >= 3,
                    n == matrix.order(),
                    n <= 63,
                    adj_nbrs.closed_below(n as int),
                    comp_nbrs.closed_below(n as int),
                    adj_nbrs.masks@ == crate::clique::graph_masks(matrix@, n as int),
                    comp_nbrs.masks@ == crate::clique::graph_masks(complement_edges(matrix@, n as int), n as int),
                    full == all_tiers(matrix@, n as int, max_k as int),
                    tiers@ == full.take(k - 3),
                decreases max_k + 1 - k,
            {
                let kk = k as u32;
                let red = count_cliques(&adj_nbrs, kk, n);
                let blue = count_cliques(&comp_nbrs, kk, n);
                proof {
                    lemma_clique_count_fits(adj_nbrs.masks@, crate::clique::low_bits(n as int), k as nat);
                    lemma_clique_count_fits(comp_nbrs.masks@, crate::clique::low_bits(n as int), k as nat);
                }
                tiers.push(HistogramTier { k: kk, red, blue });
                proof {
                    assert(full[k - 3] == tier_of(matrix@, n as int, k as int));
                    assert(tiers@ =~= full.take(k - 2));
                }
                k = k + 1;
            }
            proof {
                assert(tiers@ =~= full);
            }
        } else {
            proof {
                assert(tiers@ =~= full);
            }
        }
        proof {
            lemma_trim_zero(full);
        }
        while tiers.len() > 0 && tiers[tiers.len() - 1].red == 0 && tiers[tiers.len() - 1].blue == 0
            invariant
                trim_zero(tiers@) == trim_zero(full),
                tiers@.len() <= full.len(),
                tiers@ == full.take(tiers@.len() as int),
            decreases tiers@.len(),
        {
            tiers.pop();
        }
        proof {
            lemma_trim_zero(full);
        }
        Self { tiers, n }
    }

    /// The largest clique size with a nonzero count, if any.
    pub fn max_k(&self) -> (r: Option<u32>)
        ensures
            self.tiers@.len() == 0 ==> r == None::<u32>,
            self.tiers@.len() > 0 ==> r == Some(self.tiers@.last().k),
    {
        if self.tiers.len() == 0 {
            None
        } else {
            Some(self.tiers[self.tiers.len() - 1].k)
        }
    }

    /// Whether there is no `k`-clique in red and no `ell`-clique in blue
    /// among the recorded tiers.
    pub fn is_valid_ramsey(&self, k: u32, ell: u32) -> (r: bool)
        ensures
            r == ramsey_valid(self.tiers@, k, ell),
    {
        let mut i: usize = 0;
        while i < self.tiers.len()
            invariant
                i <= self.tiers@.len(),
                ramsey_valid(self.tiers@.take(i as int), k, ell),
            decreases self.tiers@.len() - i,
        {
            let t = self.tiers[i];
            if t.k == k && t.red > 0 {
                assert(!ramsey_valid(self.tiers@, k, ell)) by {
                    assert(self.tiers@[i as int] == t);
                }
                return false;
            }
            if t.k == ell && t.blue > 0 {
                assert(!ramsey_valid(self.tiers@, k, ell)) by {
                    assert(self.tiers@[i as int] == t);
                }
                return false;
            }
            assert forall|j: int| 0 <= j < i + 1 implies !(#[trigger] self.tiers@.take(i + 1)[j].k == k
                && self.tiers@.take(i + 1)[j].red > 0) && !(self.tiers@.take(i + 1)[j].k == ell
                && self.tiers@.take(i + 1)[j].blue > 0) by {
                if j < i {
                    assert(self.tiers@.take(i + 1)[j] == self.tiers@.take(i as int)[j]);
                }
            }
            i = i + 1;
        }
        assert(self.tiers@.take(i as int) =~= self.tiers@);
        true
    }

    /// The first tier for clique size `k`, if there is one.
    pub fn tier(&self, k: u32) -> (r: Option<&HistogramTier>)
        ensures
            match r {
                Some(t) => exists|i: int|
                    0 <= i < self.tiers@.len() && self.tiers@[i] == *t && t.k == k && forall|j: int|
                        0 <= j < i ==> #[trigger] self.tiers@[j].k != k,
                None => forall|i: int| 0 <= i < self.tiers@.len() ==> #[trigger] self.tiers@[i].k != k,
            },
    {
        let mut i: usize = 0;
        while i < self.tiers.len()
            invariant
                i <= self.tiers@.len(),
                forall|j: int| 0 <= j < i ==> #[trigger] self.tiers@[j].k != k,
            decreases self.tiers@.len() - i,
        {
            if self.tiers[i].k == k {
                return Some(&self.tiers[i]);
            }
            i = i + 1;
        }
        None
    }
}

/// On a computed histogram, validity for `(k, ell)` within the computed
/// range means exactly: no `k`-clique in the graph and no `ell`-clique in
/// its complement.
pub proof fn lemma_valid_ramsey_counts(edges: Set<(int, int)>, n: int, max_k: u32, k: u32, ell: u32)
    requires
        3 <= k <= max_k,
        3 <= ell <= max_k,
    ensures
        ramsey_valid(trim_zero(all_tiers(edges, n, max_k as int)), k, ell) <==> (graph_cliques(
            edges,
            n,
            k as nat,
        ) == 0 && graph_cliques(complement_edges(edges, n), n, ell as nat) == 0),
{
    let full = all_tiers(edges, n, max_k as int);
    let t = trim_zero(full);
    lemma_trim_zero(full);
    let red = graph_cliques(edges, n, k as nat);
    let blue = graph_cliques(complement_edges(edges, n), n, ell as nat);
    lemma_clique_count_fits(crate::clique::graph_masks(edges, n), crate::clique::low_bits(n), k as nat);
    lemma_clique_count_fits(
        crate::clique::graph_masks(complement_edges(edges, n), n),
        crate::clique::low_bits(n),
        ell as nat,
    );
    let ik = k - 3;
    let il = ell - 3;
    assert(full[ik as int].k == k && full[ik as int].red == red as u64);
    assert(full[il as int].k == ell && full[il as int].blue == blue as u64);
    if ramsey_valid(t, k, ell) {
        if ik < t.len() {
            assert(t[ik as int] == full[ik as int]);
        } else {
            assert(full[ik as int].red == 0);
        }
        if il < t.len() {
            assert(t[il as int] == full[il as int]);
        } else {
            assert(full[il as int].red == 0 && full[il as int].blue == 0);
        }
    }
    if red == 0 && blue == 0 {
        assert forall|i: int| 0 <= i < t.len() implies !(#[trigger] t[i].k == k && t[i].red > 0) && !(t[i].k
            == ell && t[i].blue > 0) by {
            assert(t[i] == full[i]);
            assert(full[i].k == (i + 3) as u32);
        }
    }
}

} // verus!
