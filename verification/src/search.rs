//! The search strategies' names and the results a search hands back.

use vstd::prelude::*;

use crate::adjacency::AdjacencyMatrix;
use crate::template::{cid_known, contains_cid};
use crate::types::GraphCid;

verus! {

/// Gradient descent on the violation count.
pub struct GradientDescent;

/// Crossover of valid graphs.
pub struct CrossoverSearch;

/// Greedy construction followed by tabu repair.
pub struct ConstructSearch;

/// Refinement of a seed graph.
pub struct RefineSearch;

/// Path relinking between valid graphs.
pub struct RelinkSearch;

/// Tabu search on edge flips.
pub struct TabuSearch;

/// A valid graph found by a search, before scoring.
pub struct RawDiscovery {
    /// The graph as found (not necessarily canonical).
    pub graph: AdjacencyMatrix,
    /// The iteration at which it was found.
    pub iteration: u64,
}

/// What a search reports back.
pub struct SearchResult {
    /// The best graph found, valid or not.
    pub best_graph: Option<AdjacencyMatrix>,
    /// Whether any valid graph was found.
    pub valid: bool,
    /// Number of evaluations performed.
    pub iterations_used: u64,
    /// Valid graphs found.
    pub discoveries: Vec<RawDiscovery>,
}

/// Item `i` of the CIDs `c` is new: it is not among `known` and no earlier
/// item has it.
pub open spec fn first_new(c: Seq<GraphCid>, known: Seq<GraphCid>, i: int) -> bool {
    &&& !cid_known(known, c[i])
    &&& forall|j: int| 0 <= j < i ==> #[trigger] c[j].0@ != c[i].0@
}

/// Two discoveries hold the same graph, found at the same iteration.
pub open spec fn same_discovery(a: RawDiscovery, b: RawDiscovery) -> bool {
    &&& a.graph.wf()
    &&& a.graph.order() == b.graph.order()
    &&& a.graph@ == b.graph@
    &&& a.iteration == b.iteration
}

/// `r` is what `keep_new_discoveries` keeps of `found`, given the CIDs
/// `c` that `cid_of` gave the found graphs: the new ones (`first_new`), in
/// order, taken from the positions `pos`; and `known1` is `known0` with
/// their CIDs appended.
pub open spec fn kept_new<F: Fn(&AdjacencyMatrix) -> GraphCid>(
    cid_of: F,
    found: Seq<RawDiscovery>,
    known0: Seq<GraphCid>,
    known1: Seq<GraphCid>,
    r: Seq<RawDiscovery>,
    c: Seq<GraphCid>,
    pos: Seq<int>,
) -> bool {
    &&& c.len() == found.len()
    &&& forall|i: int| 0 <= i < found.len() ==> cid_of.ensures((&found[i].graph,), #[trigger] c[i])
    &&& pos.len() == r.len()
    &&& forall|j: int, j2: int| 0 <= j < j2 < pos.len() ==> #[trigger] pos[j] < #[trigger] pos[j2]
    &&& forall|j: int|
        0 <= j < pos.len() ==> 0 <= #[trigger] pos[j] < found.len() && first_new(c, known0, pos[j]) && same_discovery(
            r[j],
            found[pos[j]],
        )
    &&& forall|i: int|
        0 <= i < found.len() && #[trigger] first_new(c, known0, i) ==> exists|j: int| 0 <= j < pos.len() && pos[j] == i
    &&& known1.len() == known0.len() + pos.len()
    &&& known1.take(known0.len() as int) == known0
    &&& forall|j: int| 0 <= j < pos.len() ==> #[trigger] known1[known0.len() + j] == c[pos[j]]
}

/// Of the discoveries `found`, in order, those whose CID (`cid_of`, meant
/// to name the isomorphism class) is neither among `known` nor that of an
/// earlier one; the CIDs of those kept are appended to `known`.
pub fn keep_new_discoveries<F: Fn(&AdjacencyMatrix) -> GraphCid>(
    found: &Vec<RawDiscovery>,
    known: &mut Vec<GraphCid>,
    cid_of: &F,
) -> (r: Vec<RawDiscovery>)
    requires
        forall|i: int| 0 <= i < found@.len() ==> (#[trigger] found@[i]).graph.wf(),
        forall|g: &AdjacencyMatrix| g.wf() ==> #[trigger] cid_of.requires((g,)),
    ensures
        exists|c: Seq<GraphCid>, pos: Seq<int>| #[trigger] kept_new(*cid_of, found@, old(known)@, final(known)@, r@, c, pos),
{
    let ghost k0 = known@;
    let ghost mut c: Seq<GraphCid> = Seq::empty();
    let ghost mut pos: Seq<int> = Seq::empty();
    let mut r: Vec<RawDiscovery> = Vec::new();
    let mut i: usize = 0;
    while i < found.len()
        invariant
            i <= found@.len(),
            forall|i: int| 0 <= i < found@.len() ==> (#[trigger] found@[i]).graph.wf(),
            forall|g: &AdjacencyMatrix| g.wf() ==> #[trigger] cid_of.requires((g,)),
            c.len() == i,
            forall|t: int| 0 <= t < i ==> cid_of.ensures((&found@[t].graph,), #[trigger] c[t]),
            pos.len() == r@.len(),
            forall|j: int, j2: int| 0 <= j < j2 < pos.len() ==> #[trigger] pos[j] < #[trigger] pos[j2],
            forall|j: int|
                0 <= j < pos.len() ==> 0 <= #[trigger] pos[j] < i && first_new(c, k0, pos[j]) && same_discovery(
                    r@[j],
                    found@[pos[j]],
                ),
            forall|t: int| 0 <= t < i && #[trigger] first_new(c, k0, t) ==> exists|j: int| 0 <= j < pos.len() && pos[j] == t,
            known@.len() == k0.len() + pos.len(),
            known@.take(k0.len() as int) == k0,
            forall|j: int| 0 <= j < pos.len() ==> #[trigger] known@[k0.len() + j] == c[pos[j]],
            forall|t: int| 0 <= t < i ==> cid_known(known@, #[trigger] c[t]),
        decreases found@.len() - i,
    {
        let cid = cid_of(&found[i].graph);
        let ghost c_old = c;
        let ghost pos_old = pos;
        let ghost known_old = known@;
        proof {
            c = c.push(cid);
        }
        let is_known = contains_cid(known, &cid);
        proof {
            assert forall|t: int| 0 <= t < i implies #[trigger] c[t] == c_old[t] by {}
            if !is_known {
                assert(!cid_known(k0, cid)) by {
                    if cid_known(k0, cid) {
                        let w = choose|w: int| 0 <= w < k0.len() && #[trigger] k0[w].0@ == cid.0@;
                        assert(known_old[w] == k0[w]);
                    }
                }
                assert forall|j: int| 0 <= j < i implies #[trigger] c[j].0@ != c[i as int].0@ by {
                    assert(cid_known(known_old, c_old[j]));
                }
                assert(first_new(c, k0, i as int));
            } else {
                let w = choose|w: int| 0 <= w < known_old.len() && #[trigger] known_old[w].0@ == cid.0@;
                if w >= k0.len() {
                    let m = w - k0.len();
                    assert(known_old[k0.len() + m] == c_old[pos_old[m]]);
                    assert(c[pos_old[m]].0@ == c[i as int].0@);
                    assert(!first_new(c, k0, i as int));
                } else {
                    assert(known_old.take(k0.len() as int)[w] == known_old[w]);
                    assert(cid_known(k0, cid));
                    assert(!first_new(c, k0, i as int));
                }
            }
            assert forall|t: int| 0 <= t < i implies first_new(c, k0, t) == first_new(c_old, k0, t) by {
                assert forall|j: int| 0 <= j < t implies c[j] == c_old[j] by {}
            }
        }
        if !is_known {
            known.push(cid);
            let d = RawDiscovery { graph: found[i].graph.copy_of(), iteration: found[i].iteration };
            r.push(d);
            proof {
                pos = pos.push(i as int);
                assert(known@.take(k0.len() as int) =~= known_old.take(k0.len() as int));
                assert forall|j: int| 0 <= j < pos.len() implies #[trigger] known@[k0.len() + j] == c[pos[j]] by {
                    if j < pos_old.len() {
                        assert(known@[k0.len() + j] == known_old[k0.len() + j]);
                    }
                }
            }
        }
        proof {
            assert forall|t: int| 0 <= t < i + 1 implies cid_known(known@, #[trigger] c[t]) by {
                if t < i {
                    assert(c[t] == c_old[t]);
                    assert(cid_known(known_old, c_old[t]));
                    let w = choose|w: int| 0 <= w < known_old.len() && #[trigger] known_old[w].0@ == c_old[t].0@;
                    assert(known@[w] == known_old[w]);
                    assert(known@[w].0@ == c[t].0@);
                } else if is_known {
                    let w = choose|w: int| 0 <= w < known_old.len() && #[trigger] known_old[w].0@ == cid.0@;
                    assert(known@[w] == known_old[w]);
                    assert(known@[w].0@ == c[t].0@);
                } else {
                    assert(known@[known@.len() - 1] == cid);
                    assert(known@[known@.len() - 1].0@ == c[t].0@);
                }
            }
            assert forall|t: int| 0 <= t < i + 1 && #[trigger] first_new(c, k0, t) implies exists|j: int|
                0 <= j < pos.len() && pos[j] == t by {
                if t < i {
                    let j = choose|j: int| 0 <= j < pos_old.len() && pos_old[j] == t;
                    assert(pos[j] == t);
                } else {
                    assert(pos[pos.len() - 1] == t);
                }
            }
        }
        i = i + 1;
    }
    assert(kept_new(*cid_of, found@, k0, known@, r@, c, pos));
    r
}

} // verus!
