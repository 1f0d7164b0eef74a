//! The incremental beam search: each depth flips every (or a random part
//! of every) candidate pair of every beam entry, scores the flips by their
//! exact violation deltas, skips graphs already seen by fingerprint, and
//! keeps the best-scoring flips as the next beam.

use std::collections::HashSet;

use rand::rngs::SmallRng;
use vstd::prelude::*;

use crate::adjacency::{AdjacencyMatrix, ordered};
use crate::clique::{graph_cliques, graph_masks};
use crate::clique::{fast_fingerprint, fingerprint_of, flipped_masks, lemma_cliques_of_small, lemma_through_bounds, violation_delta};
use crate::gradient::{all_pairs_list, counts_exact, lemma_entry_flip};
use crate::guilty::{guilty_edges, guilty_pairs};
use crate::histogram::complement_edges;
use crate::polish::{all_valid, count_violations, ils_walk, lemma_kept_valid, violation_count};
use crate::random::{partial_shuffle, random_graph, seeded_rng, toggle};
use crate::search::{RawDiscovery, SearchResult, keep_new_discoveries, kept_new};
use crate::types::GraphCid;
use crate::tree2::{BeamEntry, Tree2Search};

verus! {

/// A scored flip: the parent's index in the beam, the pair, and the
/// violation count, graph clique count and complement clique count after
/// the flip.
pub type Candidate = (usize, u32, u32, u64, u64, u64);

/// How far the two counts lie apart.
pub open spec fn imbalance_of(a: u64, b: u64) -> u64 {
    if a >= b {
        (a - b) as u64
    } else {
        (b - a) as u64
    }
}

/// The sort key of a candidate: its violation count, then, at or below the
/// threshold, how far its two clique counts lie apart.
pub open spec fn candidate_key(c: Candidate, threshold: u64) -> (u64, u64) {
    (c.3, if c.3 <= threshold {
        imbalance_of(c.4, c.5)
    } else {
        0
    })
}

/// Lexicographic `a <= b` on keys.
pub open spec fn key_le(a: (u64, u64), b: (u64, u64)) -> bool {
    a.0 < b.0 || (a.0 == b.0 && a.1 <= b.1)
}

/// A candidate's key: its violation count first; at or below the
/// threshold, then the distance between its two clique counts (the more
/// balanced first), else nothing more.
pub proof fn lemma_candidate_key(c: Candidate, threshold: u64)
    ensures
        candidate_key(c, threshold).0 == c.3,
        c.3 <= threshold && c.4 >= c.5 ==> candidate_key(c, threshold).1 as int == c.4 as int - c.5 as int,
        c.3 <= threshold && c.4 < c.5 ==> candidate_key(c, threshold).1 as int == c.5 as int - c.4 as int,
        c.3 > threshold ==> candidate_key(c, threshold).1 == 0,
{
}

fn key_of(c: &Candidate, threshold: u64) -> (r: (u64, u64))
    ensures
        r == candidate_key(*c, threshold),
        r.0 == c.3,
        c.3 <= threshold && c.4 >= c.5 ==> r.1 as int == c.4 as int - c.5 as int,
        c.3 <= threshold && c.4 < c.5 ==> r.1 as int == c.5 as int - c.4 as int,
        c.3 > threshold ==> r.1 == 0,
{
    let b = if c.3 <= threshold {
        if c.4 >= c.5 {
            c.4 - c.5
        } else {
            c.5 - c.4
        }
    } else {
        0
    };
    (c.3, b)
}

fn key_leq(a: (u64, u64), b: (u64, u64)) -> (r: bool)
    ensures
        r == key_le(a, b),
{
    a.0 < b.0 || (a.0 == b.0 && a.1 <= b.1)
}

/// The candidates in `s` are in non-decreasing key order.
pub open spec fn sorted_by_key(s: Seq<Candidate>, threshold: u64) -> bool {
    forall|i: int, j: int|
        0 <= i < j < s.len() ==> key_le(candidate_key(#[trigger] s[i], threshold), candidate_key(#[trigger] s[j], threshold))
}

/// Every candidate among the first `i` that `out` left out has a key no
/// lower than any kept one, and leaves out happen only once `out` is full.
pub open spec fn kept_least(cands: Seq<Candidate>, i: int, out: Seq<Candidate>, width: usize, threshold: u64) -> bool {
    forall|j: int|
        0 <= j < i && !out.contains(#[trigger] cands[j]) ==> out.len() == width && forall|o: int|
            0 <= o < out.len() ==> key_le(candidate_key(#[trigger] out[o], threshold), candidate_key(cands[j], threshold))
}

/// Inserting candidate `i` at `pos` (and dropping the last one when over
/// `width`) keeps the left-out candidates no better than the kept ones.
proof fn lemma_kept_least_insert(
    cands: Seq<Candidate>,
    i: int,
    before: Seq<Candidate>,
    pos: int,
    width: usize,
    threshold: u64,
    after: Seq<Candidate>,
)
    requires
        0 <= i < cands.len(),
        0 <= pos <= before.len(),
        pos < width,
        before.len() <= width,
        sorted_by_key(before, threshold),
        sorted_by_key(before.insert(pos, cands[i]), threshold),
        pos < before.len() ==> !key_le(candidate_key(before[pos], threshold), candidate_key(cands[i], threshold)),
        kept_least(cands, i, before, width, threshold),
        after == if before.len() + 1 > width {
            before.insert(pos, cands[i]).drop_last()
        } else {
            before.insert(pos, cands[i])
        },
    ensures
        kept_least(cands, i + 1, after, width, threshold),
{
    let c = cands[i];
    let mid = before.insert(pos, c);
    assert(mid[pos] == c);
    assert(after[pos] == c);
    assert forall|j: int| 0 <= j < i + 1 && !after.contains(#[trigger] cands[j]) implies after.len() == width && forall|o: int|
        0 <= o < after.len() ==> key_le(candidate_key(#[trigger] after[o], threshold), candidate_key(cands[j], threshold)) by {
        let x = cands[j];
        assert(j < i) by {
            if j == i {
                assert(after.contains(c));
            }
        }
        if before.contains(x) {
            let t = choose|t: int| 0 <= t < before.len() && before[t] == x;
            let t1 = if t < pos { t } else { t + 1 };
            assert(mid[t1] == x);
            if t1 < after.len() {
                assert(after[t1] == x);
                assert(false);
            }
            assert(before.len() + 1 > width);
            assert(t1 == mid.len() - 1);
            assert forall|o: int| 0 <= o < after.len() implies key_le(candidate_key(#[trigger] after[o], threshold), candidate_key(x, threshold)) by {
                assert(after[o] == mid[o]);
                assert(key_le(candidate_key(mid[o], threshold), candidate_key(mid[t1], threshold)));
            }
        } else {
            assert(before.len() == width);
            assert forall|o: int| 0 <= o < after.len() implies key_le(candidate_key(#[trigger] after[o], threshold), candidate_key(x, threshold)) by {
                assert(after[o] == mid[o]);
                if o < pos {
                    assert(mid[o] == before[o]);
                    assert(key_le(candidate_key(before[o], threshold), candidate_key(x, threshold)));
                } else if o == pos {
                    assert(key_le(candidate_key(before[pos], threshold), candidate_key(x, threshold)));
                } else {
                    assert(mid[o] == before[o - 1]);
                    assert(key_le(candidate_key(before[o - 1], threshold), candidate_key(x, threshold)));
                }
            }
        }
    }
}

/// `out` is the outcome of a stable sort by key of the first `i`
/// candidates, cut to `width`: `idx` gives the candidate each entry is;
/// entries of equal key keep their candidates' order; and each candidate
/// left out has a key no lower than every kept one, and comes after every
/// kept one of the same key.
pub open spec fn stable_cut(cands: Seq<Candidate>, i: int, out: Seq<Candidate>, idx: Seq<int>, width: usize, threshold: u64) -> bool {
    &&& idx.len() == out.len()
    &&& forall|o: int| 0 <= o < out.len() ==> 0 <= #[trigger] idx[o] < i && out[o] == cands[idx[o]]
    &&& forall|o1: int, o2: int| 0 <= o1 < o2 < out.len() ==> #[trigger] idx[o1] != #[trigger] idx[o2]
    &&& forall|o1: int, o2: int|
        0 <= o1 < o2 < out.len() && candidate_key(#[trigger] out[o1], threshold) == candidate_key(#[trigger] out[o2], threshold)
            ==> idx[o1] < idx[o2]
    &&& forall|j: int|
        0 <= j < i && !idx.contains(j) ==> out.len() == width && forall|o: int|
            0 <= o < out.len() ==> key_le(candidate_key(#[trigger] out[o], threshold), candidate_key(cands[j], threshold)) && (
            candidate_key(out[o], threshold) == candidate_key(cands[j], threshold) ==> idx[o] < j)
}

/// Inserting candidate `i` after the entries of no greater key, and
/// dropping the last entry when over `width`, keeps the stable cut.
proof fn lemma_stable_cut_insert(
    cands: Seq<Candidate>,
    i: int,
    before: Seq<Candidate>,
    idx: Seq<int>,
    pos: int,
    width: usize,
    threshold: u64,
    after: Seq<Candidate>,
    idx_after: Seq<int>,
)
    requires
        0 <= i < cands.len(),
        0 <= pos <= before.len(),
        pos < width,
        before.len() <= width,
        sorted_by_key(before, threshold),
        sorted_by_key(before.insert(pos, cands[i]), threshold),
        forall|o: int| 0 <= o < pos ==> key_le(candidate_key(#[trigger] before[o], threshold), candidate_key(cands[i], threshold)),
        pos < before.len() ==> !key_le(candidate_key(before[pos], threshold), candidate_key(cands[i], threshold)),
        stable_cut(cands, i, before, idx, width, threshold),
        after == if before.len() + 1 > width {
            before.insert(pos, cands[i]).drop_last()
        } else {
            before.insert(pos, cands[i])
        },
        idx_after == if before.len() + 1 > width {
            idx.insert(pos, i).drop_last()
        } else {
            idx.insert(pos, i)
        },
    ensures
        stable_cut(cands, i + 1, after, idx_after, width, threshold),
{
    let c = cands[i];
    let kc = candidate_key(c, threshold);
    let mid = before.insert(pos, c);
    let im = idx.insert(pos, i);
    assert(mid[pos] == c && im[pos] == i);
    assert forall|o: int| 0 <= o < mid.len() implies 0 <= #[trigger] im[o] < i + 1 && mid[o] == cands[im[o]] by {
        if o < pos {
            assert(mid[o] == before[o] && im[o] == idx[o]);
        } else if o > pos {
            assert(mid[o] == before[o - 1] && im[o] == idx[o - 1]);
        }
    }
    assert forall|o1: int, o2: int| 0 <= o1 < o2 < mid.len() implies #[trigger] im[o1] != #[trigger] im[o2] by {
        if o1 != pos && o2 != pos {
            let p1 = if o1 < pos { o1 } else { o1 - 1 };
            let p2 = if o2 < pos { o2 } else { o2 - 1 };
            assert(im[o1] == idx[p1] && im[o2] == idx[p2]);
        } else if o1 == pos {
            assert(im[o2] == idx[o2 - 1]);
        } else {
            assert(im[o1] == idx[o1]);
        }
    }
    assert forall|o1: int, o2: int|
        0 <= o1 < o2 < mid.len() && candidate_key(#[trigger] mid[o1], threshold) == candidate_key(#[trigger] mid[o2], threshold)
            implies im[o1] < im[o2] by {
        if o1 != pos && o2 != pos {
            let p1 = if o1 < pos { o1 } else { o1 - 1 };
            let p2 = if o2 < pos { o2 } else { o2 - 1 };
            assert(im[o1] == idx[p1] && im[o2] == idx[p2] && mid[o1] == before[p1] && mid[o2] == before[p2]);
        } else if o1 == pos {
            assert(mid[o2] == before[o2 - 1]);
            assert(key_le(candidate_key(before[pos], threshold), candidate_key(before[o2 - 1], threshold)));
        } else {
            assert(im[o1] == idx[o1]);
        }
    }
    let over = before.len() + 1 > width;
    assert forall|o: int| 0 <= o < after.len() implies after[o] == mid[o] && idx_after[o] == im[o] by {}
    assert forall|j: int| 0 <= j < i + 1 && !idx_after.contains(j) implies after.len() == width && forall|o: int|
        0 <= o < after.len() ==> key_le(candidate_key(#[trigger] after[o], threshold), candidate_key(cands[j], threshold)) && (
        candidate_key(after[o], threshold) == candidate_key(cands[j], threshold) ==> idx_after[o] < j) by {
        if im.contains(j) {
            let t = choose|t: int| 0 <= t < im.len() && im[t] == j;
            if t < after.len() {
                assert(idx_after[t] == j);
                assert(false);
            }
            assert(over && t == mid.len() - 1);
            assert forall|o: int| 0 <= o < after.len() implies key_le(candidate_key(#[trigger] after[o], threshold), candidate_key(cands[j], threshold)) && (
                candidate_key(after[o], threshold) == candidate_key(cands[j], threshold) ==> idx_after[o] < j) by {
                assert(after[o] == mid[o] && idx_after[o] == im[o]);
                assert(mid[t] == cands[j]);
                assert(key_le(candidate_key(mid[o], threshold), candidate_key(mid[t], threshold)));
            }
        } else {
            assert(j != i);
            assert(!idx.contains(j)) by {
                if idx.contains(j) {
                    let t = choose|t: int| 0 <= t < idx.len() && idx[t] == j;
                    let t1 = if t < pos { t } else { t + 1 };
                    assert(im[t1] == j);
                }
            }
            assert(before.len() == width);
            assert forall|o: int| 0 <= o < after.len() implies key_le(candidate_key(#[trigger] after[o], threshold), candidate_key(cands[j], threshold)) && (
                candidate_key(after[o], threshold) == candidate_key(cands[j], threshold) ==> idx_after[o] < j) by {
                assert(after[o] == mid[o] && idx_after[o] == im[o]);
                if o < pos {
                    assert(mid[o] == before[o] && im[o] == idx[o]);
                } else if o == pos {
                    assert(key_le(candidate_key(before[pos], threshold), candidate_key(cands[j], threshold)));
                } else {
                    assert(mid[o] == before[o - 1] && im[o] == idx[o - 1]);
                }
            }
        }
    }
    assert forall|o1: int, o2: int| 0 <= o1 < o2 < after.len() implies #[trigger] idx_after[o1] != #[trigger] idx_after[o2] by {
        assert(im[o1] != im[o2]);
    }
    assert forall|o1: int, o2: int|
        0 <= o1 < o2 < after.len() && candidate_key(#[trigger] after[o1], threshold) == candidate_key(#[trigger] after[o2], threshold)
            implies idx_after[o1] < idx_after[o2] by {
        assert(mid[o1] == after[o1] && mid[o2] == after[o2]);
    }
}

/// The first `width` candidates in key order, ties kept in their original
/// order (a stable sort followed by a truncation).
pub fn select_beam(candidates: &Vec<Candidate>, width: usize, threshold: u64) -> (r: Vec<Candidate>)
    ensures
        r@.len() == if candidates@.len() <= width {
            candidates@.len() as int
        } else {
            width as int
        },
        sorted_by_key(r@, threshold),
        forall|i: int| 0 <= i < r@.len() ==> candidates@.contains(#[trigger] r@[i]),
        forall|j: int, o: int|
            0 <= j < candidates@.len() && 0 <= o < r@.len() && !r@.contains(#[trigger] candidates@[j]) ==> key_le(
                candidate_key(#[trigger] r@[o], threshold),
                candidate_key(candidates@[j], threshold),
            ),
        exists|idx: Seq<int>| #[trigger] stable_cut(candidates@, candidates@.len() as int, r@, idx, width, threshold),
{
    let mut out: Vec<Candidate> = Vec::new();
    let mut i: usize = 0;
    let ghost mut idx: Seq<int> = Seq::empty();
    while i < candidates.len()
        invariant
            i <= candidates@.len(),
            out@.len() == if i <= width {
                i as int
            } else {
                width as int
            },
            sorted_by_key(out@, threshold),
            forall|j: int| 0 <= j < out@.len() ==> candidates@.contains(#[trigger] out@[j]),
            kept_least(candidates@, i as int, out@, width, threshold),
            stable_cut(candidates@, i as int, out@, idx, width, threshold),
        decreases candidates@.len() - i,
    {
        let c = candidates[i];
        let kc = key_of(&c, threshold);
        let mut pos: usize = 0;
        while pos < out.len() && key_leq(key_of(&out[pos], threshold), kc)
            invariant
                pos <= out@.len(),
                forall|j: int| 0 <= j < pos ==> key_le(candidate_key(#[trigger] out@[j], threshold), kc),
            decreases out@.len() - pos,
        {
            pos = pos + 1;
        }
        let ghost before = out@;
        if pos < width {
            out.insert(pos, c);
            proof {
                assert(candidates@.contains(c)) by {
                    assert(candidates@[i as int] == c);
                }
                assert forall|a: int, b: int| 0 <= a < b < out@.len() implies key_le(
                    candidate_key(#[trigger] out@[a], threshold),
                    candidate_key(#[trigger] out@[b], threshold),
                ) by {
                    if a < pos && b == pos {
                        assert(out@[a] == before[a]);
                    } else if a < pos && b > pos {
                        assert(out@[a] == before[a]);
                        assert(out@[b] == before[b - 1]);
                        if pos < before.len() {
                            assert(!key_le(candidate_key(before[pos as int], threshold), kc));
                            if b - 1 > pos {
                                assert(key_le(
                                    candidate_key(before[pos as int], threshold),
                                    candidate_key(before[b - 1], threshold),
                                ));
                            }
                        }
                    } else if a == pos {
                        assert(out@[b] == before[b - 1]);
                        assert(!key_le(candidate_key(before[pos as int], threshold), kc));
                        if b - 1 > pos {
                            assert(key_le(
                                candidate_key(before[pos as int], threshold),
                                candidate_key(before[b - 1], threshold),
                            ));
                        }
                    } else if a > pos {
                        assert(out@[a] == before[a - 1]);
                        assert(out@[b] == before[b - 1]);
                    } else {
                        assert(out@[a] == before[a]);
                        assert(out@[b] == before[b]);
                    }
                }
                assert forall|j: int| 0 <= j < out@.len() implies candidates@.contains(#[trigger] out@[j]) by {
                    if j < pos {
                        assert(out@[j] == before[j]);
                    } else if j > pos {
                        assert(out@[j] == before[j - 1]);
                    }
                }
            }
            let ghost mid = out@;
            if out.len() > width {
                let ghost before_pop = out@;
                out.pop();
                proof {
                    assert forall|j: int| 0 <= j < out@.len() implies candidates@.contains(#[trigger] out@[j]) by {
                        assert(out@[j] == before_pop[j]);
                    }
                    assert forall|a: int, b: int| 0 <= a < b < out@.len() implies key_le(
                        candidate_key(#[trigger] out@[a], threshold),
                        candidate_key(#[trigger] out@[b], threshold),
                    ) by {
                        assert(out@[a] == before_pop[a]);
                        assert(out@[b] == before_pop[b]);
                    }
                }
            }
            proof {
                assert(mid == before.insert(pos as int, candidates@[i as int]));
                if before.len() + 1 > width {
                    assert(out@ =~= mid.drop_last());
                }
                lemma_kept_least_insert(candidates@, i as int, before, pos as int, width, threshold, out@);
                let idx_after = if before.len() + 1 > width {
                    idx.insert(pos as int, i as int).drop_last()
                } else {
                    idx.insert(pos as int, i as int)
                };
                lemma_stable_cut_insert(candidates@, i as int, before, idx, pos as int, width, threshold, out@, idx_after);
                idx = idx_after;
            }
        } else {
            proof {
                assert forall|j: int| 0 <= j < i + 1 && !out@.contains(#[trigger] candidates@[j]) implies out@.len() == width
                    && forall|o: int|
                    0 <= o < out@.len() ==> key_le(candidate_key(#[trigger] out@[o], threshold), candidate_key(candidates@[j], threshold)) by {
                    if j == i as int {
                        assert(candidates@[j] == c);
                    }
                }
                assert forall|j: int| 0 <= j < i + 1 && !idx.contains(j) implies out@.len() == width && forall|o: int|
                    0 <= o < out@.len() ==> key_le(candidate_key(#[trigger] out@[o], threshold), candidate_key(candidates@[j], threshold)) && (
                    candidate_key(out@[o], threshold) == candidate_key(candidates@[j], threshold) ==> idx[o] < j) by {
                    if j == i as int {
                        assert(candidates@[j] == c);
                    }
                }
            }
        }
        i = i + 1;
    }
    proof {
        assert forall|j: int, o: int|
            0 <= j < candidates@.len() && 0 <= o < out@.len() && !out@.contains(#[trigger] candidates@[j]) implies key_le(
            candidate_key(#[trigger] out@[o], threshold),
            candidate_key(candidates@[j], threshold),
        ) by {
            assert(kept_least(candidates@, i as int, out@, width, threshold));
        }
        assert(stable_cut(candidates@, candidates@.len() as int, out@, idx, width, threshold));
    }
    out
}

/// The fingerprint of the masks with the pair `{u, v}` flipped.
fn flipped_fingerprint(masks: &Vec<u64>, u: u32, v: u32) -> (h: u64)
    requires
        u < masks@.len(),
        v < masks@.len(),
        u < 64,
        v < 64,
    ensures
        h == fingerprint_of(flipped_masks(masks@, u as int, v as int)),
{
    let mut m = masks.clone();
    assert(m@ =~= masks@);
    let a = m[u as usize] ^ (1u64 << v);
    m[u as usize] = a;
    let b = m[v as usize] ^ (1u64 << u);
    m[v as usize] = b;
    fast_fingerprint(m.as_slice())
}

/// Which of the `len` pairs a parent tries: all of them in order, or, when
/// its budget is smaller, that many drawn at random.
fn pairs_to_try(rng: &mut SmallRng, len: usize, budget: usize) -> (r: Vec<usize>)
    ensures
        forall|i: int| 0 <= i < r@.len() ==> #[trigger] r@[i] < len,
        budget >= len ==> r@ == Seq::new(len as nat, |i: int| i as usize),
        budget < len ==> r@.len() == budget && r@.no_duplicates(),
{
    let mut indices: Vec<usize> = Vec::new();
    let mut i: usize = 0;
    while i < len
        invariant
            i <= len,
            indices@ == Seq::new(i as nat, |j: int| j as usize),
        decreases len - i,
    {
        indices.push(i);
        i = i + 1;
        assert(indices@ =~= Seq::new(i as nat, |j: int| j as usize));
    }
    if budget < len {
        let ghost all = indices@;
        let r = partial_shuffle(rng, &mut indices, budget);
        proof {
            assert(all.no_duplicates());
            all.lemma_multiset_has_no_duplicates();
            indices@.lemma_multiset_has_no_duplicates_conv();
            indices@.to_multiset_ensures();
            all.to_multiset_ensures();
            assert forall|i: int| 0 <= i < r@.len() implies #[trigger] r@[i] < len by {
                assert(r@[i] == indices@[all.len() - r@.len() + i]);
                assert(indices@.contains(r@[i]));
                assert(all.to_multiset().count(r@[i]) > 0);
                assert(all.contains(r@[i]));
            }
            assert forall|a: int, b: int| 0 <= a < r@.len() && 0 <= b < r@.len() && a != b implies r@[a] != r@[b] by {
                assert(r@[a] == indices@[all.len() - r@.len() + a]);
                assert(r@[b] == indices@[all.len() - r@.len() + b]);
            }
        }
        r
    } else {
        indices
    }
}

/// The parameters of a beam search round.
pub struct Tree2Config {
    /// Candidates kept per depth.
    pub beam_width: usize,
    /// Depth levels to search.
    pub max_depth: u32,
    /// Only flip pairs that lie in a violation of the best entry.
    pub focused: bool,
    /// Clique size to avoid in the graph.
    pub k: u32,
    /// Clique size to avoid in the complement.
    pub ell: u32,
    /// Steps of each polish walk.
    pub polish_max_steps: u32,
    /// Steps a pair stays tabu while polishing.
    pub polish_tabu_tenure: u32,
    /// Violation count at or below which balanced clique counts are
    /// preferred.
    pub score_bias_threshold: u64,
    /// Perturb-and-polish rounds after each polish walk.
    pub polish_ils_restarts: u32,
    /// Neutral flips per perturbation.
    pub polish_ils_perturb: u32,
    /// Most polish walks per depth (zero: no limit).
    pub max_polish_per_depth: u32,
}

impl Tree2Config {
    /// The parameters a round uses when none are given.
    pub fn defaults() -> (r: Self)
        ensures
            r.beam_width == 100,
            r.max_depth == 10,
            !r.focused,
            r.k == 5,
            r.ell == 5,
            r.polish_max_steps == 500,
            r.polish_tabu_tenure == 25,
            r.score_bias_threshold == 3,
            r.polish_ils_restarts == 0,
            r.polish_ils_perturb == 3,
            r.max_polish_per_depth == 5,
    {
        Tree2Config {
            beam_width: 100,
            max_depth: 10,
            focused: false,
            k: 5,
            ell: 5,
            polish_max_steps: 500,
            polish_tabu_tenure: 25,
            score_bias_threshold: 3,
            polish_ils_restarts: 0,
            polish_ils_perturb: 3,
            max_polish_per_depth: 5,
        }
    }
}

/// Most fingerprints carried to the next round.
pub const MAX_CARRY_SIZE: usize = 50000;

/// What a round has found so far.
pub struct Tree2Run {
    pub discoveries: Vec<RawDiscovery>,
    pub best_valid: Option<AdjacencyMatrix>,
    pub best_invalid: Option<(AdjacencyMatrix, u64)>,
    pub iters_used: u64,
    pub seen: HashSet<u64>,
}

impl Tree2Run {
    /// The discoveries and the best valid graph are valid, the best
    /// invalid graph has the violation count recorded with it, and a valid
    /// graph has been found exactly when something was reported.
    pub open spec fn inv(&self, n: int, k: nat, ell: nat, max_iters: u64) -> bool {
        &&& all_valid(self.discoveries@, n, k, ell)
        &&& self.best_valid matches Some(g) ==> g.wf() && g.order() == n && violation_count(g@, n, k, ell) == 0
        &&& self.best_invalid matches Some(b) ==> b.0.wf() && b.0.order() == n && b.1 == violation_count(b.0@, n, k, ell)
            && b.1 > 0
        &&& (self.best_valid is Some <==> self.discoveries@.len() > 0)
        &&& self.iters_used <= max_iters
    }
}

/// A beam entry whose counts are its graph's, on `n` vertices.
pub open spec fn entry_ok(e: BeamEntry, n: int, k: nat, ell: nat) -> bool {
    &&& e.wf()
    &&& e.graph.order() == n
    &&& counts_exact(e, k, e.kc, ell, e.ei)
    &&& e.violations == e.kc + e.ei
}

/// The polish settings fit the polish walk's bounds.
pub open spec fn tree2_config_ok(cfg: &Tree2Config) -> bool {
    cfg.polish_max_steps + cfg.polish_tabu_tenure <= u32::MAX
}

/// A candidate names an entry of a beam of `len` entries and a pair of
/// `0..n`.
pub open spec fn candidate_ok(c: Candidate, len: int, n: int) -> bool {
    c.0 < len && c.1 < c.2 < n
}

/// The fingerprint of the parent's masks with the pair `{u, v}` flipped.
pub open spec fn flip_fp(parent: BeamEntry, u: int, v: int) -> u64 {
    fingerprint_of(flipped_masks(parent.adj_nbrs.masks@, u, v))
}

/// The pair `(u, v)` is one of the pairs `to_try` picks out of `edges`.
pub open spec fn tried(edges: Seq<(u32, u32)>, to_try: Seq<usize>, u: u32, v: u32) -> bool {
    exists|t: int| 0 <= t < to_try.len() && #[trigger] edges[to_try[t] as int] == (u, v)
}

/// The candidate flips a pair of the parent at `parent_idx` and carries
/// the exact clique counts of the flipped graph and their sum.
pub open spec fn scored_flip(c: Candidate, parent: BeamEntry, parent_idx: usize, k: nat, ell: nat) -> bool {
    let n = parent.graph.order() as int;
    let g = toggle(parent.graph@, ordered(c.1 as int, c.2 as int));
    &&& c.0 == parent_idx
    &&& c.4 == graph_cliques(g, n, k)
    &&& c.5 == graph_cliques(complement_edges(g, n), n, ell)
    &&& c.3 == c.4 + c.5
}

/// Some discovery of `d` has the edges `g`.
pub open spec fn found_graph(d: Seq<RawDiscovery>, g: Set<(int, int)>) -> bool {
    exists|j: int| 0 <= j < d.len() && #[trigger] d[j].graph@ == g
}

/// A graph found stays found when discoveries are only appended.
pub(crate) proof fn lemma_found_grows(d: Seq<RawDiscovery>, d2: Seq<RawDiscovery>, g: Set<(int, int)>)
    requires
        found_graph(d, g),
        d.len() <= d2.len(),
        d2.take(d.len() as int) == d,
    ensures
        found_graph(d2, g),
{
    let j = choose|j: int| 0 <= j < d.len() && #[trigger] d[j].graph@ == g;
    assert(d2[j] == d2.take(d.len() as int)[j]);
}

/// The graph a candidate names: its parent's graph with its pair flipped.
pub open spec fn cand_graph(parent: BeamEntry, c: Candidate) -> Set<(int, int)> {
    toggle(parent.graph@, ordered(c.1 as int, c.2 as int))
}

/// The fingerprint of the graph a candidate names.
pub open spec fn cand_fp(parent: BeamEntry, c: Candidate) -> u64 {
    flip_fp(parent, c.1 as int, c.2 as int)
}

/// The fingerprints of the candidates from position `from` on.
pub open spec fn fps_of(parent: BeamEntry, cands: Seq<Candidate>, from: int) -> Set<u64> {
    Set::new(|f: u64| exists|i: int| from <= i < cands.len() && f == #[trigger] cand_fp(parent, cands[i]))
}

/// Score the flips of one parent: for each pair tried, within the budget,
/// skip it when the flipped graph's fingerprint was seen, else record the
/// candidate with its exact counts; a valid flip is reported and polished
/// (at most `max_polish_per_depth` walks per depth), and an invalid one
/// with fewer violations than the best so far becomes the best invalid
/// graph.
fn expand_parent(
    parent: &BeamEntry,
    parent_idx: usize,
    beam_len: usize,
    edges: &Vec<(u32, u32)>,
    to_try: &Vec<usize>,
    cfg: &Tree2Config,
    run: &mut Tree2Run,
    candidates: &mut Vec<Candidate>,
    polish_calls: &mut u64,
    scored: &mut u64,
    max_iters: u64,
    rng: &mut SmallRng,
)
    requires
        entry_ok(*parent, parent.graph.order() as int, cfg.k as nat, cfg.ell as nat),
        1 <= parent.graph.order() <= 63,
        parent_idx < beam_len,
        tree2_config_ok(cfg),
        forall|i: int| 0 <= i < edges@.len() ==> (#[trigger] edges@[i]).0 < edges@[i].1 < parent.graph.order(),
        forall|i: int| 0 <= i < to_try@.len() ==> #[trigger] to_try@[i] < edges@.len(),
        old(run).inv(parent.graph.order() as int, cfg.k as nat, cfg.ell as nat, max_iters),
        forall|i: int| 0 <= i < old(candidates)@.len() ==> candidate_ok(#[trigger] old(candidates)@[i], beam_len as int, parent.graph.order() as int),
        *old(scored) <= old(run).iters_used,
    ensures
        final(run).inv(parent.graph.order() as int, cfg.k as nat, cfg.ell as nat, max_iters),
        forall|i: int| 0 <= i < final(candidates)@.len() ==> candidate_ok(#[trigger] final(candidates)@[i], beam_len as int, parent.graph.order() as int),
        *final(scored) - *old(scored) == final(run).iters_used - old(run).iters_used,
        *final(scored) <= final(run).iters_used,
        old(run).best_valid is Some ==> final(run).best_valid is Some,
        old(run).best_invalid is Some ==> final(run).best_invalid is Some,
        final(candidates)@.take(old(candidates)@.len() as int) == old(candidates)@,
        final(candidates)@.len() - old(candidates)@.len() == final(run).iters_used - old(run).iters_used,
        forall|i: int|
            old(candidates)@.len() <= i < final(candidates)@.len() ==> {
                let c = #[trigger] final(candidates)@[i];
                &&& scored_flip(c, *parent, parent_idx, cfg.k as nat, cfg.ell as nat)
                &&& tried(edges@, to_try@, c.1, c.2)
                &&& !old(run).seen@.contains(flip_fp(*parent, c.1 as int, c.2 as int))
                &&& (c.3 == 0 ==> final(run).best_valid is Some)
                &&& (c.3 == 0 ==> found_graph(final(run).discoveries@, toggle(parent.graph@, ordered(c.1 as int, c.2 as int))))
                &&& (c.3 > 0 ==> (final(run).best_invalid matches Some(b) && b.1 <= c.3))
            },
        old(run).seen@.subset_of(final(run).seen@),
        final(run).iters_used < max_iters ==> forall|t: int|
            0 <= t < to_try@.len() ==> final(run).seen@.contains(
                flip_fp(*parent, edges@[#[trigger] to_try@[t] as int].0 as int, edges@[to_try@[t] as int].1 as int),
            ),
        final(run).discoveries@.take(old(run).discoveries@.len() as int) == old(run).discoveries@,
        final(run).discoveries@.len() >= old(run).discoveries@.len(),
        final(candidates)@.len() >= old(candidates)@.len(),
        final(run).iters_used == old(run).iters_used ==> final(run).seen@ == old(run).seen@,
        old(run).best_invalid matches Some(b0) ==> (final(run).best_invalid matches Some(b) && b.1 <= b0.1),
        final(run).best_invalid matches Some(b) ==> (old(run).best_invalid matches Some(b0) && b.0@ == b0.0@) || exists|i: int|
            old(candidates)@.len() <= i < final(candidates)@.len() && b.0@ == #[trigger] cand_graph(*parent, final(candidates)@[i]),
        final(run).seen@ == old(run).seen@.union(fps_of(*parent, final(candidates)@, old(candidates)@.len() as int)),
{
    broadcast use vstd::std_specs::hash::group_hash_axioms;
    let ghost c0 = candidates@.len();
    let ghost d0 = run.discoveries@.len();
    let n = parent.graph.n();
    let ghost nn = n as int;
    let k = cfg.k;
    let ell = cfg.ell;
    let mut t: usize = 0;
    while t < to_try.len()
        invariant
            t <= to_try@.len(),
            n == parent.graph.order(),
            nn == n,
            1 <= n <= 63,
            k == cfg.k,
            ell == cfg.ell,
            entry_ok(*parent, nn, k as nat, ell as nat),
            parent_idx < beam_len,
            tree2_config_ok(cfg),
            forall|i: int| 0 <= i < edges@.len() ==> (#[trigger] edges@[i]).0 < edges@[i].1 < n,
            forall|i: int| 0 <= i < to_try@.len() ==> #[trigger] to_try@[i] < edges@.len(),
            run.inv(nn, k as nat, ell as nat, max_iters),
            forall|i: int| 0 <= i < candidates@.len() ==> candidate_ok(#[trigger] candidates@[i], beam_len as int, nn),
            *scored - *old(scored) == run.iters_used - old(run).iters_used,
            *old(scored) <= old(run).iters_used,
            old(run).iters_used <= run.iters_used,
            old(run).best_valid is Some ==> run.best_valid is Some,
            old(run).best_invalid is Some ==> run.best_invalid is Some,
            c0 == old(candidates)@.len(),
            d0 == old(run).discoveries@.len(),
            candidates@.take(c0 as int) == old(candidates)@,
            candidates@.len() - c0 == run.iters_used - old(run).iters_used,
            forall|i: int|
                c0 <= i < candidates@.len() ==> {
                    let c = #[trigger] candidates@[i];
                    &&& scored_flip(c, *parent, parent_idx, k as nat, ell as nat)
                    &&& tried(edges@, to_try@, c.1, c.2)
                    &&& !old(run).seen@.contains(flip_fp(*parent, c.1 as int, c.2 as int))
                    &&& (c.3 == 0 ==> run.best_valid is Some)
                    &&& (c.3 == 0 ==> found_graph(run.discoveries@, toggle(parent.graph@, ordered(c.1 as int, c.2 as int))))
                    &&& (c.3 > 0 ==> (run.best_invalid matches Some(b) && b.1 <= c.3))
                },
            old(run).seen@.subset_of(run.seen@),
            forall|j: int|
                0 <= j < t ==> run.seen@.contains(
                    flip_fp(*parent, edges@[#[trigger] to_try@[j] as int].0 as int, edges@[to_try@[j] as int].1 as int),
                ),
            d0 <= run.discoveries@.len(),
            run.discoveries@.take(d0 as int) == old(run).discoveries@,
            old(run).best_invalid matches Some(b0) ==> (run.best_invalid matches Some(b) && b.1 <= b0.1),
            run.iters_used == old(run).iters_used ==> run.seen@ == old(run).seen@,
            run.best_invalid matches Some(b) ==> (old(run).best_invalid matches Some(b0) && b.0@ == b0.0@) || exists|i: int|
                c0 <= i < candidates@.len() && b.0@ == #[trigger] cand_graph(*parent, candidates@[i]),
            run.seen@ == old(run).seen@.union(fps_of(*parent, candidates@, c0 as int)),
        ensures
            t == to_try@.len() || run.iters_used >= max_iters,
        decreases to_try@.len() - t,
    {
        if run.iters_used >= max_iters {
            break;
        }
        let ghost d_iter = run.discoveries@;
        let ghost c_iter = candidates@;
        let ghost bi_iter = run.best_invalid;
        let (u, v) = edges[to_try[t]];
        let fp = flipped_fingerprint(&parent.adj_nbrs.masks, u, v);
        let ghost seen_iter = run.seen@;
        if !run.seen.insert(fp) {
            proof {
                assert(run.seen@ =~= seen_iter);
            }
            t = t + 1;
            continue;
        }
        proof {
            lemma_through_bounds(parent.adj_nbrs.masks@, k as nat, u as int, v as int, true);
            lemma_through_bounds(parent.comp_nbrs.masks@, ell as nat, u as int, v as int, true);
            lemma_through_bounds(parent.comp_nbrs.masks@, ell as nat, u as int, v as int, false);
            lemma_entry_flip(*parent, k as nat, ell as nat, u as int, v as int);
            lemma_cliques_of_small(crate::clique::graph_masks(toggle(parent.graph@, ordered(u as int, v as int)), nn), k as nat, nn);
            lemma_cliques_of_small(
                crate::clique::graph_masks(complement_edges(toggle(parent.graph@, ordered(u as int, v as int)), nn), nn),
                ell as nat,
                nn,
            );
            lemma_cliques_of_small(parent.adj_nbrs.masks@, k as nat, nn);
            lemma_cliques_of_small(parent.comp_nbrs.masks@, ell as nat, nn);
        }
        let (dk, de) = violation_delta(&parent.adj_nbrs, &parent.comp_nbrs, k, ell, u, v);
        let new_kc = (parent.kc as i64 + dk) as u64;
        let new_ei = (parent.ei as i64 + de) as u64;
        let new_violations = new_kc + new_ei;
        run.iters_used = run.iters_used + 1;
        *scored = *scored + 1;
        candidates.push((parent_idx, u, v, new_violations, new_kc, new_ei));
        if new_violations == 0 {
            let mut valid_graph = parent.graph.copy_of();
            let cur = valid_graph.edge(u, v);
            valid_graph.set_edge(u, v, !cur);
            assert(valid_graph@ =~= toggle(parent.graph@, ordered(u as int, v as int)));
            let actual = count_violations(&valid_graph, k, ell);
            assert(actual == new_violations);
            if actual == 0 {
                let ghost before = run.discoveries@;
                run.discoveries.push(RawDiscovery { graph: valid_graph.copy_of(), iteration: run.iters_used });
                proof {
                    let d = run.discoveries@;
                    assert forall|j: int| 0 <= j < d.len() implies (#[trigger] d[j]).graph.wf() && d[j].graph.order() == nn
                        && violation_count(d[j].graph@, nn, k as nat, ell as nat) == 0 by {
                        if j < before.len() {
                            assert(d[j] == before[j]);
                        }
                    }
                    assert(d.take(d0 as int) =~= before.take(d0 as int));
                }
                proof {
                    assert(run.discoveries@[before.len() as int].graph@ == valid_graph@);
                    assert(found_graph(run.discoveries@, toggle(parent.graph@, ordered(u as int, v as int))));
                }
                run.best_valid = Some(valid_graph.copy_of());
                if cfg.max_polish_per_depth == 0 || *polish_calls < cfg.max_polish_per_depth as u64 {
                    if *polish_calls < u64::MAX {
                        *polish_calls = *polish_calls + 1;
                    }
                    let ghost before_polish = run.discoveries@;
                    let polished = ils_walk(
                        &valid_graph,
                        k,
                        ell,
                        cfg.polish_max_steps,
                        cfg.polish_tabu_tenure,
                        cfg.polish_ils_restarts,
                        cfg.polish_ils_perturb,
                        &mut run.discoveries,
                        run.iters_used,
                        rng,
                    );
                    proof {
                        let d = run.discoveries@;
                        assert forall|j: int| 0 <= j < d.len() implies (#[trigger] d[j]).graph.wf() && d[j].graph.order()
                            == nn && violation_count(d[j].graph@, nn, k as nat, ell as nat) == 0 by {
                            if j < before_polish.len() {
                                assert(d[j] == before_polish[j]);
                            }
                        }
                        assert(d.take(d0 as int) =~= d.take(before_polish.len() as int).take(d0 as int));
                        assert(d.take(d0 as int) =~= before_polish.take(d0 as int));
                        lemma_found_grows(before_polish, d, toggle(parent.graph@, ordered(u as int, v as int)));
                    }
                    if let Some(p) = polished {
                        run.best_valid = Some(p);
                    }
                }
            }
        } else {
            let better = match &run.best_invalid {
                Some(b) => new_violations < b.1,
                None => true,
            };
            if better {
                let mut g = parent.graph.copy_of();
                let cur = g.edge(u, v);
                g.set_edge(u, v, !cur);
                assert(g@ =~= toggle(parent.graph@, ordered(u as int, v as int)));
                run.best_invalid = Some((g, new_violations));
            }
        }
        proof {
            assert(run.discoveries@.take(d_iter.len() as int) == d_iter);
            assert forall|i: int| c0 <= i < candidates@.len() implies {
                let c = #[trigger] candidates@[i];
                c.3 == 0 ==> found_graph(run.discoveries@, toggle(parent.graph@, ordered(c.1 as int, c.2 as int)))
            } by {
                let c = candidates@[i];
                if c.3 == 0 && i < c_iter.len() {
                    assert(c == c_iter[i]);
                    lemma_found_grows(d_iter, run.discoveries@, toggle(parent.graph@, ordered(c.1 as int, c.2 as int)));
                } else if c.3 == 0 {
                    assert(c == (parent_idx, u, v, new_violations, new_kc, new_ei));
                }
            }
            let fresh = fps_of(*parent, candidates@, c0 as int);
            let last = candidates@.len() - 1;
            assert(candidates@[last] == (parent_idx, u, v, new_violations, new_kc, new_ei));
            assert forall|f: u64| fresh.contains(f) == (fps_of(*parent, c_iter, c0 as int).contains(f) || f == fp) by {
                if fresh.contains(f) {
                    let i = choose|i: int| c0 <= i < candidates@.len() && f == #[trigger] cand_fp(*parent, candidates@[i]);
                    if i < last {
                        assert(candidates@[i] == c_iter[i]);
                    }
                }
                if fps_of(*parent, c_iter, c0 as int).contains(f) {
                    let i = choose|i: int| c0 <= i < c_iter.len() && f == #[trigger] cand_fp(*parent, c_iter[i]);
                    assert(candidates@[i] == c_iter[i]);
                }
                if f == fp {
                    assert(f == cand_fp(*parent, candidates@[last]));
                }
            }
            assert(run.seen@ =~= old(run).seen@.union(fresh));
            if run.best_invalid is Some {
                let b = run.best_invalid->Some_0;
                if bi_iter == run.best_invalid {
                    if !(old(run).best_invalid matches Some(b0) && b.0@ == b0.0@) {
                        let i = choose|i: int| c0 <= i < c_iter.len() && b.0@ == #[trigger] cand_graph(*parent, c_iter[i]);
                        assert(candidates@[i] == c_iter[i]);
                        assert(b.0@ == cand_graph(*parent, candidates@[i]));
                    }
                } else {
                    let i = candidates@.len() - 1;
                    assert(candidates@[i] == (parent_idx, u, v, new_violations, new_kc, new_ei));
                    assert(b.0@ == cand_graph(*parent, candidates@[i]));
                }
            }
        }
        t = t + 1;
    }
}

/// The flips of the entry `e` over the pairs `d` were looked at: with a
/// short share of the budget (`left` over `share` entries, below the
/// number of pairs), some of them, else all of them, have a fingerprint in
/// `seen`.
pub open spec fn covered(e: BeamEntry, d: Seq<(u32, u32)>, seen: Set<u64>, left: int, share: int) -> bool {
    if 0 < left / share < d.len() {
        exists|t: int| 0 <= t < d.len() && #[trigger] seen.contains(flip_fp(e, d[t].0 as int, d[t].1 as int))
    } else {
        forall|t: int| 0 <= t < d.len() ==> #[trigger] seen.contains(flip_fp(e, d[t].0 as int, d[t].1 as int))
    }
}

/// Coverage stays when more fingerprints are seen.
proof fn lemma_covered_grows(e: BeamEntry, d: Seq<(u32, u32)>, s1: Set<u64>, s2: Set<u64>, left: int, share: int)
    requires
        covered(e, d, s1, left, share),
        s1.subset_of(s2),
    ensures
        covered(e, d, s2, left, share),
{
    if 0 < left / share < d.len() {
        let t = choose|t: int| 0 <= t < d.len() && #[trigger] s1.contains(flip_fp(e, d[t].0 as int, d[t].1 as int));
        assert(s2.contains(flip_fp(e, d[t].0 as int, d[t].1 as int)));
    }
}

/// A candidate of a level: it names an entry of `beam` and a pair, carries
/// the flipped graph's counts, and a valid one was found while an invalid
/// one bounds the best invalid graph of `run`.
pub open spec fn level_cand_ok(beam: Seq<BeamEntry>, c: Candidate, run: Tree2Run, n: int, k: nat, ell: nat) -> bool {
    &&& candidate_ok(c, beam.len() as int, n)
    &&& scored_flip(c, beam[c.0 as int], c.0 as usize, k, ell)
    &&& (c.3 == 0 ==> run.best_valid is Some)
    &&& (c.3 == 0 ==> found_graph(run.discoveries@, cand_graph(beam[c.0 as int], c)))
    &&& (c.3 > 0 ==> (run.best_invalid matches Some(b) && b.1 <= c.3))
}

/// The candidates of a level keep their facts when one more entry is
/// expanded.
proof fn lemma_level_cands(
    beam: Seq<BeamEntry>,
    before: Seq<Candidate>,
    after: Seq<Candidate>,
    pi: int,
    r0: Tree2Run,
    r1: Tree2Run,
    n: int,
    k: nat,
    ell: nat,
)
    requires
        0 <= pi < beam.len(),
        pi <= usize::MAX,
        after.len() >= before.len(),
        after.take(before.len() as int) == before,
        forall|i: int| 0 <= i < before.len() ==> level_cand_ok(beam, #[trigger] before[i], r0, n, k, ell),
        forall|i: int| 0 <= i < after.len() ==> candidate_ok(#[trigger] after[i], beam.len() as int, n),
        forall|i: int|
            before.len() <= i < after.len() ==> {
                let c = #[trigger] after[i];
                &&& scored_flip(c, beam[pi], pi as usize, k, ell)
                &&& (c.3 == 0 ==> r1.best_valid is Some)
                &&& (c.3 == 0 ==> found_graph(r1.discoveries@, toggle(beam[pi].graph@, ordered(c.1 as int, c.2 as int))))
                &&& (c.3 > 0 ==> (r1.best_invalid matches Some(b) && b.1 <= c.3))
            },
        r0.best_valid is Some ==> r1.best_valid is Some,
        r0.best_invalid matches Some(b0) ==> (r1.best_invalid matches Some(b) && b.1 <= b0.1),
        r1.discoveries@.len() >= r0.discoveries@.len(),
        r1.discoveries@.take(r0.discoveries@.len() as int) == r0.discoveries@,
    ensures
        forall|i: int| 0 <= i < after.len() ==> level_cand_ok(beam, #[trigger] after[i], r1, n, k, ell),
{
    assert forall|i: int| 0 <= i < after.len() implies level_cand_ok(beam, #[trigger] after[i], r1, n, k, ell) by {
        let c = after[i];
        if i < before.len() {
            assert(after.take(before.len() as int)[i] == after[i]);
            assert(c == before[i]);
            assert(level_cand_ok(beam, before[i], r0, n, k, ell));
            if c.3 == 0 {
                lemma_found_grows(r0.discoveries@, r1.discoveries@, cand_graph(beam[c.0 as int], c));
            }
        } else {
            assert(c.0 == pi);
        }
    }
}

/// The fingerprints of a level's candidates, when one more entry is
/// expanded.
proof fn lemma_level_fps(
    beam: Seq<BeamEntry>,
    before: Seq<Candidate>,
    after: Seq<Candidate>,
    pi: int,
    seen0: Set<u64>,
    s1: Set<u64>,
    s2: Set<u64>,
)
    requires
        0 <= pi < beam.len(),
        after.len() >= before.len(),
        after.take(before.len() as int) == before,
        forall|i: int| before.len() <= i < after.len() ==> (#[trigger] after[i]).0 == pi,
        s1 == seen0.union(level_fps(beam, before)),
        s2 == s1.union(fps_of(beam[pi], after, before.len() as int)),
    ensures
        s2 == seen0.union(level_fps(beam, after)),
{
    let cb = before.len() as int;
    let lf = level_fps(beam, after);
    assert forall|f: u64| lf.contains(f) == (level_fps(beam, before).contains(f) || fps_of(beam[pi], after, cb).contains(f)) by {
        if lf.contains(f) {
            let i = choose|i: int| 0 <= i < after.len() && f == #[trigger] cand_fp(beam[after[i].0 as int], after[i]);
            if i < cb {
                assert(after.take(cb)[i] == after[i]);
            } else {
                assert(after[i].0 == pi);
            }
        }
        if level_fps(beam, before).contains(f) {
            let i = choose|i: int| 0 <= i < before.len() && f == #[trigger] cand_fp(beam[before[i].0 as int], before[i]);
            assert(after.take(cb)[i] == after[i]);
        }
        if fps_of(beam[pi], after, cb).contains(f) {
            let i = choose|i: int| cb <= i < after.len() && f == #[trigger] cand_fp(beam[pi], after[i]);
            assert(after[i].0 == pi);
        }
    }
    assert(s2 =~= seen0.union(lf));
}

/// The best invalid graph of a level is the one it started with or one of
/// its candidates, when one more entry is expanded.
proof fn lemma_level_best(
    beam: Seq<BeamEntry>,
    before: Seq<Candidate>,
    after: Seq<Candidate>,
    pi: int,
    bi0: Option<(AdjacencyMatrix, u64)>,
    bi1: Option<(AdjacencyMatrix, u64)>,
    bi2: Option<(AdjacencyMatrix, u64)>,
)
    requires
        0 <= pi < beam.len(),
        after.len() >= before.len(),
        after.take(before.len() as int) == before,
        forall|i: int| before.len() <= i < after.len() ==> (#[trigger] after[i]).0 == pi,
        bi1 matches Some(b) ==> (bi0 matches Some(b0) && b.0@ == b0.0@) || exists|i: int|
            0 <= i < before.len() && b.0@ == #[trigger] cand_graph(beam[before[i].0 as int], before[i]),
        bi2 matches Some(b) ==> (bi1 matches Some(b1) && b.0@ == b1.0@) || exists|i: int|
            before.len() <= i < after.len() && b.0@ == #[trigger] cand_graph(beam[pi], after[i]),
    ensures
        bi2 matches Some(b) ==> (bi0 matches Some(b0) && b.0@ == b0.0@) || exists|i: int|
            0 <= i < after.len() && b.0@ == #[trigger] cand_graph(beam[after[i].0 as int], after[i]),
{
    let cb = before.len() as int;
    if bi2 is Some {
        let b = bi2->Some_0;
        if !(bi1 matches Some(b1) && b.0@ == b1.0@) {
            let i = choose|i: int| cb <= i < after.len() && b.0@ == #[trigger] cand_graph(beam[pi], after[i]);
            assert(after[i].0 == pi);
            assert(b.0@ == cand_graph(beam[after[i].0 as int], after[i]));
        } else if !(bi0 matches Some(b0) && b.0@ == b0.0@) {
            let b1 = bi1->Some_0;
            let i = choose|i: int| 0 <= i < before.len() && b1.0@ == #[trigger] cand_graph(beam[before[i].0 as int], before[i]);
            assert(after.take(cb)[i] == after[i]);
            assert(b.0@ == cand_graph(beam[after[i].0 as int], after[i]));
        }
    }
}

/// Where each entry's candidates start, when one more entry is expanded.
/// The positions never decrease.
pub open spec fn mono(ps: Seq<int>) -> bool {
    forall|p: int, q: int| 0 <= p <= q < ps.len() ==> #[trigger] ps[p] <= #[trigger] ps[q]
}

/// Position `i` lies in entry `p`'s stretch of candidates.
pub open spec fn in_stretch(ps: Seq<int>, p: int, i: int) -> bool {
    ps[p] <= i < ps[p + 1]
}

proof fn lemma_level_starts(before: Seq<Candidate>, after: Seq<Candidate>, ps: Seq<int>, pi: int)
    requires
        0 <= pi,
        ps.len() == pi + 1,
        ps[0] == 0,
        ps[pi] == before.len(),
        after.len() >= before.len(),
        after.take(before.len() as int) == before,
        forall|i: int| before.len() <= i < after.len() ==> (#[trigger] after[i]).0 == pi,
        mono(ps),
        forall|p: int, i: int| 0 <= p < pi && #[trigger] in_stretch(ps, p, i) ==> before[i].0 == p,
    ensures
        mono(ps.push(after.len() as int)),
        forall|p: int, i: int| 0 <= p < pi + 1 && #[trigger] in_stretch(ps.push(after.len() as int), p, i) ==> after[i].0 == p,
{
    let ps1 = ps.push(after.len() as int);
    assert forall|p: int, q: int| 0 <= p <= q < ps1.len() implies #[trigger] ps1[p] <= #[trigger] ps1[q] by {
        if p == q {
        } else if q < pi + 1 {
            assert(ps1[p] == ps[p] && ps1[q] == ps[q]);
        } else {
            assert(ps1[p] == ps[p]);
            assert(ps[p] <= ps[pi]);
        }
    }
    assert forall|p: int, i: int| 0 <= p < pi + 1 && #[trigger] in_stretch(ps1, p, i) implies after[i].0 == p by {
        if p < pi {
            assert(ps1[p] == ps[p] && ps1[p + 1] == ps[p + 1]);
            assert(ps[p + 1] <= ps[pi]);
            assert(in_stretch(ps, p, i));
            assert(after.take(before.len() as int)[i] == after[i]);
            assert(before[i].0 == p);
        }
    }
}

/// Coverage of a level's entries, when one more entry is expanded.
proof fn lemma_level_cover(
    beam: Seq<BeamEntry>,
    d: Seq<(u32, u32)>,
    ps: Seq<int>,
    pi: int,
    s1: Set<u64>,
    s2: Set<u64>,
    it0: int,
    max_iters: int,
)
    requires
        0 <= pi < beam.len(),
        ps.len() == pi + 1,
        s1.subset_of(s2),
        forall|p: int| 0 <= p < pi ==> #[trigger] covered(beam[p], d, s1, max_iters - (it0 + ps[p]), beam.len() - p),
        covered(beam[pi], d, s2, max_iters - (it0 + ps[pi]), beam.len() - pi),
    ensures
        forall|p: int|
            0 <= p < pi + 1 ==> #[trigger] covered(beam[p], d, s2, max_iters - (it0 + ps[p]), beam.len() - p),
{
    assert forall|p: int| 0 <= p < pi + 1 implies #[trigger] covered(beam[p], d, s2, max_iters - (it0 + ps[p]), beam.len() - p) by {
        if p < pi {
            lemma_covered_grows(beam[p], d, s1, s2, max_iters - (it0 + ps[p]), beam.len() - p);
        }
    }
}

/// The best invalid graph `bi` is the one a level started with (`bi0`) or
/// one of its candidates.
pub open spec fn bi_origin(
    beam: Seq<BeamEntry>,
    cands: Seq<Candidate>,
    bi0: Option<(AdjacencyMatrix, u64)>,
    bi: Option<(AdjacencyMatrix, u64)>,
) -> bool {
    bi matches Some(b) ==> (bi0 matches Some(b0) && b.0@ == b0.0@) || exists|i: int|
        0 <= i < cands.len() && b.0@ == #[trigger] cand_graph(beam[cands[i].0 as int], cands[i])
}

/// The fingerprints of the candidates, each with its parent in `beam`.
pub open spec fn level_fps(beam: Seq<BeamEntry>, cands: Seq<Candidate>) -> Set<u64> {
    Set::new(|f: u64| exists|i: int| 0 <= i < cands.len() && f == #[trigger] cand_fp(beam[cands[i].0 as int], cands[i]))
}

/// Expand one level: score the flips of each entry of the beam over the
/// pairs `depth_edges` (a random part of them when the entry's share of
/// the budget left is short), within the budget. Gives back the
/// candidates, in the order scored, and where each entry's candidates
/// start.
#[verifier::rlimit(100)]
fn expand_level(
    beam: &Vec<BeamEntry>,
    depth_edges: &Vec<(u32, u32)>,
    cfg: &Tree2Config,
    run: &mut Tree2Run,
    max_iters: u64,
    rng: &mut SmallRng,
    n: u32,
) -> (r: (Vec<Candidate>, Ghost<Seq<int>>))
    requires
        1 <= n <= 63,
        tree2_config_ok(cfg),
        forall|i: int| 0 <= i < depth_edges@.len() ==> (#[trigger] depth_edges@[i]).0 < depth_edges@[i].1 < n,
        forall|i: int| 0 <= i < beam@.len() ==> entry_ok(#[trigger] beam@[i], n as int, cfg.k as nat, cfg.ell as nat),
        old(run).inv(n as int, cfg.k as nat, cfg.ell as nat, max_iters),
    ensures
        final(run).inv(n as int, cfg.k as nat, cfg.ell as nat, max_iters),
        old(run).best_valid is Some ==> final(run).best_valid is Some,
        old(run).best_invalid matches Some(b0) ==> (final(run).best_invalid matches Some(b) && b.1 <= b0.1),
        bi_origin(beam@, r.0@, old(run).best_invalid, final(run).best_invalid),
        final(run).discoveries@.take(old(run).discoveries@.len() as int) == old(run).discoveries@,
        final(run).discoveries@.len() >= old(run).discoveries@.len(),
        final(run).iters_used == old(run).iters_used + r.0@.len(),
        final(run).seen@ == old(run).seen@.union(level_fps(beam@, r.0@)),
        forall|i: int| 0 <= i < r.0@.len() ==> level_cand_ok(beam@, #[trigger] r.0@[i], *final(run), n as int, cfg.k as nat, cfg.ell as nat),
        r.1@.len() == beam@.len() + 1,
        r.1@[0] == 0,
        r.1@[beam@.len() as int] == r.0@.len(),
        mono(r.1@),
        forall|p: int, i: int| 0 <= p < beam@.len() && #[trigger] in_stretch(r.1@, p, i) ==> r.0@[i].0 == p,
        final(run).iters_used < max_iters ==> forall|p: int|
            0 <= p < beam@.len() ==> #[trigger] covered(
                beam@[p],
                depth_edges@,
                final(run).seen@,
                max_iters - (old(run).iters_used + r.1@[p]),
                beam@.len() - p,
            ),
{
    let beam_len = beam.len();
    let depth_edge_count = depth_edges.len();
    let ghost it0 = run.iters_used;
    let ghost seen0 = run.seen@;
    let ghost d0 = run.discoveries@;
    let ghost bi0 = run.best_invalid;
    let ghost mut ps: Seq<int> = seq![0];
    let remaining: u64 = if max_iters > run.iters_used {
        max_iters - run.iters_used
    } else {
        0
    };
    let mut candidates: Vec<Candidate> = Vec::new();
    let mut scored: u64 = 0;
    let mut polish_calls: u64 = 0;
    let mut pi: usize = 0;
    assert(seen0.union(level_fps(beam@, candidates@)) =~= seen0);
    assert(run.discoveries@.take(d0.len() as int) =~= d0);
    while pi < beam_len
        invariant
            pi <= beam_len,
            beam_len == beam@.len(),
            1 <= n <= 63,
            tree2_config_ok(cfg),
            forall|i: int| 0 <= i < depth_edges@.len() ==> (#[trigger] depth_edges@[i]).0 < depth_edges@[i].1 < n,
            depth_edge_count == depth_edges@.len(),
            forall|i: int| 0 <= i < beam@.len() ==> entry_ok(#[trigger] beam@[i], n as int, cfg.k as nat, cfg.ell as nat),
            run.inv(n as int, cfg.k as nat, cfg.ell as nat, max_iters),
            bi0 == old(run).best_invalid,
            old(run).best_valid is Some ==> run.best_valid is Some,
            bi0 matches Some(b0) ==> (run.best_invalid matches Some(b) && b.1 <= b0.1),
            run.best_invalid matches Some(b) ==> (bi0 matches Some(b0) && b.0@ == b0.0@) || exists|i: int|
                0 <= i < candidates@.len() && b.0@ == #[trigger] cand_graph(beam@[candidates@[i].0 as int], candidates@[i]),
            d0 == old(run).discoveries@,
            run.discoveries@.take(d0.len() as int) == d0,
            run.discoveries@.len() >= d0.len(),
            it0 == old(run).iters_used,
            run.iters_used == it0 + candidates@.len(),
            scored == candidates@.len(),
            it0 < max_iters ==> remaining == max_iters - it0,
            seen0 == old(run).seen@,
            run.seen@ == seen0.union(level_fps(beam@, candidates@)),
            forall|i: int| 0 <= i < candidates@.len() ==> level_cand_ok(beam@, #[trigger] candidates@[i], *run, n as int, cfg.k as nat, cfg.ell as nat),
            ps.len() == pi + 1,
            ps[0] == 0,
            ps[pi as int] == candidates@.len(),
            mono(ps),
            forall|p: int, i: int| 0 <= p < pi && #[trigger] in_stretch(ps, p, i) ==> candidates@[i].0 == p,
            run.iters_used < max_iters ==> forall|p: int|
                0 <= p < pi ==> #[trigger] covered(beam@[p], depth_edges@, run.seen@, max_iters - (it0 + ps[p]), beam@.len() - p),
        ensures
            pi == beam_len || run.iters_used >= max_iters,
            pi <= beam_len,
            bi0 == old(run).best_invalid,
            d0 == old(run).discoveries@,
            it0 == old(run).iters_used,
            seen0 == old(run).seen@,
            run.inv(n as int, cfg.k as nat, cfg.ell as nat, max_iters),
            old(run).best_valid is Some ==> run.best_valid is Some,
            bi0 matches Some(b0) ==> (run.best_invalid matches Some(b) && b.1 <= b0.1),
            run.best_invalid matches Some(b) ==> (bi0 matches Some(b0) && b.0@ == b0.0@) || exists|i: int|
                0 <= i < candidates@.len() && b.0@ == #[trigger] cand_graph(beam@[candidates@[i].0 as int], candidates@[i]),
            run.discoveries@.take(d0.len() as int) == d0,
            run.discoveries@.len() >= d0.len(),
            run.iters_used == it0 + candidates@.len(),
            run.seen@ == seen0.union(level_fps(beam@, candidates@)),
            forall|i: int| 0 <= i < candidates@.len() ==> level_cand_ok(beam@, #[trigger] candidates@[i], *run, n as int, cfg.k as nat, cfg.ell as nat),
            ps.len() == pi + 1,
            ps[0] == 0,
            ps[pi as int] == candidates@.len(),
            mono(ps),
            forall|p: int, i: int| 0 <= p < pi && #[trigger] in_stretch(ps, p, i) ==> candidates@[i].0 == p,
            run.iters_used < max_iters ==> forall|p: int|
                0 <= p < pi ==> #[trigger] covered(beam@[p], depth_edges@, run.seen@, max_iters - (it0 + ps[p]), beam@.len() - p),
        decreases beam_len - pi,
    {
        if run.iters_used >= max_iters {
            break;
        }
        let left = if remaining > scored {
            remaining - scored
        } else {
            0
        };
        let share = (beam_len - pi) as u64;
        let per_parent = left / share;
        let edges_to_try = if depth_edge_count as u64 > per_parent && per_parent > 0 {
            per_parent as usize
        } else {
            depth_edge_count
        };
        let to_try = pairs_to_try(rng, depth_edge_count, edges_to_try);
        assert(entry_ok(beam@[pi as int], n as int, cfg.k as nat, cfg.ell as nat));
        let ghost run_before = *run;
        let ghost cands_before = candidates@;
        let ghost parent = beam@[pi as int];
        assert forall|i: int| 0 <= i < candidates@.len() implies candidate_ok(#[trigger] candidates@[i], beam_len as int, n as int) by {}
        expand_parent(
            &beam[pi],
            pi,
            beam_len,
            depth_edges,
            &to_try,
            cfg,
            run,
            &mut candidates,
            &mut polish_calls,
            &mut scored,
            max_iters,
            rng,
        );
        proof {
            let cb = cands_before.len() as int;
            lemma_level_cands(beam@, cands_before, candidates@, pi as int, run_before, *run, n as int, cfg.k as nat, cfg.ell as nat);
            assert(run.discoveries@.take(d0.len() as int) =~= run.discoveries@.take(run_before.discoveries@.len() as int).take(d0.len() as int));
            lemma_level_fps(beam@, cands_before, candidates@, pi as int, seen0, run_before.seen@, run.seen@);
            lemma_level_best(beam@, cands_before, candidates@, pi as int, bi0, run_before.best_invalid, run.best_invalid);
            assert forall|i: int| 0 <= i < cb implies #[trigger] candidates@[i] == cands_before[i] by {
                assert(candidates@.take(cb)[i] == candidates@[i]);
            }
            // Where this entry's candidates start and end.
            let ps1 = ps.push(candidates@.len() as int);
            lemma_level_starts(cands_before, candidates@, ps, pi as int);
            // Coverage.
            if run.iters_used < max_iters {
                assert(left == max_iters - (it0 + cb));
                assert(covered(parent, depth_edges@, run.seen@, left as int, share as int)) by {
                    if 0 < left / share < depth_edges@.len() {
                        assert(to_try@.len() > 0);
                        let t = to_try@[0] as int;
                        assert(run.seen@.contains(flip_fp(parent, depth_edges@[t].0 as int, depth_edges@[t].1 as int)));
                    } else {
                        assert forall|t: int| 0 <= t < depth_edges@.len() implies #[trigger] run.seen@.contains(
                            flip_fp(parent, depth_edges@[t].0 as int, depth_edges@[t].1 as int),
                        ) by {
                            assert(to_try@[t] == t);
                        }
                    }
                }
                lemma_level_cover(beam@, depth_edges@, ps, pi as int, run_before.seen@, run.seen@, it0 as int, max_iters as int);
            }
            ps = ps1;
        }
        pi = pi + 1;
    }
    proof {
        let rest = Seq::new((beam_len - pi) as nat, |j: int| candidates@.len() as int);
        let ps0 = ps;
        let pi0 = pi as int;
        ps = ps + rest;
        assert forall|p: int, q: int| 0 <= p <= q < ps.len() implies #[trigger] ps[p] <= #[trigger] ps[q] by {
            if q <= pi0 {
                assert(ps[p] == ps0[p] && ps[q] == ps0[q]);
            } else if p <= pi0 {
                assert(ps[p] == ps0[p]);
                assert(ps0[p] <= ps0[pi0]);
            }
        }
        assert forall|p: int, i: int| 0 <= p < beam@.len() && #[trigger] in_stretch(ps, p, i) implies candidates@[i].0 == p by {
            if p < pi0 {
                assert(ps[p] == ps0[p] && ps[p + 1] == ps0[p + 1]);
                assert(in_stretch(ps0, p, i));
            }
        }
    }
    assert(bi_origin(beam@, candidates@, bi0, run.best_invalid));
    (candidates, Ghost(ps))
}

/// Entry `b` has the fewest violations of the beam, and every entry before
/// it has more.
pub open spec fn first_least(beam: Seq<BeamEntry>, b: int) -> bool {
    &&& 0 <= b < beam.len()
    &&& forall|i: int| 0 <= i < beam.len() ==> beam[b].violations <= #[trigger] beam[i].violations
    &&& forall|i: int| 0 <= i < b ==> beam[b].violations < #[trigger] beam[i].violations
}

/// The index of the first entry with the fewest violations.
fn least_violations(beam: &Vec<BeamEntry>) -> (r: usize)
    requires
        beam@.len() > 0,
    ensures
        first_least(beam@, r as int),
{
    let mut best: usize = 0;
    let mut i: usize = 1;
    while i < beam.len()
        invariant
            beam@.len() > 0,
            best < i <= beam@.len(),
            forall|j: int| 0 <= j < i ==> beam@[best as int].violations <= #[trigger] beam@[j].violations,
            forall|j: int| 0 <= j < best ==> beam@[best as int].violations < #[trigger] beam@[j].violations,
        decreases beam@.len() - i,
    {
        if beam[i].violations < beam[best].violations {
            best = i;
        }
        i = i + 1;
    }
    best
}

/// A copy of a list of pairs.
pub(crate) fn copy_pairs(v: &Vec<(u32, u32)>) -> (r: Vec<(u32, u32)>)
    ensures
        r@ == v@,
{
    let mut r: Vec<(u32, u32)> = Vec::new();
    let mut i: usize = 0;
    while i < v.len()
        invariant
            i <= v@.len(),
            r@ == v@.take(i as int),
        decreases v@.len() - i,
    {
        r.push(v[i]);
        proof {
            assert(r@ =~= v@.take(i + 1));
        }
        i = i + 1;
    }
    assert(v@.take(i as int) =~= v@);
    r
}

/// The pairs a depth flips: all of them, or, when focusing and the best
/// entry still has violations, the pairs lying in one of them (all pairs
/// when there is none).
fn depth_pairs(beam: &Vec<BeamEntry>, all_edges: &Vec<(u32, u32)>, cfg: &Tree2Config, n: u32) -> (r: Vec<(u32, u32)>)
    requires
        beam@.len() > 0,
        forall|i: int| 0 <= i < beam@.len() ==> entry_ok(#[trigger] beam@[i], n as int, cfg.k as nat, cfg.ell as nat),
        n <= 63,
        forall|i: int| 0 <= i < all_edges@.len() ==> (#[trigger] all_edges@[i]).0 < all_edges@[i].1 < n,
    ensures
        forall|i: int| 0 <= i < r@.len() ==> (#[trigger] r@[i]).0 < r@[i].1 < n,
        !cfg.focused ==> r@ == all_edges@,
        all_edges@.len() > 0 ==> r@.len() > 0,
        cfg.focused ==> forall|b: int| #[trigger] first_least(beam@, b) ==> {
            let g = guilty_pairs(beam@[b].adj_nbrs.masks@, beam@[b].comp_nbrs.masks@, cfg.k as nat, cfg.ell as nat, n as int);
            if beam@[b].violations > 0 && exists|x: u32, y: u32| #[trigger] g.contains((x as int, y as int)) {
                forall|x: u32, y: u32| #[trigger] r@.contains((x, y)) <==> g.contains((x as int, y as int))
            } else {
                r@ == all_edges@
            }
        },
{
    if cfg.focused {
        let b = least_violations(beam);
        let best = &beam[b];
        assert(entry_ok(beam@[b as int], n as int, cfg.k as nat, cfg.ell as nat));
        proof {
            assert forall|c: int| #[trigger] first_least(beam@, c) implies c == b by {
                if c < b {
                    assert(beam@[b as int].violations < beam@[c].violations);
                    assert(beam@[c].violations <= beam@[b as int].violations);
                } else if c > b {
                    assert(beam@[c].violations < beam@[b as int].violations);
                }
            }
        }
        let ghost g = guilty_pairs(best.adj_nbrs.masks@, best.comp_nbrs.masks@, cfg.k as nat, cfg.ell as nat, n as int);
        if best.violations > 0 {
            let ge = guilty_edges(&best.adj_nbrs, &best.comp_nbrs, cfg.k, cfg.ell, n);
            if ge.len() == 0 {
                proof {
                    assert forall|x: u32, y: u32| !g.contains((x as int, y as int)) by {
                        if g.contains((x as int, y as int)) {
                            assert(ge@.contains((x, y)));
                        }
                    }
                }
                copy_pairs(all_edges)
            } else {
                proof {
                    let p = ge@[0];
                    assert(ge@.contains(p));
                    assert(ge@.contains((p.0, p.1)));
                    assert(g.contains((p.0 as int, p.1 as int)));
                }
                ge
            }
        } else {
            copy_pairs(all_edges)
        }
    } else {
        copy_pairs(all_edges)
    }
}

/// Drop fingerprints beyond the carry limit, the first ones the set
/// yields: a set over the limit is cut down to exactly the limit, one at
/// or under it is left alone.
fn cap_seen(seen: &mut HashSet<u64>)
    ensures
        final(seen)@.subset_of(old(seen)@),
        old(seen)@.len() <= MAX_CARRY_SIZE ==> final(seen)@ == old(seen)@,
        old(seen)@.len() > MAX_CARRY_SIZE ==> final(seen)@.len() == MAX_CARRY_SIZE,
{
    broadcast use vstd::std_specs::hash::group_hash_axioms;
    let ghost s0 = seen@;
    if seen.len() > MAX_CARRY_SIZE {
        let excess = seen.len() - MAX_CARRY_SIZE;
        let mut to_remove: Vec<u64> = Vec::new();
        for fp in it: seen.iter()
            invariant
                excess < s0.len(),
                s0 == seen@,
                it.seq().len() == s0.len(),
                it.seq().no_duplicates(),
                it.seq().unref().to_set() == s0,
                to_remove@.len() == if it.index() < excess { it.index() } else { excess as int },
                forall|j: int| 0 <= j < to_remove@.len() ==> to_remove@[j] == *it.seq()[j],
                forall|j: int| 0 <= j < to_remove@.len() ==> s0.contains(#[trigger] to_remove@[j]),
                to_remove@.no_duplicates(),
        {
            if to_remove.len() < excess {
                proof {
                    let idx = to_remove@.len() as int;
                    assert(it.seq().unref()[idx] == *it.seq()[idx]);
                    assert(it.seq().unref().contains(*it.seq()[idx]));
                    assert(s0.contains(*fp));
                    assert forall|j: int| 0 <= j < idx implies to_remove@[j] != *fp by {
                        assert(it.seq()[j] != it.seq()[idx]);
                    }
                }
                to_remove.push(*fp);
            }
        }
        let ghost tr = to_remove@;
        proof {
            assert(tr.len() == excess);
            assert(s0.finite());
        }
        let mut i: usize = 0;
        while i < to_remove.len()
            invariant
                tr == to_remove@,
                tr.len() == excess,
                excess < s0.len(),
                s0.finite(),
                i <= tr.len(),
                tr.no_duplicates(),
                seen@.subset_of(s0),
                seen@.finite(),
                seen@.len() == s0.len() - i,
                forall|j: int| i <= j < tr.len() ==> seen@.contains(#[trigger] tr[j]),
            decreases tr.len() - i,
        {
            let ghost before = seen@;
            seen.remove(&to_remove[i]);
            proof {
                assert(seen@ == before.remove(tr[i as int]));
                assert forall|j: int| i + 1 <= j < tr.len() implies seen@.contains(#[trigger] tr[j]) by {
                    assert(tr[j] != tr[i as int]);
                }
            }
            i = i + 1;
        }
    }
}

/// What every beam round satisfies, given `flips`, the graphs of the
/// flips it scored with their violation counts, in order: each cost one
/// iteration; each count is its graph's; each valid one is among `found`;
/// and when nothing valid was found, the best graph has no more violations
/// than any of them.
pub open spec fn beam_flips(
    n: int,
    k: nat,
    ell: nat,
    r: SearchResult,
    found: Seq<RawDiscovery>,
    flips: Seq<(Set<(int, int)>, nat)>,
) -> bool {
    &&& flips.len() == r.iterations_used
    &&& forall|i: int|
        0 <= i < flips.len() ==> {
            &&& (#[trigger] flips[i]).1 == violation_count(flips[i].0, n, k, ell)
            &&& flips[i].1 == 0 ==> found_graph(found, flips[i].0)
            &&& !r.valid ==> violation_count(r.best_graph->Some_0@, n, k, ell) <= flips[i].1
        }
}

/// The flips scored so far are accounted for in `run`.
pub open spec fn flips_in_run(n: int, k: nat, ell: nat, run: Tree2Run, flips: Seq<(Set<(int, int)>, nat)>) -> bool {
    &&& flips.len() == run.iters_used
    &&& forall|i: int|
        0 <= i < flips.len() ==> {
            &&& (#[trigger] flips[i]).1 == violation_count(flips[i].0, n, k, ell)
            &&& flips[i].1 == 0 ==> found_graph(run.discoveries@, flips[i].0) && run.best_valid is Some
            &&& flips[i].1 > 0 ==> (run.best_invalid matches Some(b) && b.1 <= flips[i].1)
        }
}

/// `h` is `g` with one pair of `0..n` flipped.
pub open spec fn one_flip(g: Set<(int, int)>, h: Set<(int, int)>, n: int) -> bool {
    exists|u: int, v: int| 0 <= u < v < n && h == #[trigger] toggle(g, (u, v))
}

/// The fingerprint of the graph `g` on `n` vertices.
pub open spec fn graph_fp(g: Set<(int, int)>, n: int) -> u64 {
    fingerprint_of(graph_masks(g, n))
}

/// The flips of the graph `g` over the pairs `d` were looked at: with a
/// short share of the budget (`left` over `share` entries, below the
/// number of pairs), some of them, else all of them, have a fingerprint in
/// `seen`.
pub open spec fn graph_covered(g: Set<(int, int)>, n: int, d: Seq<(u32, u32)>, seen: Set<u64>, left: int, share: int) -> bool {
    if 0 < left / share < d.len() {
        exists|t: int| 0 <= t < d.len() && #[trigger] seen.contains(graph_fp(toggle(g, ordered(d[t].0 as int, d[t].1 as int)), n))
    } else {
        forall|t: int| 0 <= t < d.len() ==> #[trigger] seen.contains(graph_fp(toggle(g, ordered(d[t].0 as int, d[t].1 as int)), n))
    }
}

/// The fingerprints of the graphs flipped.
pub open spec fn flip_fps(flips: Seq<(Set<(int, int)>, nat)>, n: int) -> Set<u64> {
    Set::new(|f: u64| exists|i: int| 0 <= i < flips.len() && f == #[trigger] graph_fp(flips[i].0, n))
}

/// Level `d` of a beam search: each of its entries has a stretch of the
/// flips, which flip one pair of that entry.
pub open spec fn level_ok(levels: Seq<Seq<Set<(int, int)>>>, pst: Seq<Seq<int>>, flips: Seq<(Set<(int, int)>, nat)>, d: int, n: int) -> bool {
    &&& pst[d].len() == levels[d].len() + 1
    &&& mono(pst[d])
    &&& forall|p: int, i: int|
        0 <= p < levels[d].len() && #[trigger] in_stretch(pst[d], p, i) ==> 0 <= i < flips.len() && one_flip(levels[d][p], flips[i].0, n)
}

/// Each entry of a level after the first is one of the flips of the level
/// before.
pub open spec fn levels_linked(levels: Seq<Seq<Set<(int, int)>>>, pst: Seq<Seq<int>>, flips: Seq<(Set<(int, int)>, nat)>) -> bool {
    forall|d: int, j: int|
        0 <= d < levels.len() - 1 && 0 <= j < levels[d + 1].len() ==> #[trigger] from_level(levels, pst, flips, d, j)
}

/// Entry `j` of level `d + 1` is one of the flips of level `d`.
pub open spec fn from_level(levels: Seq<Seq<Set<(int, int)>>>, pst: Seq<Seq<int>>, flips: Seq<(Set<(int, int)>, nat)>, d: int, j: int) -> bool {
    exists|i: int| pst[d][0] <= i < pst[d + 1][0] && levels[d + 1][j] == #[trigger] flips[i].0
}

/// How far a beam search went from the seed `seed`, given the flips it
/// scored, the graphs of each level it expanded (`levels`), where each
/// entry's flips start (`pst`), the pairs each level flipped (`pairs`) and
/// the fingerprints seen at the end (`seen`): the first level is the seed;
/// each entry of the next level is a flip of the one before; each flip
/// flips one pair of an entry of its level; while the budget lasts, the
/// flips of each entry over its level's pairs were all looked at (some of
/// them when its share of the budget is short); and with budget left the
/// search stopped only at the depth limit, after a level that scored
/// nothing, or with a beam width of zero.
pub open spec fn beam_levels(
    seed: Set<(int, int)>,
    n: int,
    max_depth: u32,
    max_iters: u64,
    width: usize,
    flips: Seq<(Set<(int, int)>, nat)>,
    levels: Seq<Seq<Set<(int, int)>>>,
    pst: Seq<Seq<int>>,
    pairs: Seq<Seq<(u32, u32)>>,
    seen: Set<u64>,
) -> bool {
    let l = levels.len();
    &&& l <= max_depth
    &&& pst.len() == l && pairs.len() == l
    &&& (max_iters > 0 && max_depth > 0 ==> l >= 1)
    &&& (l >= 1 ==> levels[0] == seq![seed] && pst[0][0] == 0 && pst[l - 1][levels[l - 1].len() as int] == flips.len())
    &&& forall|d: int| 0 <= d < l ==> #[trigger] level_ok(levels, pst, flips, d, n)
    &&& forall|d: int| 0 <= d < l - 1 ==> #[trigger] pst[d + 1][0] == pst[d][levels[d].len() as int]
    &&& levels_linked(levels, pst, flips)
    &&& flips.len() < max_iters ==> forall|d: int, p: int|
        0 <= d < l && 0 <= p < levels[d].len() ==> #[trigger] graph_covered(
            levels[d][p],
            n,
            pairs[d],
            seen,
            max_iters - pst[d][p],
            levels[d].len() - p,
        )
    &&& flips.len() < max_iters && max_depth > 0 ==> l == max_depth || pst[l - 1][0] == flips.len() || width == 0
}

/// The fingerprint of a flip of a beam entry is that of the flipped graph.
proof fn lemma_flip_fp(e: BeamEntry, u: int, v: int, n: int)
    requires
        e.wf(),
        e.graph.order() == n,
        0 <= u < v < n,
    ensures
        flip_fp(e, u, v) == graph_fp(toggle(e.graph@, ordered(u, v)), n),
{
    crate::exchange::lemma_row_masks_exist(e.graph@, n);
    crate::tree2::lemma_flip_masks(e.adj_nbrs.masks@, e.graph@, n, u, v);
}

/// The flips a level scored, in order: each candidate's graph and count.
pub open spec fn level_flips(beam: Seq<BeamEntry>, cands: Seq<Candidate>) -> Seq<(Set<(int, int)>, nat)> {
    Seq::new(cands.len(), |j: int| (cand_graph(beam[cands[j].0 as int], cands[j]), cands[j].3 as nat))
}

/// The best invalid graph is the seed or one of the flips.
pub open spec fn best_from(bi: Option<(AdjacencyMatrix, u64)>, seed: Set<(int, int)>, flips: Seq<(Set<(int, int)>, nat)>) -> bool {
    bi matches Some(b) ==> b.0@ == seed || exists|i: int| 0 <= i < flips.len() && #[trigger] flips[i].0 == b.0@
}

/// Coverage of an entry, read on its graph.
proof fn lemma_cover_graph(e: BeamEntry, n: int, d: Seq<(u32, u32)>, seen: Set<u64>, left: int, share: int)
    requires
        e.wf(),
        e.graph.order() == n,
        forall|i: int| 0 <= i < d.len() ==> (#[trigger] d[i]).0 < d[i].1 < n,
        covered(e, d, seen, left, share),
    ensures
        graph_covered(e.graph@, n, d, seen, left, share),
{
    assert forall|t: int| 0 <= t < d.len() implies flip_fp(e, d[t].0 as int, d[t].1 as int) == graph_fp(
        toggle(e.graph@, ordered(d[t].0 as int, d[t].1 as int)),
        n,
    ) by {
        lemma_flip_fp(e, d[t].0 as int, d[t].1 as int, n);
    }
    if 0 < left / share < d.len() {
        let t = choose|t: int| 0 <= t < d.len() && #[trigger] seen.contains(flip_fp(e, d[t].0 as int, d[t].1 as int));
        assert(seen.contains(graph_fp(toggle(e.graph@, ordered(d[t].0 as int, d[t].1 as int)), n)));
    } else {
        assert forall|t: int| 0 <= t < d.len() implies #[trigger] seen.contains(
            graph_fp(toggle(e.graph@, ordered(d[t].0 as int, d[t].1 as int)), n),
        ) by {
            assert(seen.contains(flip_fp(e, d[t].0 as int, d[t].1 as int)));
        }
    }
}

/// Coverage of a graph stays when more fingerprints are seen.
proof fn lemma_graph_covered_grows(g: Set<(int, int)>, n: int, d: Seq<(u32, u32)>, s1: Set<u64>, s2: Set<u64>, left: int, share: int)
    requires
        graph_covered(g, n, d, s1, left, share),
        s1.subset_of(s2),
    ensures
        graph_covered(g, n, d, s2, left, share),
{
    if 0 < left / share < d.len() {
        let t = choose|t: int| 0 <= t < d.len() && #[trigger] s1.contains(graph_fp(toggle(g, ordered(d[t].0 as int, d[t].1 as int)), n));
        assert(s2.contains(graph_fp(toggle(g, ordered(d[t].0 as int, d[t].1 as int)), n)));
    }
}

/// One expanded level, read as flips: the run accounts for the old flips
/// and the level's; the best invalid graph is still the seed or a flip;
/// the fingerprints seen are the start's and the flips'.
proof fn lemma_level_step(
    beam: Seq<BeamEntry>,
    cands: Seq<Candidate>,
    f0: Seq<(Set<(int, int)>, nat)>,
    r0: Tree2Run,
    r1: Tree2Run,
    seen1: Set<u64>,
    sv: Set<(int, int)>,
    n: int,
    k: nat,
    ell: nat,
)
    requires
        1 <= n <= 63,
        forall|i: int| 0 <= i < beam.len() ==> entry_ok(#[trigger] beam[i], n, k, ell),
        flips_in_run(n, k, ell, r0, f0),
        best_from(r0.best_invalid, sv, f0),
        r0.seen@ == seen1.union(flip_fps(f0, n)),
        r0.best_valid is Some ==> r1.best_valid is Some,
        r0.best_invalid matches Some(b0) ==> (r1.best_invalid matches Some(b) && b.1 <= b0.1),
        bi_origin(beam, cands, r0.best_invalid, r1.best_invalid),
        r1.discoveries@.take(r0.discoveries@.len() as int) == r0.discoveries@,
        r1.discoveries@.len() >= r0.discoveries@.len(),
        r1.iters_used == r0.iters_used + cands.len(),
        r1.seen@ == r0.seen@.union(level_fps(beam, cands)),
        forall|i: int| 0 <= i < cands.len() ==> level_cand_ok(beam, #[trigger] cands[i], r1, n, k, ell),
    ensures
        ({
            let f1 = f0 + level_flips(beam, cands);
            &&& flips_in_run(n, k, ell, r1, f1)
            &&& best_from(r1.best_invalid, sv, f1)
            &&& r1.seen@ == seen1.union(flip_fps(f1, n))
        }),
{
    let added = level_flips(beam, cands);
    let f1 = f0 + added;
    assert forall|i: int| 0 <= i < f1.len() implies {
        &&& (#[trigger] f1[i]).1 == violation_count(f1[i].0, n, k, ell)
        &&& f1[i].1 == 0 ==> found_graph(r1.discoveries@, f1[i].0) && r1.best_valid is Some
        &&& f1[i].1 > 0 ==> (r1.best_invalid matches Some(b) && b.1 <= f1[i].1)
    } by {
        if i < f0.len() {
            assert(f1[i] == f0[i]);
            if f0[i].1 == 0 {
                lemma_found_grows(r0.discoveries@, r1.discoveries@, f0[i].0);
            }
        } else {
            let c = cands[i - f0.len()];
            assert(f1[i] == added[i - f0.len()]);
            assert(level_cand_ok(beam, c, r1, n, k, ell));
        }
    }
    if r1.best_invalid is Some {
        let b = r1.best_invalid->Some_0;
        if r0.best_invalid matches Some(b0) && b.0@ == b0.0@ {
            let b0 = r0.best_invalid->Some_0;
            if b0.0@ != sv {
                let i = choose|i: int| 0 <= i < f0.len() && #[trigger] f0[i].0 == b0.0@;
                assert(f1[i] == f0[i]);
            }
        } else {
            let i = choose|i: int| 0 <= i < cands.len() && b.0@ == #[trigger] cand_graph(beam[cands[i].0 as int], cands[i]);
            assert(f1[f0.len() + i] == added[i]);
            assert(f1[f0.len() + i].0 == b.0@);
        }
    }
    assert forall|f: u64| flip_fps(f1, n).contains(f) == (flip_fps(f0, n).contains(f) || level_fps(beam, cands).contains(f)) by {
        if flip_fps(f1, n).contains(f) {
            let i = choose|i: int| 0 <= i < f1.len() && f == #[trigger] graph_fp(f1[i].0, n);
            if i < f0.len() {
                assert(f1[i] == f0[i]);
            } else {
                let j = i - f0.len();
                let c = cands[j];
                assert(f1[i] == added[j]);
                assert(level_cand_ok(beam, c, r1, n, k, ell));
                lemma_flip_fp(beam[c.0 as int], c.1 as int, c.2 as int, n);
                assert(f == cand_fp(beam[cands[j].0 as int], cands[j]));
            }
        }
        if flip_fps(f0, n).contains(f) {
            let i = choose|i: int| 0 <= i < f0.len() && f == #[trigger] graph_fp(f0[i].0, n);
            assert(f1[i] == f0[i]);
        }
        if level_fps(beam, cands).contains(f) {
            let j = choose|j: int| 0 <= j < cands.len() && f == #[trigger] cand_fp(beam[cands[j].0 as int], cands[j]);
            let c = cands[j];
            assert(level_cand_ok(beam, c, r1, n, k, ell));
            lemma_flip_fp(beam[c.0 as int], c.1 as int, c.2 as int, n);
            assert(f1[f0.len() + j] == added[j]);
            assert(f == graph_fp(f1[f0.len() + j].0, n));
        }
    }
    assert(r1.seen@ =~= seen1.union(flip_fps(f1, n)));
}

/// The graphs of a beam.
pub open spec fn beam_graphs(beam: Seq<BeamEntry>) -> Seq<Set<(int, int)>> {
    Seq::new(beam.len(), |j: int| beam[j].graph@)
}

/// Where each entry's flips start, counted from `base`.
pub open spec fn shifted(ps: Seq<int>, base: int) -> Seq<int> {
    Seq::new(ps.len(), |p: int| base + ps[p])
}

/// The levels so far, before the beam `beam` is expanded at depth `depth`:
/// the first is the seed; each has stretches of one-pair flips; the
/// stretches follow one another; each entry of a level is a flip of the
/// level before; and the beam is the seed, or flips of the last level.
pub open spec fn levels_so_far(
    sv: Set<(int, int)>,
    n: int,
    beam: Seq<Set<(int, int)>>,
    flips: Seq<(Set<(int, int)>, nat)>,
    levels: Seq<Seq<Set<(int, int)>>>,
    pst: Seq<Seq<int>>,
    pairs: Seq<Seq<(u32, u32)>>,
) -> bool {
    let depth = levels.len();
    &&& levels_core(sv, n, flips, levels, pst, pairs)
    &&& depth == 0 ==> beam == seq![sv] && flips.len() == 0
    &&& depth >= 1 ==> forall|j: int| 0 <= j < beam.len() ==> among_flips(pst[depth - 1][0], flips, #[trigger] beam[j])
}

/// `g` is the graph of one of the flips from position `lo` on.
pub open spec fn among_flips(lo: int, flips: Seq<(Set<(int, int)>, nat)>, g: Set<(int, int)>) -> bool {
    exists|i: int| lo <= i < flips.len() && g == #[trigger] flips[i].0
}

/// `g` is the graph of one of the candidates.
pub open spec fn from_cands(beam: Seq<BeamEntry>, cands: Seq<Candidate>, g: Set<(int, int)>) -> bool {
    exists|w: int| 0 <= w < cands.len() && g == #[trigger] cand_graph(beam[cands[w].0 as int], cands[w])
}

/// The levels so far: the first is the seed; each has stretches of
/// one-pair flips within the flips; the stretches follow one another; and
/// each entry of a level is a flip of the level before.
pub open spec fn levels_core(
    sv: Set<(int, int)>,
    n: int,
    flips: Seq<(Set<(int, int)>, nat)>,
    levels: Seq<Seq<Set<(int, int)>>>,
    pst: Seq<Seq<int>>,
    pairs: Seq<Seq<(u32, u32)>>,
) -> bool {
    let depth = levels.len();
    &&& pst.len() == depth && pairs.len() == depth
    &&& depth >= 1 ==> levels[0] == seq![sv] && pst[0][0] == 0 && pst[depth - 1][levels[depth - 1].len() as int]
        == flips.len()
    &&& forall|d: int|
        0 <= d < depth ==> (#[trigger] level_ok(levels, pst, flips, d, n)) && 0 <= pst[d][0] && pst[d][levels[d].len() as int]
            <= flips.len()
    &&& forall|d: int| 0 <= d < depth - 1 ==> #[trigger] pst[d + 1][0] == pst[d][levels[d].len() as int]
    &&& levels_linked(levels, pst, flips)
}

/// Pushing the expanded beam as a new level keeps the levels in order.
proof fn lemma_levels_push(
    sv: Set<(int, int)>,
    n: int,
    beam: Seq<BeamEntry>,
    cands: Seq<Candidate>,
    ps: Seq<int>,
    f0: Seq<(Set<(int, int)>, nat)>,
    levels: Seq<Seq<Set<(int, int)>>>,
    pst: Seq<Seq<int>>,
    pairs: Seq<Seq<(u32, u32)>>,
    d_edges: Seq<(u32, u32)>,
)
    requires
        levels_so_far(sv, n, beam_graphs(beam), f0, levels, pst, pairs),
        ps.len() == beam.len() + 1,
        ps[0] == 0,
        ps[beam.len() as int] == cands.len(),
        mono(ps),
        forall|p: int, i: int| 0 <= p < beam.len() && #[trigger] in_stretch(ps, p, i) ==> cands[i].0 == p,
        forall|i: int| 0 <= i < cands.len() ==> candidate_ok(#[trigger] cands[i], beam.len() as int, n),
    ensures
        ({
            let f1 = f0 + level_flips(beam, cands);
            let l1 = levels.push(beam_graphs(beam));
            let p1 = pst.push(shifted(ps, f0.len() as int));
            let q1 = pairs.push(d_edges);
            &&& l1.len() == levels.len() + 1 && p1.len() == l1.len() && q1.len() == l1.len()
            &&& l1[0] == seq![sv] && p1[0][0] == 0 && p1[levels.len() as int][beam.len() as int] == f1.len()
            &&& forall|d: int|
                0 <= d < l1.len() ==> (#[trigger] level_ok(l1, p1, f1, d, n)) && 0 <= p1[d][0] && p1[d][l1[d].len() as int]
                    <= f1.len()
            &&& forall|d: int| 0 <= d < l1.len() - 1 ==> #[trigger] p1[d + 1][0] == p1[d][l1[d].len() as int]
            &&& levels_linked(l1, p1, f1)
            &&& forall|d: int| 0 <= d < levels.len() ==> #[trigger] p1[d] == pst[d] && l1[d] == levels[d]
            &&& p1[levels.len() as int] == shifted(ps, f0.len() as int)
            &&& levels_core(sv, n, f1, l1, p1, pairs.push(d_edges))
        }),
{
    let added = level_flips(beam, cands);
    let f1 = f0 + added;
    let l1 = levels.push(beam_graphs(beam));
    let sp = shifted(ps, f0.len() as int);
    let p1 = pst.push(sp);
    let depth = levels.len() as int;
    assert forall|i: int| 0 <= i < f0.len() implies #[trigger] f1[i] == f0[i] by {}
    assert(l1[depth] == beam_graphs(beam));
    if depth == 0 {
        assert(beam_graphs(beam) =~= seq![sv]);
    } else {
        assert(l1[0] == levels[0] && p1[0] == pst[0]);
    }
    assert forall|d: int| 0 <= d < l1.len() implies #[trigger] level_ok(l1, p1, f1, d, n) && 0 <= p1[d][0] && p1[d][l1[d].len() as int]
        <= f1.len() by {
        if d < depth {
            assert(l1[d] == levels[d] && p1[d] == pst[d]);
            assert(level_ok(levels, pst, f0, d, n));
            assert forall|p: int, i: int|
                0 <= p < l1[d].len() && #[trigger] in_stretch(p1[d], p, i) implies 0 <= i < f1.len() && one_flip(l1[d][p], f1[i].0, n) by {
                assert(in_stretch(pst[d], p, i));
            }
        } else {
            assert(p1[d] == sp);
            assert forall|p: int, q: int| 0 <= p <= q < sp.len() implies #[trigger] sp[p] <= #[trigger] sp[q] by {
                assert(ps[p] <= ps[q]);
            }
            assert forall|p: int, i: int|
                0 <= p < l1[d].len() && #[trigger] in_stretch(p1[d], p, i) implies 0 <= i < f1.len() && one_flip(l1[d][p], f1[i].0, n) by {
                let j = i - f0.len();
                assert(in_stretch(ps, p, j));
                assert(ps[0] <= ps[p] && ps[p + 1] <= ps[beam.len() as int]);
                assert(cands[j].0 == p);
                let c = cands[j];
                assert(candidate_ok(c, beam.len() as int, n));
                assert(f1[i] == added[j]);
                assert(l1[d][p] == beam[p].graph@);
                assert(ordered(c.1 as int, c.2 as int) == (c.1 as int, c.2 as int));
                assert(f1[i].0 == toggle(beam[p].graph@, (c.1 as int, c.2 as int)));
            }
        }
    }
    assert forall|d: int| 0 <= d < l1.len() - 1 implies #[trigger] p1[d + 1][0] == p1[d][l1[d].len() as int] by {
        if d + 1 < depth {
            assert(p1[d + 1] == pst[d + 1] && p1[d] == pst[d] && l1[d] == levels[d]);
        } else {
            assert(p1[d + 1] == sp && p1[d] == pst[d] && l1[d] == levels[d]);
        }
    }
    assert forall|d: int, j: int|
        0 <= d < l1.len() - 1 && 0 <= j < l1[d + 1].len() implies #[trigger] from_level(l1, p1, f1, d, j) by {
        if d + 1 < depth {
            assert(l1[d + 1] == levels[d + 1] && p1[d + 1] == pst[d + 1] && p1[d] == pst[d]);
            assert(from_level(levels, pst, f0, d, j));
            let i = choose|i: int| pst[d][0] <= i < pst[d + 1][0] && levels[d + 1][j] == #[trigger] f0[i].0;
            assert(pst[d + 1][0] <= pst[d + 1][levels[d + 1].len() as int]) by {
                assert(level_ok(levels, pst, f0, d + 1, n));
            }
            assert(level_ok(levels, pst, f0, d + 1, n));
            assert(pst[d + 1][levels[d + 1].len() as int] <= f0.len());
            assert(level_ok(levels, pst, f0, d, n));
            assert(0 <= pst[d][0]);
            assert(f1[i] == f0[i]);
        } else {
            assert(l1[d + 1][j] == beam_graphs(beam)[j]);
            assert(level_ok(levels, pst, f0, depth - 1, n) && 0 <= pst[depth - 1][0]);
            assert(among_flips(pst[depth - 1][0], f0, beam_graphs(beam)[j]));
            let i = choose|i: int| pst[depth - 1][0] <= i < f0.len() && beam_graphs(beam)[j] == #[trigger] f0[i].0;
            assert(f1[i] == f0[i]);
            assert(p1[d] == pst[d] && p1[d + 1] == sp);
            assert(l1[d + 1][j] == f1[i].0);
        }
    }
    assert forall|d: int| 0 <= d < levels.len() implies #[trigger] p1[d] == pst[d] && l1[d] == levels[d] by {}
    assert(added.len() == cands.len());
    assert(p1[depth] == sp);
    assert(sp[beam.len() as int] == f1.len());
    assert(p1[depth][beam.len() as int] == f1.len());
    assert(p1[0][0] == 0);
}

/// Coverage of the levels after one more, when the budget lasts.
proof fn lemma_levels_cover(
    n: int,
    beam: Seq<BeamEntry>,
    levels: Seq<Seq<Set<(int, int)>>>,
    pst: Seq<Seq<int>>,
    pairs: Seq<Seq<(u32, u32)>>,
    l1: Seq<Seq<Set<(int, int)>>>,
    p1: Seq<Seq<int>>,
    q1: Seq<Seq<(u32, u32)>>,
    d_edges: Seq<(u32, u32)>,
    ps: Seq<int>,
    base: int,
    s0: Set<u64>,
    s1: Set<u64>,
    max_iters: int,
    k: nat,
    ell: nat,
)
    requires
        1 <= n <= 63,
        forall|i: int| 0 <= i < beam.len() ==> entry_ok(#[trigger] beam[i], n, k, ell),
        forall|i: int| 0 <= i < d_edges.len() ==> (#[trigger] d_edges[i]).0 < d_edges[i].1 < n,
        s0.subset_of(s1),
        l1 == levels.push(beam_graphs(beam)),
        p1 == pst.push(shifted(ps, base)),
        q1 == pairs.push(d_edges),
        ps.len() == beam.len() + 1,
        pst.len() == levels.len() && pairs.len() == levels.len(),
        forall|d: int, p: int|
            0 <= d < levels.len() && 0 <= p < levels[d].len() ==> #[trigger] graph_covered(
                levels[d][p],
                n,
                pairs[d],
                s0,
                max_iters - pst[d][p],
                levels[d].len() - p,
            ),
        forall|p: int| 0 <= p < beam.len() ==> #[trigger] covered(beam[p], d_edges, s1, max_iters - (base + ps[p]), beam.len() - p),
    ensures
        forall|d: int, p: int|
            0 <= d < l1.len() && 0 <= p < l1[d].len() ==> #[trigger] graph_covered(l1[d][p], n, q1[d], s1, max_iters - p1[d][p], l1[d].len() - p),
{
    assert forall|d: int, p: int|
        0 <= d < l1.len() && 0 <= p < l1[d].len() implies #[trigger] graph_covered(l1[d][p], n, q1[d], s1, max_iters - p1[d][p], l1[d].len() - p) by {
        if d < levels.len() {
            assert(l1[d] == levels[d] && p1[d] == pst[d] && q1[d] == pairs[d]);
            lemma_graph_covered_grows(levels[d][p], n, pairs[d], s0, s1, max_iters - pst[d][p], levels[d].len() - p);
        } else {
            assert(l1[d] == beam_graphs(beam) && p1[d] == shifted(ps, base) && q1[d] == d_edges);
            assert(covered(beam[p], d_edges, s1, max_iters - (base + ps[p]), beam.len() - p));
            lemma_cover_graph(beam[p], n, d_edges, s1, max_iters - (base + ps[p]), beam.len() - p);
        }
    }
}

/// The levels, once the search stops, read as `beam_levels`.
proof fn lemma_levels_close(
    sv: Set<(int, int)>,
    n: int,
    max_depth: u32,
    max_iters: u64,
    width: usize,
    flips: Seq<(Set<(int, int)>, nat)>,
    levels: Seq<Seq<Set<(int, int)>>>,
    pst: Seq<Seq<int>>,
    pairs: Seq<Seq<(u32, u32)>>,
    seen: Set<u64>,
)
    requires
        levels_core(sv, n, flips, levels, pst, pairs),
        levels.len() <= max_depth,
        max_iters > 0 && max_depth > 0 ==> levels.len() >= 1,
        flips.len() < max_iters && max_depth > 0 ==> levels.len() == max_depth || (levels.len() >= 1 && pst[levels.len() - 1][0]
            == flips.len()) || width == 0,
        flips.len() < max_iters ==> forall|d: int, p: int|
            0 <= d < levels.len() && 0 <= p < levels[d].len() ==> #[trigger] graph_covered(
                levels[d][p],
                n,
                pairs[d],
                seen,
                max_iters - pst[d][p],
                levels[d].len() - p,
            ),
    ensures
        beam_levels(sv, n, max_depth, max_iters, width, flips, levels, pst, pairs, seen),
{
    assert(levels_core(sv, n, flips, levels, pst, pairs));
}

/// The next beam, made of flips of the last level, keeps the levels in
/// order.
proof fn lemma_next_beam(
    beam: Seq<BeamEntry>,
    cands: Seq<Candidate>,
    new_beam: Seq<BeamEntry>,
    flips: Seq<(Set<(int, int)>, nat)>,
    levels: Seq<Seq<Set<(int, int)>>>,
    pst: Seq<Seq<int>>,
    pairs: Seq<Seq<(u32, u32)>>,
    sv: Set<(int, int)>,
    n: int,
)
    requires
        levels.len() >= 1,
        levels_core(sv, n, flips, levels, pst, pairs),
        pst[levels.len() - 1][0] + cands.len() == flips.len(),
        forall|w: int| 0 <= w < cands.len() ==> #[trigger] flips[pst[levels.len() - 1][0] + w].0 == cand_graph(beam[cands[w].0 as int], cands[w]),
        forall|i: int| 0 <= i < new_beam.len() ==> from_cands(beam, cands, (#[trigger] new_beam[i]).graph@),
    ensures
        levels_so_far(sv, n, beam_graphs(new_beam), flips, levels, pst, pairs),
{
    let l = levels.len() as int;
    let base = pst[l - 1][0];
    assert forall|j: int| 0 <= j < beam_graphs(new_beam).len() implies among_flips(pst[l - 1][0], flips, #[trigger] beam_graphs(new_beam)[j]) by {
        assert(from_cands(beam, cands, new_beam[j].graph@));
        let w = choose|w: int| 0 <= w < cands.len() && new_beam[j].graph@ == #[trigger] cand_graph(beam[cands[w].0 as int], cands[w]);
        assert(flips[base + w].0 == cand_graph(beam[cands[w].0 as int], cands[w]));
        assert(beam_graphs(new_beam)[j] == flips[base + w].0);
    }
}

impl Tree2Search {
    /// Beam search from the seed graph (`init_graph`, or a random graph
    /// drawn from the generator seeded with `seed`) for up to `max_depth`
    /// levels within `max_iters` scored flips. Each level expands every
    /// entry of the beam over its pairs (a random part of them when the
    /// budget is short), skipping graphs whose fingerprint is in `seen`,
    /// reports and polishes each valid graph reached, and keeps the
    /// `beam_width` best-scoring flips as the next beam. The best graph is
    /// the last valid one found or polished, else the invalid one with the
    /// fewest violations. The fingerprints seen, capped, are handed back to
    /// carry into the next round.
    pub fn search<F: Fn(&AdjacencyMatrix) -> GraphCid>(
        &self,
        n: u32,
        max_iters: u64,
        seed: u64,
        init_graph: Option<AdjacencyMatrix>,
        seen: HashSet<u64>,
        cfg: &Tree2Config,
        known_cids: Vec<GraphCid>,
        cid_of: F,
    ) -> (r: (SearchResult, HashSet<u64>))
        requires
            1 <= n <= 63,
            init_graph matches Some(g) ==> g.wf() && g.order() == n,
            tree2_config_ok(cfg),
            forall|g: &AdjacencyMatrix| g.wf() ==> #[trigger] cid_of.requires((g,)),
        ensures
            all_valid(r.0.discoveries@, n as int, cfg.k as nat, cfg.ell as nat),
            r.0.iterations_used <= max_iters,
            exists|found: Seq<RawDiscovery>, known1: Seq<GraphCid>, c: Seq<GraphCid>, pos: Seq<int>|
                #[trigger] kept_new(cid_of, found, known_cids@, known1, r.0.discoveries@, c, pos) && all_valid(
                    found,
                    n as int,
                    cfg.k as nat,
                    cfg.ell as nat,
                ) && (r.0.valid <==> found.len() > 0) && exists|
                    g: Set<(int, int)>,
                    flips: Seq<(Set<(int, int)>, nat)>,
                    levels: Seq<Seq<Set<(int, int)>>>,
                    pst: Seq<Seq<int>>,
                    pairs: Seq<Seq<(u32, u32)>>,
                    sn: Set<u64>,
                |
                    #[trigger] beam_levels(g, n as int, cfg.max_depth, max_iters, cfg.beam_width, flips, levels, pst, pairs, sn)
                        && beam_flips(n as int, cfg.k as nat, cfg.ell as nat, r.0, found, flips) && (init_graph matches Some(s) ==> g
                        == s@) && sn == seen@.insert(graph_fp(g, n as int)).union(flip_fps(flips, n as int)) && r.1@.subset_of(sn)
                        && (!r.0.valid ==> best_from(Some((r.0.best_graph->Some_0, 0u64)), g, flips)),
            r.0.best_graph matches Some(g) ==> g.wf() && g.order() == n,
            r.0.best_graph is Some,
            r.0.valid ==> violation_count(r.0.best_graph->Some_0@, n as int, cfg.k as nat, cfg.ell as nat) == 0,
            !r.0.valid ==> violation_count(r.0.best_graph->Some_0@, n as int, cfg.k as nat, cfg.ell as nat) > 0,
            init_graph matches Some(g) ==> (violation_count(g@, n as int, cfg.k as nat, cfg.ell as nat) == 0 ==> r.0.valid),
            init_graph matches Some(g) ==> (!r.0.valid ==> violation_count(r.0.best_graph->Some_0@, n as int, cfg.k as nat, cfg.ell as nat)
                <= violation_count(g@, n as int, cfg.k as nat, cfg.ell as nat)),
    {
        let ghost init = init_graph;
        let k = cfg.k;
        let ell = cfg.ell;
        let mut rng = seeded_rng(seed);
        let all_edges = all_pairs_list(n);
        let seed_graph = match init_graph {
            Some(g) => g,
            None => {
                assert(n * (n - 1) <= 63 * 62) by (nonlinear_arith)
                    requires
                        1 <= n <= 63,
                ;
                random_graph(n, &mut rng)
            },
        };
        let ghost sv = seed_graph@;
        let seed_entry = BeamEntry::from_graph(seed_graph, k, ell);
        let mut run = Tree2Run { discoveries: Vec::new(), best_valid: None, best_invalid: None, iters_used: 0, seen };
        run.seen.insert(fast_fingerprint(seed_entry.adj_nbrs.masks.as_slice()));
        let ghost seen1 = run.seen@;
        proof {
            if n >= 2 {
                assert(all_edges@.contains((0u32, 1u32)));
            }
        }
        if seed_entry.violations == 0 {
            run.discoveries.push(RawDiscovery { graph: seed_entry.graph.copy_of(), iteration: 0 });
            run.best_valid = Some(seed_entry.graph.copy_of());
        } else {
            run.best_invalid = Some((seed_entry.graph.copy_of(), seed_entry.violations));
        }
        let ghost mut flips: Seq<(Set<(int, int)>, nat)> = Seq::empty();
        let ghost mut levels: Seq<Seq<Set<(int, int)>>> = Seq::empty();
        let ghost mut pst: Seq<Seq<int>> = Seq::empty();
        let ghost mut lpairs: Seq<Seq<(u32, u32)>> = Seq::empty();
        let mut beam: Vec<BeamEntry> = Vec::new();
        beam.push(seed_entry);
        proof {
            assert(flip_fps(flips, n as int) =~= Set::empty());
            assert(run.seen@ =~= seen1.union(flip_fps(flips, n as int)));
            assert(beam_graphs(beam@) =~= seq![sv]);
        }
        let mut depth: u32 = 0;
        loop
            invariant
                1 <= n <= 63,
                k == cfg.k,
                ell == cfg.ell,
                tree2_config_ok(cfg),
                forall|i: int| 0 <= i < all_edges@.len() ==> (#[trigger] all_edges@[i]).0 < all_edges@[i].1 < n,
                forall|i: int| 0 <= i < beam@.len() ==> entry_ok(#[trigger] beam@[i], n as int, k as nat, ell as nat),
                run.inv(n as int, k as nat, ell as nat, max_iters),
                run.best_valid is Some || run.best_invalid is Some,
                init matches Some(g) ==> sv == g@,
                violation_count(sv, n as int, k as nat, ell as nat) == 0 ==> run.best_valid is Some,
                violation_count(sv, n as int, k as nat, ell as nat) > 0 ==> (run.best_invalid matches Some(b) && b.1 <= violation_count(sv, n as int, k as nat, ell as nat)),
                flips_in_run(n as int, k as nat, ell as nat, run, flips),
                best_from(run.best_invalid, sv, flips),
                run.seen@ == seen1.union(flip_fps(flips, n as int)),
                depth <= cfg.max_depth,
                levels.len() == depth,
                levels_core(sv, n as int, flips, levels, pst, lpairs),
                levels_so_far(sv, n as int, beam_graphs(beam@), flips, levels, pst, lpairs),
                depth == 0 ==> beam_graphs(beam@) == seq![sv] && flips.len() == 0,
                depth >= 1 && beam@.len() == 0 ==> cfg.beam_width == 0 || pst[depth - 1][0] == flips.len(),
                run.iters_used < max_iters ==> forall|d: int, p: int|
                    0 <= d < levels.len() && 0 <= p < levels[d].len() ==> #[trigger] graph_covered(
                        levels[d][p],
                        n as int,
                        lpairs[d],
                        run.seen@,
                        max_iters - pst[d][p],
                        levels[d].len() - p,
                    ),
            ensures
                run.inv(n as int, k as nat, ell as nat, max_iters),
                run.best_valid is Some || run.best_invalid is Some,
                violation_count(sv, n as int, k as nat, ell as nat) == 0 ==> run.best_valid is Some,
                violation_count(sv, n as int, k as nat, ell as nat) > 0 ==> (run.best_invalid matches Some(b) && b.1 <= violation_count(sv, n as int, k as nat, ell as nat)),
                flips_in_run(n as int, k as nat, ell as nat, run, flips),
                best_from(run.best_invalid, sv, flips),
                run.seen@ == seen1.union(flip_fps(flips, n as int)),
                beam_levels(sv, n as int, cfg.max_depth, max_iters, cfg.beam_width, flips, levels, pst, lpairs, run.seen@),
            decreases cfg.max_depth - depth,
        {
            if depth >= cfg.max_depth || run.iters_used >= max_iters || beam.len() == 0 {
                proof {
                    if depth == 0 {
                        assert(beam_graphs(beam@) == seq![sv]);
                        assert(beam_graphs(beam@).len() == beam@.len());
                    }
                    lemma_levels_close(sv, n as int, cfg.max_depth, max_iters, cfg.beam_width, flips, levels, pst, lpairs, run.seen@);
                }
                break;
            }
            let depth_edges = depth_pairs(&beam, &all_edges, cfg, n);
            let ghost run_before = run;
            let ghost f0 = flips;
            let (candidates, gps) = expand_level(&beam, &depth_edges, cfg, &mut run, max_iters, &mut rng, n);
            let ghost ps = gps@;
            proof {
                lemma_level_step(beam@, candidates@, f0, run_before, run, seen1, sv, n as int, k as nat, ell as nat);
                lemma_levels_push(sv, n as int, beam@, candidates@, ps, f0, levels, pst, lpairs, depth_edges@);
                let l1 = levels.push(beam_graphs(beam@));
                let p1 = pst.push(shifted(ps, f0.len() as int));
                let q1 = lpairs.push(depth_edges@);
                if run.iters_used < max_iters {
                    assert forall|p: int| 0 <= p < beam@.len() implies #[trigger] covered(beam@[p], depth_edges@, run.seen@, max_iters - (f0.len() + ps[p]), beam@.len() - p) by {
                        assert(covered(beam@[p], depth_edges@, run.seen@, max_iters - (run_before.iters_used + ps[p]), beam@.len() - p));
                    }
                    lemma_levels_cover(n as int, beam@, levels, pst, lpairs, l1, p1, q1, depth_edges@, ps, f0.len() as int, run_before.seen@, run.seen@, max_iters as int, k as nat, ell as nat);
                }
                flips = f0 + level_flips(beam@, candidates@);
                levels = l1;
                pst = p1;
                lpairs = q1;
            }
            depth = depth + 1;
            let ghost old_beam = beam@;
            if candidates.len() == 0 {
                proof {
                    assert(pst[levels.len() - 1] == shifted(ps, f0.len() as int));
                    assert(flips =~= f0);
                }
                beam = Vec::new();
                proof {
                    lemma_next_beam(old_beam, candidates@, beam@, flips, levels, pst, lpairs, sv, n as int);
                }
                continue;
            }
            let selected = select_beam(&candidates, cfg.beam_width, cfg.score_bias_threshold);
            let mut new_beam: Vec<BeamEntry> = Vec::new();
            let mut j: usize = 0;
            while j < selected.len()
                invariant
                    j <= selected@.len(),
                    new_beam@.len() == j,
                    1 <= n <= 63,
                    k == cfg.k,
                    ell == cfg.ell,
                    forall|i: int| 0 <= i < beam@.len() ==> entry_ok(#[trigger] beam@[i], n as int, k as nat, ell as nat),
                    forall|i: int| 0 <= i < candidates@.len() ==> candidate_ok(#[trigger] candidates@[i], beam@.len() as int, n as int),
                    forall|i: int| 0 <= i < selected@.len() ==> candidates@.contains(#[trigger] selected@[i]),
                    forall|i: int| 0 <= i < new_beam@.len() ==> entry_ok(#[trigger] new_beam@[i], n as int, k as nat, ell as nat),
                    forall|i: int| 0 <= i < new_beam@.len() ==> from_cands(beam@, candidates@, (#[trigger] new_beam@[i]).graph@),
                decreases selected@.len() - j,
            {
                let c = selected[j];
                let ghost w = choose|w: int| 0 <= w < candidates@.len() && candidates@[w] == c;
                proof {
                    assert(candidates@.contains(selected@[j as int]));
                    assert(candidate_ok(candidates@[w], beam@.len() as int, n as int));
                }
                let parent = &beam[c.0];
                assert(entry_ok(beam@[c.0 as int], n as int, k as nat, ell as nat));
                let mut graph = parent.graph.copy_of();
                let cur = graph.edge(c.1, c.2);
                graph.set_edge(c.1, c.2, !cur);
                let entry = BeamEntry::from_graph(graph, k, ell);
                proof {
                    lemma_cliques_of_small(entry.adj_nbrs.masks@, k as nat, n as int);
                    assert(entry.graph@ == cand_graph(beam@[candidates@[w].0 as int], candidates@[w]));
                }
                let ghost nb0 = new_beam@;
                new_beam.push(entry);
                proof {
                    assert forall|i: int| 0 <= i < new_beam@.len() implies from_cands(beam@, candidates@, (#[trigger] new_beam@[i]).graph@) by {
                        if i < nb0.len() {
                            assert(new_beam@[i] == nb0[i]);
                        } else {
                            assert(new_beam@[i].graph@ == cand_graph(beam@[candidates@[w].0 as int], candidates@[w]));
                        }
                    }
                }
                j = j + 1;
            }
            proof {
                lemma_next_beam(beam@, candidates@, new_beam@, flips, levels, pst, lpairs, sv, n as int);
            }
            beam = new_beam;
        }
        let valid = run.best_valid.is_some();
        let ghost run_end = run;
        let Tree2Run { discoveries, best_valid, best_invalid, iters_used, mut seen } = run;
        let best_graph = match best_valid {
            Some(g) => Some(g),
            None => match best_invalid {
                Some(b) => Some(b.0),
                None => None,
            },
        };
        cap_seen(&mut seen);
        let mut known = known_cids;
        let kept = keep_new_discoveries(&discoveries, &mut known, &cid_of);
        proof {
            let (c, pos) = choose|c: Seq<GraphCid>, pos: Seq<int>|
                #[trigger] kept_new(cid_of, discoveries@, known_cids@, known@, kept@, c, pos);
            lemma_kept_valid(cid_of, discoveries@, known_cids@, known@, kept@, c, pos, n as int, cfg.k as nat, cfg.ell as nat);
        }
        let ghost kept_view = kept@;
        let res = SearchResult { best_graph, valid, iterations_used: iters_used, discoveries: kept };
        assert(res.discoveries@ == kept_view);
        proof {
            assert(flips_in_run(n as int, k as nat, ell as nat, run_end, flips));
            assert forall|i: int| 0 <= i < flips.len() implies {
                &&& (#[trigger] flips[i]).1 == violation_count(flips[i].0, n as int, k as nat, ell as nat)
                &&& flips[i].1 == 0 ==> found_graph(discoveries@, flips[i].0)
                &&& !res.valid ==> violation_count(res.best_graph->Some_0@, n as int, k as nat, ell as nat) <= flips[i].1
            } by {
                assert(run_end.discoveries@ == discoveries@);
            }
            assert(beam_flips(n as int, cfg.k as nat, cfg.ell as nat, res, discoveries@, flips));
        }
        (res, seen)
    }
}

} // verus!
