//! Randomised graph construction: random `G(n, 1/2)` graphs and random edge
//! flips, drawing from a seeded `SmallRng`.

use rand::Rng;
use rand::rngs::SmallRng;
use vstd::prelude::*;

use crate::adjacency::{AdjacencyMatrix, is_vertex_pair, ordered, size_fits};

verus! {

#[verifier::external_type_specification]
#[verifier::external_body]
pub struct ExSmallRng(SmallRng);

/// Wraps `SeedableRng::seed_from_u64`: the generator seeded with `seed`.
/// Nothing is promised of its state.
#[verifier::external_body]
pub(crate) fn seeded_rng(seed: u64) -> (rng: SmallRng) {
    <SmallRng as rand::SeedableRng>::seed_from_u64(seed)
}

#[verifier::external_type_specification]
#[verifier::external_body]
pub struct ExBernoulli(rand::distributions::Bernoulli);

/// Wraps `Rng::sample` with a `Bernoulli` distribution: true with the
/// distribution's probability (the draw `gen_bool` makes).
#[verifier::external_body]
pub(crate) fn bernoulli_draw(rng: &mut SmallRng, d: &rand::distributions::Bernoulli) -> (r: bool) {
    rng.sample(d)
}

/// Wraps `Rng::gen` on `u64`: any value, drawn uniformly; nothing is
/// promised of it.
#[verifier::external_body]
pub(crate) fn random_u64(rng: &mut SmallRng) -> (r: u64) {
    rng.gen::<u64>()
}

/// Wraps `Rng::gen_range` on `u32`: a value in `lo..hi`.
#[verifier::external_body]
pub(crate) fn random_u32_in(rng: &mut SmallRng, lo: u32, hi: u32) -> (r: u32)
    requires
        lo < hi,
    ensures
        lo <= r < hi,
{
    rng.gen_range(lo..hi)
}

/// Wraps `Rng::gen_range` on `usize`: a value in `lo..hi`.
#[verifier::external_body]
pub(crate) fn random_usize_in(rng: &mut SmallRng, lo: usize, hi: usize) -> (r: usize)
    requires
        lo < hi,
    ensures
        lo <= r < hi,
{
    rng.gen_range(lo..hi)
}

/// Wraps `SliceRandom::choose`: one of the pairs, drawn uniformly.
#[verifier::external_body]
pub(crate) fn choose_pair(rng: &mut SmallRng, pairs: &[(u32, u32)]) -> (r: (u32, u32))
    requires
        pairs@.len() > 0,
    ensures
        pairs@.contains(r),
{
    *rand::seq::SliceRandom::choose(pairs, rng).unwrap()
}

/// Wraps `SliceRandom::partial_shuffle`: swaps random elements of `items`
/// into its last `amount` places (all of it when `amount` exceeds its
/// length) and gives a copy of those places, the slice from position
/// `len - amount` (or 0) to the end. Only swaps are made, so the items are
/// permuted and what comes back is drawn from them.
#[verifier::external_body]
pub(crate) fn partial_shuffle(rng: &mut SmallRng, items: &mut Vec<usize>, amount: usize) -> (r: Vec<usize>)
    ensures
        final(items)@.to_multiset() == old(items)@.to_multiset(),
        final(items)@.len() == old(items)@.len(),
        r@ == final(items)@.subrange(old(items)@.len() - r@.len(), old(items)@.len() as int),
        r@.len() == if amount <= old(items)@.len() {
            amount as int
        } else {
            old(items)@.len() as int
        },
        forall|i: int| 0 <= i < r@.len() ==> old(items)@.contains(#[trigger] r@[i]),
{
    rand::seq::SliceRandom::partial_shuffle(items.as_mut_slice(), rng, amount).0.to_vec()
}

/// Wraps `SliceRandom::choose_multiple`: `amount` of the items (all of
/// them when there are fewer), drawn at distinct positions.
#[verifier::external_body]
pub(crate) fn choose_multiple(rng: &mut SmallRng, items: &[u32], amount: usize) -> (r: Vec<u32>)
    ensures
        r@.len() == if amount <= items@.len() {
            amount as int
        } else {
            items@.len() as int
        },
        forall|i: int| 0 <= i < r@.len() ==> items@.contains(#[trigger] r@[i]),
        items@.no_duplicates() ==> r@.no_duplicates(),
{
    rand::seq::SliceRandom::choose_multiple(items, rng, amount).cloned().collect()
}

/// Wraps `SliceRandom::choose` on positions: one of them, drawn
/// uniformly.
#[verifier::external_body]
pub(crate) fn choose_position(rng: &mut SmallRng, items: &[usize]) -> (r: usize)
    requires
        items@.len() > 0,
    ensures
        items@.contains(r),
{
    *rand::seq::SliceRandom::choose(items, rng).unwrap()
}

/// Wraps `SliceRandom::shuffle`: the items in a random order. Only swaps
/// are made, so the same items come back.
#[verifier::external_body]
pub(crate) fn shuffle_items<T>(rng: &mut SmallRng, items: &mut Vec<T>)
    ensures
        final(items)@.len() == old(items)@.len(),
        final(items)@.to_multiset() == old(items)@.to_multiset(),
        forall|i: int| 0 <= i < final(items)@.len() ==> old(items)@.contains(#[trigger] final(items)@[i]),
{
    rand::seq::SliceRandom::shuffle(items.as_mut_slice(), rng)
}

/// Wraps `Rng::gen_ratio(1, 2)`: a fair coin (the same draw as
/// `gen_bool` with probability one half).
#[verifier::external_body]
pub(crate) fn random_coin(rng: &mut SmallRng) -> (r: bool) {
    rng.gen_ratio(1, 2)
}

/// `edges` with the presence of `p` reversed.
pub open spec fn toggle(edges: Set<(int, int)>, p: (int, int)) -> Set<(int, int)> {
    if edges.contains(p) {
        edges.remove(p)
    } else {
        edges.insert(p)
    }
}

/// `edges` with the presence of each pair of `s` reversed in turn.
pub open spec fn toggle_all(edges: Set<(int, int)>, s: Seq<(int, int)>) -> Set<(int, int)>
    decreases s.len(),
{
    if s.len() == 0 {
        edges
    } else {
        toggle(toggle_all(edges, s.drop_last()), s.last())
    }
}

/// A random graph on `n` vertices: each edge present with probability one
/// half.
pub fn random_graph(n: u32, rng: &mut SmallRng) -> (g: AdjacencyMatrix)
    requires
        size_fits(n as int),
    ensures
        g.wf(),
        g.order() == n,
{
    let mut g = AdjacencyMatrix::new(n);
    let mut i: u32 = 0;
    while i < n
        invariant
            i <= n,
            g.wf(),
            g.order() == n,
        decreases n - i,
    {
        let mut j: u32 = i + 1;
        while j < n
            invariant
                i < n,
                i + 1 <= j <= n,
                g.wf(),
                g.order() == n,
            decreases n - j,
        {
            if random_coin(rng) {
                g.set_edge(i, j, true);
            }
            j = j + 1;
        }
        i = i + 1;
    }
    g
}

/// Flip up to `noise_flips` random vertex pairs (a draw of a loop `{i, i}`
/// flips nothing).
pub fn perturb(graph: &mut AdjacencyMatrix, noise_flips: u32, rng: &mut SmallRng)
    requires
        old(graph).wf(),
        noise_flips > 0 ==> old(graph).order() > 0,
    ensures
        final(graph).wf(),
        final(graph).order() == old(graph).order(),
        exists|s: Seq<(int, int)>|
            s.len() <= noise_flips && (forall|k: int| 0 <= k < s.len() ==> is_vertex_pair(
                old(graph).order() as int,
                #[trigger] s[k],
            )) && final(graph)@ == toggle_all(old(graph)@, s),
{
    let n = graph.n();
    let ghost start = graph@;
    let ghost mut flips: Seq<(int, int)> = Seq::empty();
    let mut t: u32 = 0;
    while t < noise_flips
        invariant
            t <= noise_flips,
            noise_flips > 0 ==> n > 0,
            graph.wf(),
            graph.order() == n,
            flips.len() <= t,
            forall|k: int| 0 <= k < flips.len() ==> is_vertex_pair(n as int, #[trigger] flips[k]),
            graph@ == toggle_all(start, flips),
        decreases noise_flips - t,
    {
        let i = random_u32_in(rng, 0, n);
        let j = random_u32_in(rng, 0, n);
        if i != j {
            let cur = graph.edge(i, j);
            let ghost before = graph@;
            graph.set_edge(i, j, !cur);
            proof {
                let p = ordered(i as int, j as int);
                let f2 = flips.push(p);
                assert(f2.drop_last() =~= flips);
                assert(graph@ =~= toggle(before, p));
                flips = f2;
            }
        }
        t = t + 1;
    }
    proof {
        assert(flips.len() <= noise_flips);
    }
}

} // verus!
