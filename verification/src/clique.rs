//! Clique counting over bitwise neighbour masks, for graphs on at most 64
//! vertices.
//!
//! A "clique" of a mask array is a set of vertices `v1 < v2 < ...` in which
//! every vertex lists every later one in its mask; for the symmetric masks of
//! an undirected graph these are exactly the cliques of the graph.

use vstd::prelude::*;
use vstd::std_specs::bits::{axiom_u64_trailing_zeros, u64_trailing_zeros};

use crate::adjacency::{AdjacencyMatrix, ordered};
use crate::bits::{bit64, count_ones64, drop_lowest, lemma_bits_ext, lemma_drop_lowest_smaller, lemma_popcount_drop_lowest, popcount};

verus! {

/// Powers of two.
pub open spec fn pow2(e: nat) -> nat
    decreases e,
{
    if e == 0 {
        1
    } else {
        2 * pow2((e - 1) as nat)
    }
}

/// All bits of `x` lie below position `len`.
pub open spec fn fits(x: u64, len: int) -> bool {
    len >= 64 || (0 <= len && x < (1u64 << (len as u64)))
}

/// The word with bits `0..n` set (all bits when `n >= 64`).
pub open spec fn low_bits(n: int) -> u64 {
    if n >= 64 {
        0xffff_ffff_ffff_ffffu64
    } else {
        ((1u64 << (n as u64)) - 1) as u64
    }
}

/// The bits strictly above position `v`.
pub open spec fn above(v: int) -> u64 {
    high_from(v + 1)
}

/// Number of `t`-element subsets of the vertex set `cand` in which every
/// vertex has every larger member in its mask: the subsets that avoid the
/// lowest candidate, plus those that contain it together with `t - 1` of its
/// larger neighbours among the candidates.
pub open spec fn clique_count(masks: Seq<u64>, cand: u64, t: nat) -> nat
    decreases cand,
{
    if t == 0 {
        1
    } else if cand == 0 {
        0
    } else {
        let v = u64_trailing_zeros(cand) as int;
        let rest = drop_lowest(cand);
        proof {
            lemma_drop_lowest_smaller(cand);
            lemma_and_le(rest, masks[v]);
        }
        clique_count(masks, rest, t) + clique_count(masks, rest & masks[v], (t - 1) as nat)
    }
}

/// Number of `k`-cliques on the vertices `0..n`.
pub open spec fn cliques_of(masks: Seq<u64>, k: nat, n: int) -> nat {
    clique_count(masks, low_bits(n), k)
}

/// Common neighbours of `u` and `v`, other than `u` and `v` themselves.
pub open spec fn common_neighbors(masks: Seq<u64>, u: int, v: int) -> u64 {
    masks[u] & masks[v] & !(1u64 << (u as u64)) & !(1u64 << (v as u64))
}

/// Number of `k`-cliques containing `u` and `v`, counted as if the edge
/// `{u, v}` were present exactly when `present` holds: none without it, the
/// edge itself for `k == 2`, otherwise the `(k-2)`-cliques among the common
/// neighbours.
pub open spec fn cliques_through(masks: Seq<u64>, k: nat, u: int, v: int, present: bool) -> nat {
    if k < 2 || !present {
        0
    } else if k == 2 {
        1
    } else {
        clique_count(masks, common_neighbors(masks, u, v), (k - 2) as nat)
    }
}

/// The set bits of a word that fits in `n` bits name vertices below `n`.
pub proof fn lemma_fits_bits(m: u64, n: int)
    requires
        fits(m, n),
    ensures
        forall|x: int| #[trigger] bit64(m, x) ==> x < n,
{
    assert forall|x: int| #[trigger] bit64(m, x) implies x < n by {
        if n < 64 && x >= n {
            let nn = n as u64;
            let xx = x as u64;
            assert(nn <= xx && xx < 64 && m < (1u64 << nn) ==> (m >> xx) & 1u64 == 0u64)
                by (bit_vector);
        }
    }
}

/// The bits of `above(v)` are the positions greater than `v`.
pub proof fn lemma_above_bits(v: int)
    requires
        0 <= v < 63,
    ensures
        forall|x: int| #[trigger] bit64(above(v), x) == (v < x < 64),
{
    assert forall|x: int| #[trigger] bit64(above(v), x) == (v < x < 64) by {
        if 0 <= x < 64 {
            let vv = v as u64;
            let xx = x as u64;
            assert(vv < 63 && xx < 64 ==> (((!(((1u64 << ((vv + 1) as u64)) - 1) as u64)) >> xx) & 1u64
                == 1u64) == (vv < xx)) by (bit_vector);
        }
    }
}

/// A shifted one is positive.
pub proof fn lemma_one_shl_pos(s: u64)
    requires
        s < 64,
    ensures
        (1u64 << s) >= 1,
{
    assert(s < 64 ==> (1u64 << s) >= 1) by (bit_vector);
}

/// Masking a word never makes it larger.
pub proof fn lemma_and_le(x: u64, y: u64)
    ensures
        x & y <= x,
{
    assert(x & y <= x) by (bit_vector);
}

/// `m` has bit `w` set exactly for the neighbours `w < n` of `v` in `edges`.
pub open spec fn is_row_mask(m: u64, edges: Set<(int, int)>, n: int, v: int) -> bool {
    forall|w: int| 0 <= w < 64 ==> (#[trigger] bit64(m, w) <==> (w < n && v != w && edges.contains(ordered(v, w))))
}

/// The neighbour masks of the graph with edge set `edges` on `0..n`.
pub open spec fn graph_masks(edges: Set<(int, int)>, n: int) -> Seq<u64> {
    Seq::new(n as nat, |v: int| choose|m: u64| is_row_mask(m, edges, n, v))
}

/// Number of `k`-cliques of the graph with edge set `edges` on `0..n`.
pub open spec fn graph_cliques(edges: Set<(int, int)>, n: int, k: nat) -> nat {
    cliques_of(graph_masks(edges, n), k, n)
}

/// Masks with the right bits are the graph's masks.
pub proof fn lemma_graph_masks(masks: Seq<u64>, edges: Set<(int, int)>, n: int)
    requires
        masks.len() == n,
        forall|v: int| 0 <= v < n ==> is_row_mask(#[trigger] masks[v], edges, n, v),
    ensures
        masks == graph_masks(edges, n),
{
    assert forall|v: int| 0 <= v < n implies #[trigger] graph_masks(edges, n)[v] == masks[v] by {
        assert(is_row_mask(masks[v], edges, n, v));
        let m = choose|m: u64| is_row_mask(m, edges, n, v);
        assert(is_row_mask(m, edges, n, v));
        lemma_bits_ext(m, masks[v]);
    }
    assert(masks =~= graph_masks(edges, n));
}

/// Precomputed neighbour bitmasks: bit `w` of `masks[v]` is set iff the
/// edge `{v, w}` exists.
#[derive(Clone, Debug)]
pub struct NeighborSet {
    pub masks: Vec<u64>,
}

impl NeighborSet {
    /// At most 64 vertices, and no mask names a vertex beyond the last.
    pub open spec fn wf(&self) -> bool {
        &&& self.masks@.len() <= 64
        &&& forall|v: int| 0 <= v < self.masks@.len() ==> fits(#[trigger] self.masks@[v], self.masks@.len() as int)
    }

    /// The masks of vertices `0..n` name only vertices below `n`.
    pub open spec fn closed_below(&self, n: int) -> bool {
        &&& n <= self.masks@.len()
        &&& forall|v: int| 0 <= v < n ==> fits(#[trigger] self.masks@[v], n)
    }

    /// Build from an adjacency matrix.
    pub fn from_adj(adj: &AdjacencyMatrix) -> (r: Self)
        requires
            adj.wf(),
            adj.order() <= 64,
        ensures
            r.wf(),
            r.masks@.len() == adj.order(),
            r.closed_below(adj.order() as int),
            r.masks@ == graph_masks(adj@, adj.order() as int),
            forall|v: int, w: int|
                0 <= v < adj.order() && 0 <= w < 64 ==> (#[trigger] bit64(r.masks@[v], w) <==> (
                w < adj.order() && v != w && adj@.contains(ordered(v, w)))),
    {
        let masks = adj.neighbor_masks();
        let n = adj.n();
        proof {
            assert forall|v: int| 0 <= v < n implies fits(#[trigger] masks@[v], n as int) by {
                lemma_fits_from_bits(masks@[v], n as int);
            }
            assert forall|v: int| 0 <= v < n implies is_row_mask(#[trigger] masks@[v], adj@, n as int, v) by {
                assert forall|w: int| 0 <= w < 64 implies (#[trigger] bit64(masks@[v], w) <==> (w < n && v
                    != w && adj@.contains(ordered(v, w)))) by {}
            }
            lemma_graph_masks(masks@, adj@, n as int);
        }
        Self { masks }
    }

    /// Toggle the edge `{u, v}` in both masks.
    pub fn flip_edge(&mut self, u: u32, v: u32)
        requires
            old(self).wf(),
            u < old(self).masks@.len(),
            v < old(self).masks@.len(),
        ensures
            final(self).wf(),
            final(self).masks@ == flipped_masks(old(self).masks@, u as int, v as int),
    {
        let len = self.masks.len();
        let a = self.masks[u as usize] ^ (1u64 << v);
        self.masks.set(u as usize, a);
        let b = self.masks[v as usize] ^ (1u64 << u);
        self.masks.set(v as usize, b);
        proof {
            assert forall|w: int| 0 <= w < len implies fits(#[trigger] self.masks@[w], len as int) by {
                lemma_fits_shift(v as int, len as int);
                lemma_fits_shift(u as int, len as int);
                lemma_fits_xor(old(self).masks@[u as int], 1u64 << v, len as int);
                if w == v {
                    let m1 = old(self).masks@.update(u as int, a);
                    lemma_fits_xor(m1[v as int], 1u64 << u, len as int);
                }
            }
        }
    }

    /// Whether the edge `{u, v}` is recorded in `u`'s mask.
    pub fn has_edge(&self, u: u32, v: u32) -> (r: bool)
        requires
            u < self.masks@.len(),
            v < 64,
        ensures
            r == bit64(self.masks@[u as int], v as int),
    {
        let m = self.masks[u as usize];
        assert(v < 64 ==> ((m & (1u64 << v) != 0) == ((m >> v) & 1u64 == 1u64))) by (bit_vector);
        m & (1u64 << v) != 0
    }
}

/// The masks after toggling the edge `{u, v}` as `flip_edge` does.
pub open spec fn flipped_masks(masks: Seq<u64>, u: int, v: int) -> Seq<u64> {
    let m1 = masks.update(u, masks[u] ^ (1u64 << (v as u64)));
    m1.update(v, m1[v] ^ (1u64 << (u as u64)))
}

/// Toggling the same edge twice restores the masks.
pub proof fn lemma_flip_involution(masks: Seq<u64>, u: int, v: int)
    requires
        0 <= u < masks.len(),
        0 <= v < masks.len(),
        u < 64,
        v < 64,
    ensures
        flipped_masks(flipped_masks(masks, u, v), u, v) == masks,
{
    let uu = u as u64;
    let vv = v as u64;
    assert forall|x: u64, y: u64| ((x ^ (1u64 << y)) ^ (1u64 << y)) == x by {
        assert(((x ^ (1u64 << y)) ^ (1u64 << y)) == x) by (bit_vector);
    }
    assert(flipped_masks(flipped_masks(masks, u, v), u, v) =~= masks);
}

/// A word that has no bit at or above `n` fits in `n` bits.
proof fn lemma_fits_from_bits(x: u64, n: int)
    requires
        0 <= n <= 64,
        forall|w: int| n <= w < 64 ==> !#[trigger] bit64(x, w),
    ensures
        fits(x, n),
{
    if n < 64 {
        let nn = n as u64;
        assert forall|w: u64| nn <= w < 64 implies (x >> w) & 1u64 == 0u64 by {
            assert(!bit64(x, w as int));
            assert((x >> w) & 1u64 == 1u64 || (x >> w) & 1u64 == 0u64) by (bit_vector);
        }
        lemma_fits_from_zero_bits(x, nn);
    }
}

proof fn lemma_fits_from_zero_bits(x: u64, n: u64)
    requires
        n < 64,
        forall|w: u64| n <= w < 64 ==> #[trigger] ((x >> w) & 1u64) == 0u64,
    ensures
        x < (1u64 << n),
    decreases 64 - n,
{
    let m = (n + 1) as u64;
    if n < 63 {
        lemma_fits_from_zero_bits(x, m);
    }
    assert((n == 63 && (x >> n) & 1u64 == 0u64 ==> x < (1u64 << n)) && (n < 63 && m == n + 1 && x < (
    1u64 << m) && (x >> n) & 1u64 == 0u64 ==> x < (1u64 << n))) by (bit_vector);
}

/// A single bit below `len` fits in `len` bits.
proof fn lemma_fits_shift(v: int, len: int)
    requires
        0 <= v < len <= 64,
    ensures
        fits(1u64 << (v as u64), len),
{
    if len < 64 {
        let vv = v as u64;
        let ll = len as u64;
        assert(vv < ll && ll < 64 ==> (1u64 << vv) < (1u64 << ll)) by (bit_vector);
    }
}

/// Exclusive or keeps two words within `len` bits.
proof fn lemma_fits_xor(x: u64, y: u64, len: int)
    requires
        fits(x, len),
        fits(y, len),
    ensures
        fits(x ^ y, len),
{
    if len < 64 {
        let ll = len as u64;
        assert(ll < 64 && x < (1u64 << ll) && y < (1u64 << ll) ==> (x ^ y) < (1u64 << ll))
            by (bit_vector);
    }
}

/// Powers of two grow with the exponent.
pub proof fn lemma_pow2_mono(a: nat, b: nat)
    requires
        a <= b,
    ensures
        pow2(a) <= pow2(b),
    decreases b,
{
    if a < b {
        lemma_pow2_mono(a, (b - 1) as nat);
    }
}

/// A word has at most 64 bits, so a count below `2^popcount` fits in a `u64`.
proof fn lemma_pow2_64()
    ensures
        pow2(64) == 0x1_0000_0000_0000_0000,
{
    reveal_with_fuel(pow2, 65);
}

/// Masking never adds set bits.
pub proof fn lemma_popcount_and_le(x: u64, y: u64)
    ensures
        popcount(x & y) <= popcount(x),
    decreases x,
{
    if x != 0 {
        assert((x & y) / 2 == (x / 2) & (y / 2) && (x & y) % 2 <= x % 2 && (x != 0 ==> x / 2 < x))
            by (bit_vector);
        lemma_popcount_and_le(x / 2, y / 2);
        if x & y != 0 {
            assert(popcount(x & y) == ((x & y) % 2) as nat + popcount((x & y) / 2));
        }
    } else {
        assert(0u64 & y == 0) by (bit_vector);
    }
}

/// The 1-cliques of a candidate set are its members.
proof fn lemma_clique_count_one(masks: Seq<u64>, c: u64)
    ensures
        clique_count(masks, c, 1) == popcount(c),
    decreases c,
{
    if c != 0 {
        lemma_drop_lowest_smaller(c);
        lemma_popcount_drop_lowest(c);
        lemma_clique_count_one(masks, drop_lowest(c));
        let v = u64_trailing_zeros(c) as int;
        assert(clique_count(masks, drop_lowest(c) & masks[v], 0) == 1);
        assert(clique_count(masks, c, 1) == clique_count(masks, drop_lowest(c), 1) + clique_count(masks, drop_lowest(c) & masks[v], 0));
    }
}

/// Fewer candidates than the clique size leave no clique.
proof fn lemma_clique_count_too_few(masks: Seq<u64>, c: u64, t: nat)
    requires
        popcount(c) < t,
    ensures
        clique_count(masks, c, t) == 0,
    decreases c,
{
    if c != 0 {
        let v = u64_trailing_zeros(c) as int;
        let rest = drop_lowest(c);
        lemma_drop_lowest_smaller(c);
        lemma_popcount_drop_lowest(c);
        lemma_popcount_and_le(rest, masks[v]);
        lemma_and_le(rest, masks[v]);
        lemma_clique_count_too_few(masks, rest, t);
        lemma_clique_count_too_few(masks, rest & masks[v], (t - 1) as nat);
    }
}

/// A candidate set has fewer nonempty cliques than it has subsets.
proof fn lemma_clique_count_bound(masks: Seq<u64>, c: u64, t: nat)
    ensures
        clique_count(masks, c, t) + (if t >= 1 { 1int } else { 0int }) <= pow2(popcount(c)),
    decreases c,
{
    if t == 0 {
        assert(pow2(popcount(c)) >= 1) by {
            lemma_pow2_mono(0, popcount(c));
        }
    } else if c == 0 {
    } else {
        let v = u64_trailing_zeros(c) as int;
        let rest = drop_lowest(c);
        lemma_drop_lowest_smaller(c);
        lemma_popcount_drop_lowest(c);
        lemma_popcount_and_le(rest, masks[v]);
        lemma_and_le(rest, masks[v]);
        lemma_clique_count_bound(masks, rest, t);
        lemma_clique_count_bound(masks, rest & masks[v], (t - 1) as nat);
        lemma_pow2_mono(popcount(rest & masks[v]), popcount(rest));
    }
}

/// Every clique count fits in a `u64`.
pub proof fn lemma_clique_count_fits(masks: Seq<u64>, c: u64, t: nat)
    ensures
        clique_count(masks, c, t) <= u64::MAX,
{
    lemma_clique_count_bound(masks, c, t);
    crate::bits::lemma_popcount_le_64(c);
    lemma_pow2_mono(popcount(c), 64);
    lemma_pow2_64();
}

/// On at most 63 vertices a clique count is below `2^63`.
pub proof fn lemma_cliques_of_small(masks: Seq<u64>, k: nat, n: int)
    requires
        0 <= n <= 63,
    ensures
        cliques_of(masks, k, n) <= 0x7fff_ffff_ffff_ffff,
{
    lemma_clique_count_bound(masks, low_bits(n), k);
    lemma_popcount_low_bits(n);
    lemma_pow2_mono(n as nat, 63);
    reveal_with_fuel(pow2, 64);
    if k == 0 {
        assert(cliques_of(masks, k, n) == 1);
    }
}

/// The lowest set bit of a nonzero word is set and names a vertex below
/// any bound the word fits in.
proof fn lemma_lowest_in(c: u64, bound: int)
    requires
        c != 0,
        fits(c, bound),
    ensures
        bit64(c, u64_trailing_zeros(c) as int),
        u64_trailing_zeros(c) < 64,
        u64_trailing_zeros(c) < bound,
{
    axiom_u64_trailing_zeros(c);
    let v = u64_trailing_zeros(c) as u64;
    if bound < 64 {
        let b = bound as u64;
        assert(v < 64 && b < 64 && (c >> v) & 1u64 == 1u64 && c < (1u64 << b) ==> v < b)
            by (bit_vector);
    }
}

/// Masking with anything keeps a word within its bound.
proof fn lemma_fits_and(x: u64, y: u64, bound: int)
    requires
        fits(x, bound) || fits(y, bound),
    ensures
        fits(x & y, bound),
{
    if bound < 64 && 0 <= bound {
        let b = bound as u64;
        assert(b < 64 && (x < (1u64 << b) || y < (1u64 << b)) ==> (x & y) < (1u64 << b))
            by (bit_vector);
    }
}

/// Count the cliques of size `target` among `candidates` (one pass over the
/// candidates, lowest first; each one either starts a clique among its
/// larger neighbours or is skipped).
fn count_cliques_in_mask(nbrs: &NeighborSet, candidates: u64, target: u32, Ghost(bound): Ghost<int>) -> (r: u64)
    requires
        nbrs.closed_below(bound),
        0 <= bound <= 64,
        fits(candidates, bound),
    ensures
        r == clique_count(nbrs.masks@, candidates, target as nat),
    decreases candidates, 0int,
{
    let ghost masks = nbrs.masks@;
    if target == 0 {
        return 1;
    }
    if target == 1 {
        proof {
            lemma_clique_count_one(masks, candidates);
        }
        return count_ones64(candidates) as u64;
    }
    let mut count: u64 = 0;
    let mut mask = candidates;
    proof {
        lemma_clique_count_fits(masks, candidates, target as nat);
    }
    while mask != 0
        invariant
            nbrs.closed_below(bound),
            0 <= bound <= 64,
            masks == nbrs.masks@,
            fits(mask, bound),
            mask <= candidates,
            target >= 2,
            count + clique_count(masks, mask, target as nat) == clique_count(masks, candidates, target as nat),
            clique_count(masks, candidates, target as nat) <= u64::MAX,
        decreases mask,
    {
        proof {
            lemma_lowest_in(mask, bound);
            lemma_drop_lowest_smaller(mask);
        }
        let v = mask.trailing_zeros();
        let ghost old_mask = mask;
        mask = mask & (mask - 1);
        proof {
            lemma_and_le(old_mask, (old_mask - 1) as u64);
            lemma_fits_and(old_mask, (old_mask - 1) as u64, bound);
            lemma_fits_and(mask, masks[v as int], bound);
            lemma_and_le(mask, masks[v as int]);
        }
        let sub = mask & nbrs.masks[v as usize];
        let c = count_cliques_in_mask(nbrs, sub, target - 1, Ghost(bound));
        count = count + c;
    }
    count
}

/// Count all `k`-cliques of the graph on vertices `0..n` given by `nbrs`.
///
/// For monochromatic cliques of a 2-colouring, call it once on the graph's
/// masks and once on the complement's.
pub fn count_cliques(nbrs: &NeighborSet, k: u32, n: u32) -> (r: u64)
    requires
        nbrs.closed_below(n as int),
        k >= 2 ==> n <= 64,
    ensures
        k != 1 || n <= 64 ==> r == cliques_of(nbrs.masks@, k as nat, n as int),
        k == 1 ==> r == n,
{
    let ghost masks = nbrs.masks@;
    if k == 0 {
        return 1;
    }
    if k == 1 {
        proof {
            lemma_clique_count_one(masks, low_bits(n as int));
            if n <= 64 {
                lemma_popcount_low_bits(n as int);
            }
        }
        return n as u64;
    }
    proof {
        lemma_clique_count_fits(masks, low_bits(n as int), k as nat);
        lemma_low_bits_from(n as int, 0);
    }
    let mut total: u64 = 0;
    let mut v: u32 = 0;
    while v < n
        invariant
            nbrs.closed_below(n as int),
            masks == nbrs.masks@,
            2 <= k,
            n <= 64,
            v <= n,
            total + clique_count(masks, low_bits(n as int) & high_from(v as int), k as nat) == cliques_of(masks, k as nat, n as int),
            cliques_of(masks, k as nat, n as int) <= u64::MAX,
        decreases n - v,
    {
        let upper: u64 = if v < 63 {
            proof {
                lemma_one_shl_pos((v + 1) as u64);
            }
            !((1u64 << (v + 1)) - 1)
        } else {
            0
        };
        assert(upper == above(v as int));
        let higher = nbrs.masks[v as usize] & upper;
        proof {
            lemma_low_bits_step(n as int, v as int, masks[v as int]);
            lemma_fits_and(masks[v as int], above(v as int), n as int);
        }
        let c = if k == 2 {
            proof {
                lemma_clique_count_one(masks, higher);
            }
            count_ones64(higher) as u64
        } else {
            count_cliques_in_mask(nbrs, higher, k - 1, Ghost(n as int))
        };
        total = total + c;
        v = v + 1;
    }
    proof {
        lemma_low_bits_from(n as int, n as int);
    }
    total
}

/// The bits at and above position `v`.
pub open spec fn high_from(v: int) -> u64 {
    if v >= 64 {
        0
    } else {
        !(((1u64 << (v as u64)) - 1) as u64)
    }
}

/// All of `0..n` lies at or above 0; nothing of `0..n` lies at or above `n`.
proof fn lemma_low_bits_from(n: int, v: int)
    requires
        0 <= n <= 64,
        v == 0 || v == n,
    ensures
        v == 0 ==> low_bits(n) & high_from(v) == low_bits(n),
        v == n ==> low_bits(n) & high_from(v) == 0,
{
    if n == 64 {
        lemma_full_word(0, 0, !(((1u64 << 1u64) - 1) as u64), 0);
        return;
    }
    let nn = n as u64;
    assert(nn < 64 ==> (((1u64 << nn) - 1) as u64) & !(((1u64 << 0u64) - 1) as u64) == (((1u64
        << nn) - 1) as u64) && (((1u64 << nn) - 1) as u64) & !(((1u64 << nn) - 1) as u64) == 0)
        by (bit_vector);
}

/// Bit facts about the words of a 64-vertex graph: all of `0..64` from
/// position `v` on, its lowest bit, and the part above `v` (`h1`).
proof fn lemma_full_word(vv: u64, m: u64, h1: u64, j: u64)
    by (bit_vector)
    requires
        vv < 64,
        h1 == (if vv < 63 {
            !(((1u64 << ((vv + 1) as u64)) - 1) as u64)
        } else {
            0u64
        }),
    ensures
        0xffff_ffff_ffff_ffffu64 & !(((1u64 << vv) - 1) as u64) == !(((1u64 << vv) - 1) as u64),
        (!(((1u64 << vv) - 1) as u64)) >> vv & 1u64 == 1u64,
        !(((1u64 << vv) - 1) as u64) != 0,
        (!(((1u64 << vv) - 1) as u64)) & (((!(((1u64 << vv) - 1) as u64)) - 1) as u64) == h1,
        0xffff_ffff_ffff_ffffu64 & h1 == h1,
        h1 & m == m & h1,
        j < vv ==> (!(((1u64 << vv) - 1) as u64)) >> j & 1u64 == 0u64,
        0xffff_ffff_ffff_ffffu64 & !(((1u64 << 0u64) - 1) as u64) == 0xffff_ffff_ffff_ffffu64,
        0xffff_ffff_ffff_ffffu64 & 0u64 == 0u64,
{
}

/// Splitting off vertex `v`, the lowest of `v..n`: the rest is `v+1..n`, and
/// the rest intersected with `v`'s mask is its higher neighbours.
proof fn lemma_low_bits_step(n: int, v: int, m: u64)
    requires
        0 <= v < n <= 64,
        fits(m, n),
    ensures
        low_bits(n) & high_from(v) != 0,
        u64_trailing_zeros(low_bits(n) & high_from(v)) == v,
        drop_lowest(low_bits(n) & high_from(v)) == low_bits(n) & high_from(v + 1),
        (low_bits(n) & high_from(v + 1)) & m == m & above(v),
{
    if n == 64 {
        let vv = v as u64;
        let x = low_bits(n) & high_from(v);
        let h1 = high_from(v + 1);
        lemma_full_word(vv, m, h1, 0);
        assert forall|j: u64| j < vv implies #[trigger] ((x >> j) & 1u64) == 0u64 by {
            lemma_full_word(vv, m, h1, j);
        }
        lemma_tz_exact(x, vv);
        return;
    }
    let nn = n as u64;
    let vv = v as u64;
    let x = low_bits(n) & high_from(v);
    assert(vv < nn && nn < 64 && m < (1u64 << nn) ==> ((((1u64 << nn) - 1) as u64) & !(((1u64 << vv)
        - 1) as u64)) >> vv & 1u64 == 1u64 && (((1u64 << nn) - 1) as u64) & !(((1u64 << vv) - 1)
        as u64) != 0 && ({
        let y = (((1u64 << nn) - 1) as u64) & !(((1u64 << vv) - 1) as u64);
        y & ((y - 1) as u64) == (((1u64 << nn) - 1) as u64) & !(((1u64 << ((vv + 1) as u64)) - 1)
            as u64)
    }) && ((((1u64 << nn) - 1) as u64) & !(((1u64 << ((vv + 1) as u64)) - 1) as u64)) & m == m & !(
    ((1u64 << ((vv + 1) as u64)) - 1) as u64)) by (bit_vector);
    assert forall|j: u64| j < vv implies #[trigger] ((x >> j) & 1u64) == 0u64 by {
        assert(j < vv && vv < nn && nn < 64 ==> ((((1u64 << nn) - 1) as u64) & !(((1u64 << vv) - 1)
            as u64)) >> j & 1u64 == 0u64) by (bit_vector);
    }
    lemma_tz_exact(x, vv);
}

/// A word whose bit `v` is set and whose lower bits are clear has `v`
/// trailing zeros.
proof fn lemma_tz_exact(x: u64, v: u64)
    requires
        v < 64,
        (x >> v) & 1u64 == 1u64,
        forall|j: u64| j < v ==> #[trigger] ((x >> j) & 1u64) == 0u64,
    ensures
        u64_trailing_zeros(x) == v,
{
    axiom_u64_trailing_zeros(x);
    let t = u64_trailing_zeros(x) as u64;
    if x == 0 {
        assert((0u64 >> v) & 1u64 == 0u64) by (bit_vector);
    }
    if t < v {
        assert((x >> t) & 1u64 == 0u64);
    }
    if t > v {
        assert((x >> v) & 1u64 == 0u64);
    }
}

/// The vertices `0..n` are `n` in number.
proof fn lemma_popcount_low_bits(n: int)
    requires
        0 <= n <= 64,
    ensures
        popcount(low_bits(n)) == n,
    decreases n,
{
    let nn = n as u64;
    assert(((1u64 << 0u64) - 1) as u64 == 0 && 0xffff_ffff_ffff_ffffu64 / 2 == ((1u64 << 63u64) - 1)
        as u64 && (0 < nn && nn < 64 ==> (((1u64 << nn) - 1) as u64) / 2 == (((1u64 << ((nn - 1)
        as u64)) - 1) as u64) && (((1u64 << nn) - 1) as u64) % 2 == 1)) by (bit_vector);
    if n == 64 {
        lemma_popcount_low_bits(63);
    } else if n > 0 {
        lemma_popcount_low_bits(n - 1);
    }
}

/// Setting a clear bit adds one set bit.
proof fn lemma_popcount_set_bit(x: u64, b: u64)
    requires
        b < 64,
        (x >> b) & 1u64 == 0u64,
    ensures
        popcount(x | (1u64 << b)) == popcount(x) + 1,
    decreases b,
{
    let c = (b - 1) as u64;
    assert(b < 64 && (x >> b) & 1u64 == 0u64 ==> (x | (1u64 << b)) != 0 && (b == 0 ==> (x | (1u64
        << b)) % 2 == 1 && (x | (1u64 << b)) / 2 == x / 2 && x % 2 == 0) && (0 < b && c == b - 1 ==> (x
        | (1u64 << b)) % 2 == x % 2 && (x | (1u64 << b)) / 2 == (x / 2) | (1u64 << c) && ((x / 2)
        >> c) & 1u64 == 0u64)) by (bit_vector);
    if b == 0 {
        if x != 0 {
            assert(popcount(x) == (x % 2) as nat + popcount(x / 2));
        } else {
            assert(popcount(x / 2) == 0);
        }
    } else {
        lemma_popcount_set_bit(x / 2, c);
        if x != 0 {
            assert(popcount(x) == (x % 2) as nat + popcount(x / 2));
        } else {
            assert(popcount(x / 2) == 0);
        }
    }
}

/// A word with a clear bit has at most 63 set bits.
proof fn lemma_popcount_clear_bit(x: u64, b: u64)
    requires
        b < 64,
        (x >> b) & 1u64 == 0u64,
    ensures
        popcount(x) <= 63,
{
    lemma_popcount_set_bit(x, b);
    crate::bits::lemma_popcount_le_64(x | (1u64 << b));
}

/// Cliques through an edge number fewer than `2^63`.
proof fn lemma_cliques_through_small(masks: Seq<u64>, k: nat, u: int, v: int, present: bool)
    requires
        0 <= u < 64,
        0 <= v < 64,
    ensures
        cliques_through(masks, k, u, v, present) <= i64::MAX,
{
    if k >= 3 && present {
        let c = common_neighbors(masks, u, v);
        let uu = u as u64;
        let vv = v as u64;
        let mu = masks[u];
        let mv = masks[v];
        assert(uu < 64 && vv < 64 ==> ((mu & mv & !(1u64 << uu) & !(1u64 << vv)) >> uu) & 1u64
            == 0u64) by (bit_vector);
        lemma_popcount_clear_bit(c, uu);
        lemma_clique_count_bound(masks, c, (k - 2) as nat);
        lemma_pow2_mono(popcount(c), 63);
        reveal_with_fuel(pow2, 64);
    }
}

/// Pairs of candidates number at most the square of the candidates.
proof fn lemma_clique_count_two(masks: Seq<u64>, c: u64)
    ensures
        clique_count(masks, c, 2) <= popcount(c) * popcount(c),
    decreases c,
{
    if c != 0 {
        let v = u64_trailing_zeros(c) as int;
        let rest = drop_lowest(c);
        lemma_drop_lowest_smaller(c);
        lemma_popcount_drop_lowest(c);
        lemma_popcount_and_le(rest, masks[v]);
        lemma_and_le(rest, masks[v]);
        lemma_clique_count_two(masks, rest);
        lemma_clique_count_one(masks, rest & masks[v]);
        let p = popcount(c) as int;
        let q = popcount(rest) as int;
        assert(q * q + q <= p * p) by (nonlinear_arith)
            requires
                p == q + 1,
                q >= 0,
        ;
    }
}

/// For distinct `u`, `v`, the cliques through the pair number fewer than
/// `2^62`, at most 62 for triangles and at most `62^2` for 4-cliques.
pub proof fn lemma_through_bounds(masks: Seq<u64>, k: nat, u: int, v: int, present: bool)
    requires
        0 <= u < 64,
        0 <= v < 64,
        u != v,
    ensures
        cliques_through(masks, k, u, v, present) <= 0x3fff_ffff_ffff_ffff,
        k == 3 ==> cliques_through(masks, k, u, v, present) <= 62,
        k == 4 ==> cliques_through(masks, k, u, v, present) <= 3844,
{
    if k >= 3 && present {
        let c = common_neighbors(masks, u, v);
        let uu = u as u64;
        let vv = v as u64;
        let mu = masks[u];
        let mv = masks[v];
        assert(uu < 64 && vv < 64 && uu != vv ==> ((mu & mv & !(1u64 << uu) & !(1u64 << vv)) >> uu) & 1u64
            == 0u64 && (((mu & mv & !(1u64 << uu) & !(1u64 << vv)) | (1u64 << uu)) >> vv) & 1u64 == 0u64)
            by (bit_vector);
        lemma_popcount_set_bit(c, uu);
        lemma_popcount_set_bit(c | (1u64 << uu), vv);
        crate::bits::lemma_popcount_le_64((c | (1u64 << uu)) | (1u64 << vv));
        assert(popcount(c) <= 62);
        lemma_clique_count_bound(masks, c, (k - 2) as nat);
        lemma_pow2_mono(popcount(c), 62);
        reveal_with_fuel(pow2, 63);
        if k == 3 {
            lemma_clique_count_one(masks, c);
        }
        if k == 4 {
            lemma_clique_count_two(masks, c);
            let p = popcount(c) as int;
            assert(p * p <= 3844) by (nonlinear_arith)
                requires
                    0 <= p <= 62,
            ;
        }
    }
}

/// The binomial coefficient `p` choose `t`, by Pascal's rule.
pub open spec fn binom(p: nat, t: nat) -> nat
    decreases p,
{
    if t == 0 {
        1
    } else if p == 0 {
        0
    } else {
        binom((p - 1) as nat, t) + binom((p - 1) as nat, (t - 1) as nat)
    }
}

/// Choosing from more never gives fewer.
pub proof fn lemma_binom_mono(s: nat, p: nat, t: nat)
    requires
        s <= p,
    ensures
        binom(s, t) <= binom(p, t),
    decreases p,
{
    if s < p {
        lemma_binom_mono(s, (p - 1) as nat, t);
    }
}

/// A candidate set of `p` vertices has at most `p` choose `t` cliques of
/// size `t`.
proof fn lemma_clique_count_binom(masks: Seq<u64>, c: u64, t: nat)
    ensures
        clique_count(masks, c, t) <= binom(popcount(c), t),
    decreases c,
{
    if t != 0 && c != 0 {
        let v = u64_trailing_zeros(c) as int;
        let rest = drop_lowest(c);
        lemma_drop_lowest_smaller(c);
        lemma_popcount_drop_lowest(c);
        lemma_popcount_and_le(rest, masks[v]);
        lemma_and_le(rest, masks[v]);
        lemma_clique_count_binom(masks, rest, t);
        lemma_clique_count_binom(masks, rest & masks[v], (t - 1) as nat);
        lemma_binom_mono(popcount(rest & masks[v]), popcount(rest), (t - 1) as nat);
    }
}

/// A graph on `n` vertices has at most `n` choose `k` cliques of size `k`.
pub proof fn lemma_cliques_at_most_binom(masks: Seq<u64>, k: nat, n: int)
    requires
        0 <= n <= 63,
    ensures
        cliques_of(masks, k, n) <= binom(n as nat, k),
{
    lemma_clique_count_binom(masks, low_bits(n), k);
    lemma_popcount_low_bits(n);
}

/// On at most 63 vertices there are at most `63^3` triangles and `63^4`
/// 4-cliques.
pub proof fn lemma_small_clique_totals(masks: Seq<u64>, n: int)
    requires
        0 <= n <= 63,
    ensures
        cliques_of(masks, 3, n) <= 250047,
        cliques_of(masks, 4, n) <= 15752961,
{
    lemma_popcount_low_bits(n);
    lemma_clique_count_cube_quart(masks, low_bits(n));
    let p = n;
    assert(p * p * p <= 250047 && p * p * p * p <= 15752961) by (nonlinear_arith)
        requires
            0 <= p <= 63,
    ;
}

/// Triples and quadruples of candidates number at most the cube and fourth
/// power of the candidates.
proof fn lemma_clique_count_cube_quart(masks: Seq<u64>, c: u64)
    ensures
        clique_count(masks, c, 3) <= popcount(c) * popcount(c) * popcount(c),
        clique_count(masks, c, 4) <= popcount(c) * popcount(c) * popcount(c) * popcount(c),
    decreases c,
{
    if c != 0 {
        let v = u64_trailing_zeros(c) as int;
        let rest = drop_lowest(c);
        let sub = rest & masks[v];
        lemma_drop_lowest_smaller(c);
        lemma_popcount_drop_lowest(c);
        lemma_popcount_and_le(rest, masks[v]);
        lemma_and_le(rest, masks[v]);
        lemma_clique_count_cube_quart(masks, rest);
        lemma_clique_count_cube_quart(masks, sub);
        lemma_clique_count_two(masks, sub);
        let p = popcount(c) as int;
        let q = popcount(rest) as int;
        let s = popcount(sub) as int;
        let a3 = clique_count(masks, rest, 3) as int;
        let b2 = clique_count(masks, sub, 2) as int;
        let a4 = clique_count(masks, rest, 4) as int;
        let b3 = clique_count(masks, sub, 3) as int;
        assert(a3 + b2 <= p * p * p && a4 + b3 <= p * p * p * p) by (nonlinear_arith)
            requires
                p == q + 1,
                q >= 0,
                0 <= s <= q,
                a3 <= q * q * q,
                b2 <= s * s,
                a4 <= q * q * q * q,
                b3 <= s * s * s,
        ;
    }
}

/// Common neighbours stay within the vertex range.
proof fn lemma_common_fits(masks: Seq<u64>, u: int, v: int)
    requires
        0 <= u < masks.len(),
        0 <= v < masks.len(),
        masks.len() <= 64,
        fits(masks[u], masks.len() as int),
    ensures
        fits(common_neighbors(masks, u, v), masks.len() as int),
{
    let uu = u as u64;
    let vv = v as u64;
    lemma_fits_and(masks[u], masks[v], masks.len() as int);
    lemma_fits_and(masks[u] & masks[v], !(1u64 << uu), masks.len() as int);
    lemma_fits_and(masks[u] & masks[v] & !(1u64 << uu), !(1u64 << vv), masks.len() as int);
}

/// Count the `k`-cliques containing both `u` and `v`; zero when the edge
/// `{u, v}` is absent.
pub fn count_cliques_through_edge(nbrs: &NeighborSet, k: u32, u: u32, v: u32) -> (r: u64)
    requires
        nbrs.wf(),
        u < nbrs.masks@.len(),
        v < nbrs.masks@.len(),
    ensures
        r == cliques_through(nbrs.masks@, k as nat, u as int, v as int, bit64(nbrs.masks@[u as int], v as int)),
        r <= i64::MAX,
{
    let present = nbrs.has_edge(u, v);
    count_cliques_through_edge_assuming(nbrs, k, u, v, present)
}

/// Count the `k`-cliques containing both `u` and `v` as if the edge `{u, v}`
/// were present exactly when `edge_present` holds ("what-if" counting).
pub fn count_cliques_through_edge_assuming(
    nbrs: &NeighborSet,
    k: u32,
    u: u32,
    v: u32,
    edge_present: bool,
) -> (r: u64)
    requires
        nbrs.wf(),
        u < nbrs.masks@.len(),
        v < nbrs.masks@.len(),
    ensures
        r == cliques_through(nbrs.masks@, k as nat, u as int, v as int, edge_present),
        r <= i64::MAX,
{
    proof {
        lemma_cliques_through_small(nbrs.masks@, k as nat, u as int, v as int, edge_present);
    }
    if k < 2 || !edge_present {
        return 0;
    }
    if k == 2 {
        return 1;
    }
    let common = nbrs.masks[u as usize] & nbrs.masks[v as usize] & !(1u64 << u) & !(1u64 << v);
    let len = nbrs.masks.len();
    proof {
        lemma_common_fits(nbrs.masks@, u as int, v as int);
    }
    if count_ones64(common) < k - 2 {
        proof {
            lemma_clique_count_too_few(nbrs.masks@, common, (k - 2) as nat);
        }
        return 0;
    }
    count_cliques_in_mask(nbrs, common, k - 2, Ghost(len as int))
}

/// Change in the graph's `k`-cliques from flipping `{u, v}`: the cliques
/// through the pair are lost if it is an edge, gained if it is not.
pub open spec fn red_delta(a: Seq<u64>, k: nat, u: int, v: int) -> int {
    if bit64(a[u], v) {
        -(cliques_through(a, k, u, v, true) as int)
    } else {
        cliques_through(a, k, u, v, true) as int
    }
}

/// Change in the complement's `ell`-cliques from flipping `{u, v}` in the
/// graph `a`, whose complement has the masks `c`.
pub open spec fn blue_delta(a: Seq<u64>, c: Seq<u64>, ell: nat, u: int, v: int) -> int {
    let before = cliques_through(c, ell, u, v, bit64(c[u], v)) as int;
    if bit64(a[u], v) {
        cliques_through(c, ell, u, v, true) - before
    } else {
        -before
    }
}

/// Change in the clique counts from flipping the edge `{u, v}`:
/// `(change in k-cliques of the graph, change in ell-cliques of the complement)`.
pub fn violation_delta(
    adj_nbrs: &NeighborSet,
    comp_nbrs: &NeighborSet,
    k: u32,
    ell: u32,
    u: u32,
    v: u32,
) -> (r: (i64, i64))
    requires
        adj_nbrs.wf(),
        comp_nbrs.wf(),
        u < adj_nbrs.masks@.len(),
        v < adj_nbrs.masks@.len(),
        u < comp_nbrs.masks@.len(),
        v < comp_nbrs.masks@.len(),
    ensures
        r.0 == red_delta(adj_nbrs.masks@, k as nat, u as int, v as int),
        r.1 == blue_delta(adj_nbrs.masks@, comp_nbrs.masks@, ell as nat, u as int, v as int),
{
    let edge_present = adj_nbrs.has_edge(u, v);
    let kc_before = count_cliques_through_edge(adj_nbrs, k, u, v) as i64;
    let ei_before = count_cliques_through_edge(comp_nbrs, ell, u, v) as i64;
    if edge_present {
        let ei_after = count_cliques_through_edge_assuming(comp_nbrs, ell, u, v, true) as i64;
        (-kc_before, ei_after - ei_before)
    } else {
        let kc_after = count_cliques_through_edge_assuming(adj_nbrs, k, u, v, true) as i64;
        (kc_after - kc_before, -ei_before)
    }
}

/// FNV-1a-style fold of the masks, used for fast, non-cryptographic dedup.
pub open spec fn fingerprint_of(masks: Seq<u64>) -> u64
    decreases masks.len(),
{
    if masks.len() == 0 {
        0xcbf29ce484222325u64
    } else {
        vstd::wrapping::u64_specs::wrapping_mul(
            fingerprint_of(masks.drop_last()) ^ masks.last(),
            0x100000001b3u64,
        )
    }
}

/// 64-bit XOR-fold fingerprint of the masks (not cryptographic: distinct
/// graphs may collide).
pub fn fast_fingerprint(masks: &[u64]) -> (h: u64)
    ensures
        h == fingerprint_of(masks@),
{
    let mut h: u64 = 0xcbf29ce484222325;
    let mut i: usize = 0;
    while i < masks.len()
        invariant
            i <= masks@.len(),
            h == fingerprint_of(masks@.subrange(0, i as int)),
        decreases masks@.len() - i,
    {
        proof {
            let s = masks@.subrange(0, i + 1);
            assert(s.drop_last() =~= masks@.subrange(0, i as int));
        }
        h = h ^ masks[i];
        h = h.wrapping_mul(0x100000001b3);
        i = i + 1;
    }
    assert(masks@.subrange(0, i as int) =~= masks@);
    h
}

} // verus!
