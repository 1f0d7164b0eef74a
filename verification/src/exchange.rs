//! How flipping one pair of vertices changes the clique counts: by exactly
//! the cliques through that pair. This is what makes the incremental
//! violation deltas of the searches exact.

use vstd::prelude::*;
use vstd::std_specs::bits::u64_trailing_zeros;

use crate::bits::{bit64, drop_lowest, lemma_bit_ops, lemma_bits_ext, lemma_drop_lowest_bits, lemma_drop_lowest_smaller};
use crate::adjacency::ordered;
use crate::clique::{
    blue_delta, clique_count, cliques_of, cliques_through, common_neighbors, flipped_masks, graph_cliques,
    graph_masks, is_row_mask, lemma_and_le, low_bits, red_delta,
};
use crate::histogram::complement_edges;
use crate::random::toggle;
use crate::tree2::{lemma_complement_toggle, lemma_flip_masks};
use crate::tree2::lemma_bit_xor;

verus! {

/// The masks describe a simple undirected graph on `0..n`: each of the
/// first `n` names only other vertices below `n`, and adjacency is
/// symmetric.
pub open spec fn simple_masks(m: Seq<u64>, n: int) -> bool {
    &&& 0 <= n <= m.len()
    &&& n <= 64
    &&& forall|a: int, b: int| 0 <= a < n && #[trigger] bit64(m[a], b) ==> 0 <= b < n && a != b
    &&& forall|a: int, b: int|
        #![trigger bit64(m[a], b)]
        0 <= a < n && 0 <= b < n ==> bit64(m[a], b) == bit64(m[b], a)
}

/// Every set bit of `c` names a vertex below `n`.
pub open spec fn within(c: u64, n: int) -> bool {
    forall|b: int| #[trigger] bit64(c, b) ==> b < n
}

/// The single bit at position `v`.
pub proof fn lemma_single_bit(v: int)
    requires
        0 <= v < 64,
    ensures
        forall|t: int| #[trigger] bit64(1u64 << (v as u64), t) == (t == v),
{
    let vv = v as u64;
    assert forall|t: int| #[trigger] bit64(1u64 << vv, t) == (t == v) by {
        if 0 <= t < 64 {
            let tt = t as u64;
            assert(vv < 64 && tt < 64 ==> (((1u64 << vv) >> tt) & 1u64 == 1u64) == (vv == tt)) by (bit_vector);
        }
    }
}

/// The bits of a complement.
pub proof fn lemma_not_bits(x: u64)
    ensures
        forall|t: int| #[trigger] bit64(!x, t) == (0 <= t < 64 && !bit64(x, t)),
{
    assert forall|t: int| #[trigger] bit64(!x, t) == (0 <= t < 64 && !bit64(x, t)) by {
        if 0 <= t < 64 {
            let tt = t as u64;
            assert(tt < 64 ==> (((!x) >> tt) & 1u64 == 1u64) == !((x >> tt) & 1u64 == 1u64)) by (bit_vector);
        }
    }
}

/// A set bit below every other set bit is the lowest one: it is what
/// `trailing_zeros` finds and what `drop_lowest` clears.
pub proof fn lemma_lowest(c: u64, y: int)
    requires
        bit64(c, y),
        forall|x: int| #[trigger] bit64(c, x) ==> y <= x,
    ensures
        c != 0,
        u64_trailing_zeros(c) == y,
        forall|x: int| #[trigger] bit64(drop_lowest(c), x) == (bit64(c, x) && x != y),
{
    lemma_bit_ops(c, c);
    assert(c != 0);
    lemma_drop_lowest_bits(c);
}

/// Adding a vertex `v` to a candidate set adds the cliques that contain
/// it: those of one size less among its neighbours in the set.
pub proof fn lemma_insert_vertex(m: Seq<u64>, n: int, d: u64, v: int, s: nat)
    requires
        simple_masks(m, n),
        within(d, n),
        0 <= v < n,
        !bit64(d, v),
        s >= 1,
    ensures
        clique_count(m, d | (1u64 << (v as u64)), s) == clique_count(m, d, s) + clique_count(
            m,
            d & m[v],
            (s - 1) as nat,
        ),
    decreases d,
{
    let bv = 1u64 << (v as u64);
    let c = d | bv;
    lemma_single_bit(v);
    lemma_bit_ops(d, bv);
    lemma_bit_ops(0, 0);
    assert(bit64(c, v));
    lemma_drop_lowest_bits(c);
    let y = u64_trailing_zeros(c) as int;
    let rest = drop_lowest(c);
    assert(c != 0);
    assert(clique_count(m, c, s) == clique_count(m, rest, s) + clique_count(m, rest & m[y], (s - 1) as nat));
    if y == v {
        assert forall|b: int| 0 <= b < 64 implies #[trigger] bit64(rest, b) == bit64(d, b) by {}
        lemma_bits_ext(rest, d);
    } else {
        assert(bit64(d, y));
        assert forall|x: int| #[trigger] bit64(d, x) implies y <= x by {
            assert(bit64(c, x));
        }
        lemma_lowest(d, y);
        let dp = drop_lowest(d);
        lemma_bit_ops(dp, bv);
        assert forall|b: int| 0 <= b < 64 implies #[trigger] bit64(rest, b) == bit64(dp | bv, b) by {}
        lemma_bits_ext(rest, dp | bv);
        lemma_drop_lowest_smaller(d);
        lemma_insert_vertex(m, n, dp, v, s);
        assert(clique_count(m, d, s) == clique_count(m, dp, s) + clique_count(m, dp & m[y], (s - 1) as nat));
        let my = m[y];
        let mv = m[v];
        lemma_bit_ops(dp, my);
        lemma_bit_ops(dp, mv);
        lemma_bit_ops(dp | bv, my);
        lemma_bit_ops(d, mv);
        lemma_bit_ops(dp & my, bv);
        lemma_bit_ops(dp & my, mv);
        lemma_bit_ops(dp & mv, my);
        assert((dp & my) & mv == (dp & mv) & my) by {
            assert forall|b: int| 0 <= b < 64 implies #[trigger] bit64((dp & my) & mv, b) == bit64((dp & mv) & my, b) by {}
            lemma_bits_ext((dp & my) & mv, (dp & mv) & my);
        }
        if bit64(my, v) {
            assert(bit64(mv, y));
            assert((dp | bv) & my == (dp & my) | bv) by {
                assert forall|b: int| 0 <= b < 64 implies #[trigger] bit64((dp | bv) & my, b) == bit64((dp & my) | bv, b) by {}
                lemma_bits_ext((dp | bv) & my, (dp & my) | bv);
            }
            assert(bit64(d & mv, y));
            assert forall|x: int| #[trigger] bit64(d & mv, x) implies y <= x by {
                assert(bit64(d, x));
            }
            lemma_lowest(d & mv, y);
            assert(drop_lowest(d & mv) == dp & mv) by {
                assert forall|b: int| 0 <= b < 64 implies #[trigger] bit64(drop_lowest(d & mv), b) == bit64(dp & mv, b) by {}
                lemma_bits_ext(drop_lowest(d & mv), dp & mv);
            }
            if s >= 2 {
                lemma_and_le(dp, my);
                lemma_insert_vertex(m, n, dp & my, v, (s - 1) as nat);
                assert(clique_count(m, d & mv, (s - 1) as nat) == clique_count(m, dp & mv, (s - 1) as nat)
                    + clique_count(m, (dp & mv) & my, (s - 2) as nat));
            }
        } else {
            assert(!bit64(mv, y));
            assert((dp | bv) & my == dp & my) by {
                assert forall|b: int| 0 <= b < 64 implies #[trigger] bit64((dp | bv) & my, b) == bit64(dp & my, b) by {}
                lemma_bits_ext((dp | bv) & my, dp & my);
            }
            assert(d & mv == dp & mv) by {
                assert forall|b: int| 0 <= b < 64 implies #[trigger] bit64(d & mv, b) == bit64(dp & mv, b) by {}
                lemma_bits_ext(d & mv, dp & mv);
            }
        }
    }
}

/// The cliques of size `t` among the candidates `c` that adding the edge
/// `{u, v}` creates: with both ends among the candidates, the
/// `(t - 2)`-cliques among their common neighbours there.
pub open spec fn gained(m: Seq<u64>, c: u64, t: nat, u: int, v: int) -> nat {
    if t >= 2 && bit64(c, u) && bit64(c, v) {
        clique_count(m, c & common_neighbors(m, u, v), (t - 2) as nat)
    } else {
        0
    }
}

/// The bits of the common neighbours of `u` and `v`.
proof fn lemma_common_bits(m: Seq<u64>, u: int, v: int)
    requires
        0 <= u < 64,
        0 <= v < 64,
    ensures
        forall|b: int| #[trigger] bit64(common_neighbors(m, u, v), b) == (bit64(m[u], b) && bit64(m[v], b)
            && b != u && b != v),
{
    let bu = 1u64 << (u as u64);
    let bv = 1u64 << (v as u64);
    lemma_single_bit(u);
    lemma_single_bit(v);
    lemma_not_bits(bu);
    lemma_not_bits(bv);
    lemma_bit_ops(m[u], m[v]);
    lemma_bit_ops(m[u] & m[v], !bu);
    lemma_bit_ops(m[u] & m[v] & !bu, !bv);
    assert forall|b: int| #[trigger] bit64(common_neighbors(m, u, v), b) == (bit64(m[u], b) && bit64(m[v], b)
        && b != u && b != v) by {
        if bit64(m[u], b) {
            assert(0 <= b < 64);
        }
    }
}

/// The masks of the flipped pair: the ends gain each other, the rest stay.
proof fn lemma_flipped_entries(m: Seq<u64>, n: int, u: int, v: int)
    requires
        simple_masks(m, n),
        0 <= u < n,
        0 <= v < n,
        u != v,
        !bit64(m[u], v),
    ensures
        flipped_masks(m, u, v).len() == m.len(),
        forall|x: int| 0 <= x < m.len() && x != u && x != v ==> #[trigger] flipped_masks(m, u, v)[x] == m[x],
        forall|b: int| #[trigger] bit64(flipped_masks(m, u, v)[u], b) == (bit64(m[u], b) || b == v),
        forall|b: int| #[trigger] bit64(flipped_masks(m, u, v)[v], b) == (bit64(m[v], b) || b == u),
{
    let mf = flipped_masks(m, u, v);
    assert(!bit64(m[v], u));
    assert forall|b: int| #[trigger] bit64(mf[u], b) == (bit64(m[u], b) || b == v) by {
        if 0 <= b < 64 {
            lemma_bit_xor(m[u], v, b);
        }
    }
    assert forall|b: int| #[trigger] bit64(mf[v], b) == (bit64(m[v], b) || b == u) by {
        if 0 <= b < 64 {
            lemma_bit_xor(m[v], u, b);
        }
    }
}

/// Adding the edge `{u, v}` adds exactly the cliques through it.
proof fn lemma_add_edge(m: Seq<u64>, n: int, c: u64, t: nat, u: int, v: int)
    requires
        simple_masks(m, n),
        within(c, n),
        0 <= u < n,
        0 <= v < n,
        u != v,
        !bit64(m[u], v),
    ensures
        clique_count(flipped_masks(m, u, v), c, t) == clique_count(m, c, t) + gained(m, c, t, u, v),
    decreases c,
{
    let mf = flipped_masks(m, u, v);
    let com = common_neighbors(m, u, v);
    lemma_flipped_entries(m, n, u, v);
    lemma_common_bits(m, u, v);
    lemma_bit_ops(0, 0);
    if t == 0 || c == 0 {
        if c == 0 {
            assert(!bit64(c, u));
        }
        return;
    }
    lemma_drop_lowest_bits(c);
    lemma_drop_lowest_smaller(c);
    let x = u64_trailing_zeros(c) as int;
    let rest = drop_lowest(c);
    assert(x < n);
    let mx = m[x];
    let mfx = mf[x];
    assert(clique_count(mf, c, t) == clique_count(mf, rest, t) + clique_count(mf, rest & mfx, (t - 1) as nat));
    assert(clique_count(m, c, t) == clique_count(m, rest, t) + clique_count(m, rest & mx, (t - 1) as nat));
    lemma_bit_ops(rest, mx);
    lemma_bit_ops(rest, mfx);
    lemma_bit_ops(c, com);
    lemma_bit_ops(rest, com);
    lemma_and_le(rest, mfx);
    lemma_add_edge(m, n, rest, t, u, v);
    lemma_add_edge(m, n, rest & mfx, (t - 1) as nat, u, v);
    if x != u && x != v {
        assert(mfx == mx);
        if t >= 2 && bit64(c, u) && bit64(c, v) {
            if bit64(com, x) {
                assert(bit64(mx, u) && bit64(mx, v));
                assert forall|y: int| #[trigger] bit64(c & com, y) implies x <= y by {
                    assert(bit64(c, y));
                }
                lemma_lowest(c & com, x);
                assert(drop_lowest(c & com) == rest & com) by {
                    assert forall|b: int| 0 <= b < 64 implies #[trigger] bit64(drop_lowest(c & com), b) == bit64(
                        rest & com,
                        b,
                    ) by {}
                    lemma_bits_ext(drop_lowest(c & com), rest & com);
                }
                if t >= 3 {
                    lemma_bit_ops(rest & com, mx);
                    lemma_bit_ops(rest & mx, com);
                    assert((rest & com) & mx == (rest & mx) & com) by {
                        assert forall|b: int| 0 <= b < 64 implies #[trigger] bit64((rest & com) & mx, b) == bit64(
                            (rest & mx) & com,
                            b,
                        ) by {}
                        lemma_bits_ext((rest & com) & mx, (rest & mx) & com);
                    }
                    assert(clique_count(m, c & com, (t - 2) as nat) == clique_count(m, rest & com, (t - 2) as nat)
                        + clique_count(m, (rest & com) & mx, (t - 3) as nat));
                }
            } else {
                assert(c & com == rest & com) by {
                    assert forall|b: int| 0 <= b < 64 implies #[trigger] bit64(c & com, b) == bit64(rest & com, b) by {}
                    lemma_bits_ext(c & com, rest & com);
                }
                assert(!(bit64(mx, u) && bit64(mx, v)));
            }
        }
    } else if x == u {
        let bv = 1u64 << (v as u64);
        lemma_single_bit(v);
        lemma_bit_ops(rest & m[u], bv);
        if bit64(c, v) {
            assert(rest & mfx == (rest & m[u]) | bv) by {
                assert forall|b: int| 0 <= b < 64 implies #[trigger] bit64(rest & mfx, b) == bit64((rest & m[u]) | bv, b) by {}
                lemma_bits_ext(rest & mfx, (rest & m[u]) | bv);
            }
            if t >= 2 {
                lemma_insert_vertex(m, n, rest & m[u], v, (t - 1) as nat);
                lemma_bit_ops(rest & m[u], m[v]);
                assert(c & com == (rest & m[u]) & m[v]) by {
                    assert forall|b: int| 0 <= b < 64 implies #[trigger] bit64(c & com, b) == bit64((rest & m[u]) & m[v], b) by {
                        if bit64(m[v], b) {
                            assert(b != v);
                        }
                    }
                    lemma_bits_ext(c & com, (rest & m[u]) & m[v]);
                }
            }
        } else {
            assert(rest & mfx == rest & m[u]) by {
                assert forall|b: int| 0 <= b < 64 implies #[trigger] bit64(rest & mfx, b) == bit64(rest & m[u], b) by {}
                lemma_bits_ext(rest & mfx, rest & m[u]);
            }
        }
    } else {
        let bu = 1u64 << (u as u64);
        lemma_single_bit(u);
        lemma_bit_ops(rest & m[v], bu);
        assert(!bit64(m[v], u));
        if bit64(c, u) {
            assert(rest & mfx == (rest & m[v]) | bu) by {
                assert forall|b: int| 0 <= b < 64 implies #[trigger] bit64(rest & mfx, b) == bit64((rest & m[v]) | bu, b) by {}
                lemma_bits_ext(rest & mfx, (rest & m[v]) | bu);
            }
            if t >= 2 {
                lemma_insert_vertex(m, n, rest & m[v], u, (t - 1) as nat);
                lemma_bit_ops(rest & m[v], m[u]);
                assert(c & com == (rest & m[v]) & m[u]) by {
                    assert forall|b: int| 0 <= b < 64 implies #[trigger] bit64(c & com, b) == bit64((rest & m[v]) & m[u], b) by {
                        if bit64(m[u], b) {
                            assert(b != u);
                        }
                    }
                    lemma_bits_ext(c & com, (rest & m[v]) & m[u]);
                }
            }
        } else {
            assert(rest & mfx == rest & m[v]) by {
                assert forall|b: int| 0 <= b < 64 implies #[trigger] bit64(rest & mfx, b) == bit64(rest & m[v], b) by {}
                lemma_bits_ext(rest & mfx, rest & m[v]);
            }
        }
    }
}

/// Flipping a pair of simple masks keeps them simple, and keeps the
/// common neighbours of the pair.
proof fn lemma_flip_simple(m: Seq<u64>, n: int, u: int, v: int)
    requires
        simple_masks(m, n),
        0 <= u < n,
        0 <= v < n,
        u != v,
    ensures
        simple_masks(flipped_masks(m, u, v), n),
        common_neighbors(flipped_masks(m, u, v), u, v) == common_neighbors(m, u, v),
        forall|x: int| 0 <= x < m.len() && x != u && x != v ==> #[trigger] flipped_masks(m, u, v)[x] == m[x],
        forall|b: int| 0 <= b < 64 ==> #[trigger] bit64(flipped_masks(m, u, v)[u], b) == (bit64(m[u], b) != (b == v)),
        forall|b: int| 0 <= b < 64 ==> #[trigger] bit64(flipped_masks(m, u, v)[v], b) == (bit64(m[v], b) != (b == u)),
{
    let mf = flipped_masks(m, u, v);
    assert forall|b: int| 0 <= b < 64 implies #[trigger] bit64(mf[u], b) == (bit64(m[u], b) != (b == v)) by {
        lemma_bit_xor(m[u], v, b);
    }
    assert forall|b: int| 0 <= b < 64 implies #[trigger] bit64(mf[v], b) == (bit64(m[v], b) != (b == u)) by {
        lemma_bit_xor(m[v], u, b);
    }
    assert forall|a: int, b: int| 0 <= a < n && #[trigger] bit64(mf[a], b) implies 0 <= b < n && a != b by {
        if a != u && a != v {
            assert(bit64(m[a], b));
        } else {
            assert(0 <= b < 64);
            if b != u && b != v {
                assert(bit64(m[a], b));
            }
        }
    }
    assert forall|a: int, b: int| 0 <= a < n && 0 <= b < n implies bit64(mf[a], b) == bit64(mf[b], a) by {
        assert(bit64(m[a], b) == bit64(m[b], a));
        if a < 64 && b < 64 {
            if a == u {
                assert(bit64(mf[u], b) == (bit64(m[u], b) != (b == v)));
            }
            if b == u {
                assert(bit64(mf[u], a) == (bit64(m[u], a) != (a == v)));
            }
            if a == v {
                assert(bit64(mf[v], b) == (bit64(m[v], b) != (b == u)));
            }
            if b == v {
                assert(bit64(mf[v], a) == (bit64(m[v], a) != (a == u)));
            }
        }
    }
    lemma_common_bits(m, u, v);
    lemma_common_bits(mf, u, v);
    assert forall|b: int| 0 <= b < 64 implies #[trigger] bit64(common_neighbors(mf, u, v), b) == bit64(
        common_neighbors(m, u, v),
        b,
    ) by {}
    lemma_bits_ext(common_neighbors(mf, u, v), common_neighbors(m, u, v));
}

/// Counting cliques among the candidates `d` reads only the masks of the
/// candidates.
proof fn lemma_count_reads_candidates(m: Seq<u64>, m2: Seq<u64>, d: u64, t: nat)
    requires
        forall|x: int| #[trigger] bit64(d, x) ==> m[x] == m2[x],
    ensures
        clique_count(m, d, t) == clique_count(m2, d, t),
    decreases d,
{
    if t > 0 && d != 0 {
        lemma_drop_lowest_bits(d);
        lemma_drop_lowest_smaller(d);
        let x = u64_trailing_zeros(d) as int;
        let rest = drop_lowest(d);
        lemma_and_le(rest, m[x]);
        lemma_bit_ops(rest, m[x]);
        lemma_count_reads_candidates(m, m2, rest, t);
        lemma_count_reads_candidates(m, m2, rest & m[x], (t - 1) as nat);
    }
}

/// Flipping the pair `{u, v}` changes the number of `t`-cliques among the
/// candidates `c` by the cliques through the pair: they appear when the
/// pair becomes an edge and disappear when it stops being one.
pub proof fn lemma_flip_count(m: Seq<u64>, n: int, c: u64, t: nat, u: int, v: int)
    requires
        simple_masks(m, n),
        within(c, n),
        0 <= u < n,
        0 <= v < n,
        u != v,
    ensures
        clique_count(flipped_masks(m, u, v), c, t) == clique_count(m, c, t) + (if bit64(m[u], v) {
            -gained(m, c, t, u, v)
        } else {
            gained(m, c, t, u, v) as int
        }),
{
    if bit64(m[u], v) {
        let m0 = flipped_masks(m, u, v);
        lemma_flip_simple(m, n, u, v);
        assert(!bit64(m0[u], v));
        lemma_add_edge(m0, n, c, t, u, v);
        crate::clique::lemma_flip_involution(m, u, v);
        assert(flipped_masks(m0, u, v) == m);
        let com = common_neighbors(m, u, v);
        lemma_common_bits(m, u, v);
        lemma_bit_ops(c, com);
        lemma_count_reads_candidates(m0, m, c & com, (t - 2) as nat);
        assert(gained(m0, c, t, u, v) == gained(m, c, t, u, v));
        assert(clique_count(m, c, t) == clique_count(m0, c, t) + gained(m, c, t, u, v));
    } else {
        lemma_add_edge(m, n, c, t, u, v);
    }
}

/// The bits of `low_bits(n)` are the vertices `0..n`.
pub proof fn lemma_low_bits_bits(n: int)
    requires
        0 <= n <= 64,
    ensures
        forall|b: int| #[trigger] bit64(low_bits(n), b) == (0 <= b < n),
{
    assert forall|b: int| #[trigger] bit64(low_bits(n), b) == (0 <= b < n) by {
        if 0 <= b < 64 {
            let bb = b as u64;
            let nn = n as u64;
            assert(bb < 64 && nn <= 64 ==> (nn < 64 ==> ((((1u64 << nn) - 1) as u64 >> bb) & 1u64 == 1u64)
                == (bb < nn)) && (0xffff_ffff_ffff_ffffu64 >> bb) & 1u64 == 1u64) by (bit_vector);
        }
    }
}

/// The row of `v` built from bit 0 up to (not including) bit `i`.
spec fn row_upto(g: Set<(int, int)>, n: int, v: int, i: int) -> u64
    decreases i,
{
    if i <= 0 {
        0
    } else {
        let p = row_upto(g, n, v, i - 1);
        let w = i - 1;
        if w < n && w != v && g.contains(ordered(v, w)) && w < 64 {
            p ^ (1u64 << (w as u64))
        } else {
            p
        }
    }
}

proof fn lemma_row_upto(g: Set<(int, int)>, n: int, v: int, i: int)
    requires
        0 <= i <= 64,
    ensures
        forall|b: int| #[trigger] bit64(row_upto(g, n, v, i), b) == (0 <= b < i && b < n && b != v && g.contains(ordered(v, b))),
    decreases i,
{
    if i == 0 {
        lemma_bit_ops(0, 0);
    } else {
        lemma_row_upto(g, n, v, i - 1);
        let p = row_upto(g, n, v, i - 1);
        assert forall|b: int| #[trigger] bit64(row_upto(g, n, v, i), b) == (0 <= b < i && b < n && b != v
            && g.contains(ordered(v, b))) by {
            if 0 <= b < 64 {
                lemma_bit_xor(p, i - 1, b);
            }
        }
    }
}

/// Every graph on at most 64 vertices has its row masks.
pub proof fn lemma_row_masks_exist(g: Set<(int, int)>, n: int)
    requires
        0 <= n <= 64,
    ensures
        graph_masks(g, n).len() == n,
        forall|v: int| 0 <= v < n ==> is_row_mask(#[trigger] graph_masks(g, n)[v], g, n, v),
{
    assert forall|v: int| 0 <= v < n implies is_row_mask(#[trigger] graph_masks(g, n)[v], g, n, v) by {
        lemma_row_upto(g, n, v, 64);
        assert(is_row_mask(row_upto(g, n, v, 64), g, n, v));
    }
}

/// The row masks of a graph are simple.
pub proof fn lemma_graph_masks_simple(g: Set<(int, int)>, n: int)
    requires
        0 <= n <= 64,
    ensures
        simple_masks(graph_masks(g, n), n),
{
    lemma_row_masks_exist(g, n);
    let m = graph_masks(g, n);
    assert forall|a: int, b: int| 0 <= a < n && #[trigger] bit64(m[a], b) implies 0 <= b < n && a != b by {
        assert(is_row_mask(m[a], g, n, a));
    }
    assert forall|a: int, b: int| 0 <= a < n && 0 <= b < n implies bit64(m[a], b) == bit64(m[b], a) by {
        assert(is_row_mask(m[a], g, n, a));
        assert(is_row_mask(m[b], g, n, b));
        assert(ordered(a, b) == ordered(b, a));
    }
}

/// Flipping the pair `{u, v}` changes the number of `k`-cliques on `0..n`
/// by `red_delta`.
pub proof fn lemma_flip_cliques_of(m: Seq<u64>, n: int, k: nat, u: int, v: int)
    requires
        simple_masks(m, n),
        0 <= u < n,
        0 <= v < n,
        u != v,
    ensures
        cliques_of(flipped_masks(m, u, v), k, n) == cliques_of(m, k, n) + red_delta(m, k, u, v),
{
    lemma_low_bits_bits(n);
    let c = low_bits(n);
    lemma_flip_count(m, n, c, k, u, v);
    let com = common_neighbors(m, u, v);
    lemma_common_bits(m, u, v);
    lemma_bit_ops(c, com);
    assert(c & com == com) by {
        assert forall|b: int| 0 <= b < 64 implies #[trigger] bit64(c & com, b) == bit64(com, b) by {}
        lemma_bits_ext(c & com, com);
    }
    assert(gained(m, c, k, u, v) == cliques_through(m, k, u, v, true));
}

/// Flipping the pair `{u, v}` of a graph on `0..n` changes its number of
/// `k`-cliques by exactly `red_delta` of its masks: it loses the
/// `k`-cliques through the pair when the pair was an edge, and gains those
/// the new edge completes when it was not.
pub proof fn lemma_flip_changes_cliques(g: Set<(int, int)>, n: int, k: nat, u: int, v: int)
    requires
        0 <= u < n,
        0 <= v < n,
        u != v,
        n <= 64,
    ensures
        graph_cliques(toggle(g, ordered(u, v)), n, k) == graph_cliques(g, n, k) + red_delta(
            graph_masks(g, n),
            k,
            u,
            v,
        ),
{
    let m = graph_masks(g, n);
    lemma_row_masks_exist(g, n);
    lemma_graph_masks_simple(g, n);
    lemma_flip_masks(m, g, n, u, v);
    lemma_flip_cliques_of(m, n, k, u, v);
}

/// Flipping the pair `{u, v}` of a graph on `0..n` changes its
/// complement's number of `ell`-cliques by exactly `blue_delta` of the two
/// graphs' masks.
pub proof fn lemma_flip_changes_complement_cliques(g: Set<(int, int)>, n: int, ell: nat, u: int, v: int)
    requires
        0 <= u < n,
        0 <= v < n,
        u != v,
        n <= 64,
    ensures
        graph_cliques(complement_edges(toggle(g, ordered(u, v)), n), n, ell) == graph_cliques(
            complement_edges(g, n),
            n,
            ell,
        ) + blue_delta(graph_masks(g, n), graph_masks(complement_edges(g, n), n), ell, u, v),
{
    let p = ordered(u, v);
    let cg = complement_edges(g, n);
    lemma_complement_toggle(g, n, p);
    lemma_flip_changes_cliques(cg, n, ell, u, v);
    lemma_row_masks_exist(g, n);
    lemma_row_masks_exist(cg, n);
    let a = graph_masks(g, n);
    let c = graph_masks(cg, n);
    assert(is_row_mask(a[u], g, n, u));
    assert(is_row_mask(c[u], cg, n, u));
    assert(bit64(c[u], v) == !bit64(a[u], v));
}

/// Adding a missing edge `{u, v}` to a graph on `0..n` adds exactly the
/// `k`-cliques through that edge, and these are counted on the graph
/// without it: for `k > 2`, the `(k - 2)`-cliques among the common
/// neighbours of `u` and `v` (for triangles, the common neighbours
/// themselves).
pub proof fn lemma_new_edge_cliques(g: Set<(int, int)>, n: int, k: nat, u: int, v: int)
    requires
        0 <= u < n,
        0 <= v < n,
        u != v,
        n <= 64,
        !g.contains(ordered(u, v)),
    ensures
        graph_cliques(g.insert(ordered(u, v)), n, k) == graph_cliques(g, n, k) + cliques_through(
            graph_masks(g, n),
            k,
            u,
            v,
            true,
        ),
{
    let m = graph_masks(g, n);
    lemma_row_masks_exist(g, n);
    assert(is_row_mask(m[u], g, n, u));
    assert(!bit64(m[u], v));
    assert(toggle(g, ordered(u, v)) == g.insert(ordered(u, v)));
    lemma_flip_changes_cliques(g, n, k, u, v);
}

/// The `k`-cliques through the pair `{u, v}` of the graph with that edge
/// set number exactly its `k`-cliques less those of the graph with the
/// edge taken away, whether or not `g` has the edge: they are counted on
/// the graph without it, among the common neighbours of `u` and `v`.
pub proof fn lemma_cliques_through_edge(g: Set<(int, int)>, n: int, k: nat, u: int, v: int)
    requires
        0 <= u < n,
        0 <= v < n,
        u != v,
        n <= 64,
    ensures
        graph_cliques(g.insert(ordered(u, v)), n, k) == graph_cliques(g.remove(ordered(u, v)), n, k) + cliques_through(
            graph_masks(g.remove(ordered(u, v)), n),
            k,
            u,
            v,
            true,
        ),
        cliques_through(graph_masks(g, n), k, u, v, true) == cliques_through(graph_masks(g.remove(ordered(u, v)), n), k, u, v, true),
{
    let p = ordered(u, v);
    assert(g.remove(p).insert(p) =~= g.insert(p));
    lemma_new_edge_cliques(g.remove(p), n, k, u, v);
    lemma_through_ignores_pair(g, n, k, u, v);
}

/// The cliques through `{u, v}`, counted as if the edge were there, are
/// the same whether or not the graph has it: they are read among the
/// common neighbours, whose rows the pair does not touch.
proof fn lemma_through_ignores_pair(g: Set<(int, int)>, n: int, k: nat, u: int, v: int)
    requires
        0 <= u < n,
        0 <= v < n,
        u != v,
        n <= 64,
    ensures
        cliques_through(graph_masks(g, n), k, u, v, true) == cliques_through(graph_masks(g.remove(ordered(u, v)), n), k, u, v, true),
{
    let p = ordered(u, v);
    let g0 = g.remove(p);
    if g.contains(p) {
        let m = graph_masks(g0, n);
        lemma_row_masks_exist(g0, n);
        lemma_graph_masks_simple(g0, n);
        crate::tree2::lemma_flip_masks(m, g0, n, u, v);
        assert(toggle(g0, p) =~= g);
        let mf = flipped_masks(m, u, v);
        assert(mf == graph_masks(g, n));
        lemma_flip_simple(m, n, u, v);
        let c = common_neighbors(m, u, v);
        lemma_common_bits(m, u, v);
        assert forall|x: int| #[trigger] bit64(c, x) implies m[x] == mf[x] by {
            assert(bit64(m[u], x));
            assert(0 <= x < n && x != u);
            assert(x != v);
        }
        lemma_count_reads_candidates(m, mf, c, (k - 2) as nat);
        if k >= 3 {
            assert(clique_count(mf, common_neighbors(mf, u, v), (k - 2) as nat) == clique_count(m, c, (k - 2) as nat));
        }
    } else {
        assert(g0 =~= g);
    }
}

} // verus!
