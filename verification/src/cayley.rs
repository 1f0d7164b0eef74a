//! Cayley graphs of `Z_p x Z_p`: the element `(i, j)` is vertex `p*i + j`,
//! and two vertices are adjacent when they differ by an element of a
//! connection set closed under negation.

use vstd::prelude::*;

use crate::adjacency::{AdjacencyMatrix, is_vertex_pair, size_fits};
use crate::circulant::mask_has;
use crate::circulant::MAX_POLISH_PER_ROUND;
use crate::clique::pow2;
use crate::guilty::pair_less;
use crate::polish::{
    all_valid, count_violations, four_clique_key, four_key, key_less, key_lt, lemma_kept_valid, polish_walk,
    violation_count,
};
use crate::search::{RawDiscovery, SearchResult, keep_new_discoveries, kept_new};
use crate::types::GraphCid;

verus! {

/// Exhaustive enumeration of Cayley graphs of `Z_p x Z_p`.
pub struct CayleySearch;

/// The prime `p` in `{2, 3, 5, 7}` with `p * p == n`, if any.
pub open spec fn small_prime_root(n: int) -> Option<u32> {
    if n == 4 {
        Some(2u32)
    } else if n == 9 {
        Some(3u32)
    } else if n == 25 {
        Some(5u32)
    } else if n == 49 {
        Some(7u32)
    } else {
        None
    }
}

/// The prime `p` in `{2, 3, 5, 7}` with `n = p * p`, if there is one.
pub fn prime_sqrt(n: u32) -> (r: Option<u32>)
    ensures
        r == small_prime_root(n as int),
{
    let primes: [u32; 4] = [2, 3, 5, 7];
    let mut i: usize = 0;
    while i < 4
        invariant
            i <= 4,
            primes@ == seq![2u32, 3u32, 5u32, 7u32],
            forall|j: int| 0 <= j < i ==> primes@[j] * primes@[j] != n,
        decreases 4 - i,
    {
        let p = primes[i];
        if p * p == n {
            return Some(p);
        }
        i = i + 1;
    }
    proof {
        assert(primes@[0] == 2u32 && primes@[1] == 3u32 && primes@[2] == 5u32 && primes@[3] == 7u32);
        let (p0, p1, p2, p3) = (primes@[0], primes@[1], primes@[2], primes@[3]);
        assert(p0 * p0 != n && p1 * p1 != n && p2 * p2 != n && p3 * p3 != n);
        assert(n != 4 && n != 9 && n != 25 && n != 49) by (nonlinear_arith)
            requires
                p0 == 2,
                p1 == 3,
                p2 == 5,
                p3 == 7,
                p0 * p0 != n,
                p1 * p1 != n,
                p2 * p2 != n,
                p3 * p3 != n,
        ;
    }
    None
}

/// `-a` modulo `p`, for `0 <= a < p`.
pub open spec fn neg_mod(p: int, a: int) -> int {
    if a == 0 {
        0
    } else {
        p - a
    }
}

/// `(a, b)` comes strictly before `(c, d)` in lexicographic order.
pub open spec fn lex_lt(a: int, b: int, c: int, d: int) -> bool {
    a < c || (a == c && b < d)
}

/// `(a, b)` is a nonzero element of `Z_p x Z_p` that is not after its
/// negation in lexicographic order: the representative of `{x, -x}`.
pub open spec fn is_pair_rep(p: int, a: int, b: int) -> bool {
    &&& 0 <= a < p
    &&& 0 <= b < p
    &&& !(a == 0 && b == 0)
    &&& !lex_lt(neg_mod(p, a), neg_mod(p, b), a, b)
}

/// Of every nonzero element and its negation exactly one is listed, unless
/// the two coincide.
pub proof fn lemma_pairs_cover(p: int, a: int, b: int)
    requires
        0 <= a < p,
        0 <= b < p,
        !(a == 0 && b == 0),
    ensures
        is_pair_rep(p, a, b) || is_pair_rep(p, neg_mod(p, a), neg_mod(p, b)),
        is_pair_rep(p, a, b) && is_pair_rep(p, neg_mod(p, a), neg_mod(p, b)) ==> a == neg_mod(p, a)
            && b == neg_mod(p, b),
{
}

/// Position of `(a, b)` in row-major order.
pub open spec fn elem_index(p: int, a: int, b: int) -> int {
    a * p + b
}

/// Row-major positions of distinct elements differ and stay below `p * p`.
proof fn lemma_elem_index(p: int, a: int, b: int, c: int, d: int)
    requires
        0 <= a < p,
        0 <= b < p,
        0 <= c < p,
        0 <= d < p,
    ensures
        0 <= elem_index(p, a, b) < p * p,
        elem_index(p, a, b) == elem_index(p, c, d) <==> (a == c && b == d),
        elem_index(p, a, b) / p == a,
        elem_index(p, a, b) % p == b,
{
    assert(0 <= a * p + b < p * p) by (nonlinear_arith)
        requires
            0 <= a < p,
            0 <= b < p,
    ;
    vstd::arithmetic::div_mod::lemma_fundamental_div_mod_converse(a * p + b, p, a, b);
    vstd::arithmetic::div_mod::lemma_fundamental_div_mod_converse(c * p + d, p, c, d);
}

/// The representatives of the pairs `{x, -x}` of nonzero elements of
/// `Z_p x Z_p`, in lexicographic order.
pub fn enumerate_pairs(p: u32) -> (r: Vec<(u32, u32)>)
    requires
        1 <= p <= 65535,
    ensures
        forall|i: int| 0 <= i < r@.len() ==> is_pair_rep(p as int, #[trigger] r@[i].0 as int, r@[i].1 as int),
        forall|i: int, j: int| 0 <= i < j < r@.len() ==> pair_less(#[trigger] r@[i], #[trigger] r@[j]),
        forall|a: u32, b: u32| #[trigger] r@.contains((a, b)) <==> is_pair_rep(p as int, a as int, b as int),
{
    assert(p * p <= 4294836225) by (nonlinear_arith)
        requires
            p <= 65535,
    ;
    let total = p * p;
    let mut seen: Vec<bool> = Vec::new();
    let mut k: u32 = 0;
    while k < total
        invariant
            k <= total,
            seen@.len() == k,
            forall|j: int| 0 <= j < k ==> !#[trigger] seen@[j],
        decreases total - k,
    {
        seen.push(false);
        k = k + 1;
    }
    let mut pairs: Vec<(u32, u32)> = Vec::new();
    let mut a: u32 = 0;
    proof {
        assert forall|x: int, y: int| 0 <= x < p && 0 <= y < p implies !#[trigger] seen@[elem_index(
            p as int,
            x,
            y,
        )] by {
            lemma_elem_index(p as int, x, y, 0, 0);
        }
    }
    while a < p
        invariant
            1 <= p <= 65535,
            total == p * p,
            a <= p,
            seen@.len() == total,
            forall|x: int, y: int|
                0 <= x < p && 0 <= y < p ==> (#[trigger] seen@[elem_index(p as int, x, y)] <==> (!(x == 0
                    && y == 0) && (lex_lt(x, y, a as int, 0) || lex_lt(
                    neg_mod(p as int, x),
                    neg_mod(p as int, y),
                    a as int,
                    0,
                )))),
            forall|i: int| 0 <= i < pairs@.len() ==> is_pair_rep(p as int, #[trigger] pairs@[i].0 as int, pairs@[i].1 as int)
                && pairs@[i].0 < a,
            forall|i: int, j: int| 0 <= i < j < pairs@.len() ==> pair_less(#[trigger] pairs@[i], #[trigger] pairs@[j]),
            forall|x: u32, y: u32| #[trigger] pairs@.contains((x, y)) <==> (is_pair_rep(p as int, x as int, y as int)
                && x < a),
        decreases p - a,
    {
        let mut b: u32 = 0;
        while b < p
            invariant
                1 <= p <= 65535,
                total == p * p,
                a < p,
                b <= p,
                seen@.len() == total,
                forall|x: int, y: int|
                    0 <= x < p && 0 <= y < p ==> (#[trigger] seen@[elem_index(p as int, x, y)] <==> (!(x
                        == 0 && y == 0) && (lex_lt(x, y, a as int, b as int) || lex_lt(
                        neg_mod(p as int, x),
                        neg_mod(p as int, y),
                        a as int,
                        b as int,
                    )))),
                forall|i: int| 0 <= i < pairs@.len() ==> is_pair_rep(p as int, #[trigger] pairs@[i].0 as int, pairs@[i].1 as int)
                    && lex_lt(pairs@[i].0 as int, pairs@[i].1 as int, a as int, b as int),
                forall|i: int, j: int| 0 <= i < j < pairs@.len() ==> pair_less(#[trigger] pairs@[i], #[trigger] pairs@[j]),
                forall|x: u32, y: u32| #[trigger] pairs@.contains((x, y)) <==> (is_pair_rep(p as int, x as int, y as int)
                    && lex_lt(x as int, y as int, a as int, b as int)),
            decreases p - b,
        {
            let ghost seen0 = seen@;
            let ghost pairs0 = pairs@;
            if !(a == 0 && b == 0) {
                proof {
                    lemma_elem_index(p as int, a as int, b as int, 0, 0);
                }
                let idx = (a * p + b) as usize;
                if !seen[idx] {
                    let inv_a = if a == 0 {
                        0
                    } else {
                        p - a
                    };
                    let inv_b = if b == 0 {
                        0
                    } else {
                        p - b
                    };
                    proof {
                        lemma_elem_index(p as int, inv_a as int, inv_b as int, 0, 0);
                    }
                    let inv_idx = (inv_a * p + inv_b) as usize;
                    seen.set(idx, true);
                    seen.set(inv_idx, true);
                    pairs.push((a, b));
                    proof {
                        assert(is_pair_rep(p as int, a as int, b as int));
                        assert forall|x: int, y: int| 0 <= x < p && 0 <= y < p implies (#[trigger] seen@[elem_index(
                            p as int,
                            x,
                            y,
                        )] <==> (!(x == 0 && y == 0) && (lex_lt(x, y, a as int, b + 1) || lex_lt(
                            neg_mod(p as int, x),
                            neg_mod(p as int, y),
                            a as int,
                            b + 1,
                        )))) by {
                            lemma_elem_index(p as int, x, y, a as int, b as int);
                            lemma_elem_index(p as int, x, y, inv_a as int, inv_b as int);
                        }
                        assert forall|x: u32, y: u32| #[trigger] pairs@.contains((x, y)) <==> (is_pair_rep(
                            p as int,
                            x as int,
                            y as int,
                        ) && lex_lt(x as int, y as int, a as int, b + 1)) by {
                            if pairs@.contains((x, y)) && (x, y) != (a, b) {
                                let i = choose|i: int| 0 <= i < pairs@.len() && pairs@[i] == (x, y);
                                assert(pairs0[i] == (x, y));
                                assert(pairs0.contains((x, y)));
                            }
                            if is_pair_rep(p as int, x as int, y as int) && lex_lt(x as int, y as int, a as int, b + 1)
                                && (x, y) != (a, b) {
                                assert(pairs0.contains((x, y)));
                                let i = choose|i: int| 0 <= i < pairs0.len() && pairs0[i] == (x, y);
                                assert(pairs@[i] == (x, y));
                            }
                            if (x, y) == (a, b) {
                                assert(pairs@[pairs0.len() as int] == (a, b));
                            }
                        }
                    }
                } else {
                    proof {
                        assert(seen0[elem_index(p as int, a as int, b as int)]);
                        assert(!is_pair_rep(p as int, a as int, b as int));
                        assert forall|x: u32, y: u32| #[trigger] pairs@.contains((x, y)) <==> (is_pair_rep(
                            p as int,
                            x as int,
                            y as int,
                        ) && lex_lt(x as int, y as int, a as int, b + 1)) by {}
                        assert forall|x: int, y: int| 0 <= x < p && 0 <= y < p implies (#[trigger] seen@[elem_index(
                            p as int,
                            x,
                            y,
                        )] <==> (!(x == 0 && y == 0) && (lex_lt(x, y, a as int, b + 1) || lex_lt(
                            neg_mod(p as int, x),
                            neg_mod(p as int, y),
                            a as int,
                            b + 1,
                        )))) by {
                            if x == a && y == b {
                            }
                        }
                    }
                }
            } else {
                proof {
                    assert forall|x: u32, y: u32| #[trigger] pairs@.contains((x, y)) <==> (is_pair_rep(
                        p as int,
                        x as int,
                        y as int,
                    ) && lex_lt(x as int, y as int, a as int, b + 1)) by {}
                }
            }
            b = b + 1;
        }
        a = a + 1;
    }
    pairs
}

/// `-d` for an element `d` of `Z_p x Z_p`.
pub open spec fn neg_elem(p: int, d: (u32, u32)) -> (int, int) {
    (neg_mod(p, d.0 as int), neg_mod(p, d.1 as int))
}

/// The vertex reached from vertex `x` by adding the element `(da, db)`.
pub open spec fn shift(p: int, x: int, da: int, db: int) -> int {
    ((x / p + da) % p) * p + (x % p + db) % p
}

/// The Cayley graph of `Z_p x Z_p` whose connection set holds
/// `pairs[k]` and its negation for every set bit `k` of `mask`.
pub open spec fn cayley_edges(p: int, pairs: Seq<(u32, u32)>, mask: u32) -> Set<(int, int)> {
    Set::new(
        |e: (int, int)|
            is_vertex_pair(p * p, e) && exists|k: int|
                0 <= k < pairs.len() && #[trigger] mask_has(mask, k) && (shift(p, e.0, pairs[k].0 as int, pairs[k].1 as int)
                    == e.1 || shift(p, e.0, neg_elem(p, pairs[k]).0, neg_elem(p, pairs[k]).1) == e.1),
    )
}

/// `d` is in the connection set chosen by the bits of `mask` below `upto`.
pub open spec fn in_connection(p: int, pairs: Seq<(u32, u32)>, mask: u32, upto: int, d: (u32, u32)) -> bool {
    exists|k: int|
        0 <= k < upto && #[trigger] mask_has(mask, k) && (d == pairs[k] || (d.0 as int, d.1 as int) == neg_elem(
            p,
            pairs[k],
        ))
}

/// The edges added for the vertices before `(i, j)`, and for `(i, j)` the
/// connection elements before position `t`.
pub open spec fn cayley_prefix(p: int, conn: Seq<(u32, u32)>, i: int, j: int, t: int) -> Set<(int, int)> {
    Set::new(
        |e: (int, int)|
            exists|x: int, y: int, c: int|
                #![trigger conn[c], elem_index(p, x, y)]
                0 <= x < p && 0 <= y < p && 0 <= c < conn.len() && (lex_lt(x, y, i, j) || (x == i && y == j
                    && c < t)) && e.0 == elem_index(p, x, y) && e.1 == elem_index(
                    p,
                    (x + conn[c].0) % p,
                    (y + conn[c].1) % p,
                ) && e.0 < e.1,
    )
}

/// The Cayley graph of `Z_p x Z_p` with connection set `{d, -d}` for each
/// `pairs[bit]` whose bit is set in `mask`.
pub fn build_cayley(p: u32, pairs: &[(u32, u32)], mask: u32) -> (g: AdjacencyMatrix)
    requires
        1 <= p <= 255,
        size_fits(p * p),
        pairs@.len() <= 32,
        forall|k: int| 0 <= k < pairs@.len() ==> #[trigger] pairs@[k].0 < p && pairs@[k].1 < p,
    ensures
        g.wf(),
        g.order() == p * p,
        g@ == cayley_edges(p as int, pairs@, mask),
{
    assert(p * p <= 65025) by (nonlinear_arith)
        requires
            p <= 255,
    ;
    let n = p * p;
    let mut g = AdjacencyMatrix::new(n);
    let mut conn: Vec<(u32, u32)> = Vec::new();
    let mut bit: usize = 0;
    while bit < pairs.len()
        invariant
            bit <= pairs@.len(),
            pairs@.len() <= 32,
            1 <= p <= 255,
            forall|k: int| 0 <= k < pairs@.len() ==> #[trigger] pairs@[k].0 < p && pairs@[k].1 < p,
            forall|c: int| 0 <= c < conn@.len() ==> #[trigger] conn@[c].0 < p && conn@[c].1 < p,
            forall|d: (u32, u32)| #[trigger] conn@.contains(d) <==> in_connection(p as int, pairs@, mask, bit as int, d),
        decreases pairs@.len() - bit,
    {
        let (a, b) = pairs[bit];
        let ghost conn0 = conn@;
        if (mask >> (bit as u32)) & 1 == 1 {
            conn.push((a, b));
            let inv_a = if a == 0 {
                0
            } else {
                p - a
            };
            let inv_b = if b == 0 {
                0
            } else {
                p - b
            };
            if !(inv_a == a && inv_b == b) {
                conn.push((inv_a, inv_b));
            }
            proof {
                assert(mask_has(mask, bit as int));
                assert forall|d: (u32, u32)| #[trigger] conn@.contains(d) <==> in_connection(
                    p as int,
                    pairs@,
                    mask,
                    bit + 1,
                    d,
                ) by {
                    if conn@.contains(d) {
                        let c = choose|c: int| 0 <= c < conn@.len() && conn@[c] == d;
                        if c < conn0.len() {
                            assert(conn0[c] == d);
                            assert(conn0.contains(d));
                        }
                    }
                    if in_connection(p as int, pairs@, mask, bit + 1, d) {
                        let k = choose|k: int|
                            0 <= k < bit + 1 && #[trigger] mask_has(mask, k) && (d == pairs@[k] || (d.0 as int,
                                d.1 as int) == neg_elem(p as int, pairs@[k]));
                        if k < bit {
                            assert(in_connection(p as int, pairs@, mask, bit as int, d));
                            assert(conn0.contains(d));
                            let c = choose|c: int| 0 <= c < conn0.len() && conn0[c] == d;
                            assert(conn@[c] == d);
                        } else if d == pairs@[k] {
                            assert(conn@[conn0.len() as int] == d);
                        } else if inv_a == a && inv_b == b {
                            assert(conn@[conn0.len() as int] == d);
                        } else {
                            assert(conn@[(conn0.len() + 1) as int] == d);
                        }
                    }
                }
            }
        } else {
            proof {
                assert forall|d: (u32, u32)| #[trigger] conn@.contains(d) <==> in_connection(
                    p as int,
                    pairs@,
                    mask,
                    bit + 1,
                    d,
                ) by {
                    if in_connection(p as int, pairs@, mask, bit + 1, d) {
                        let k = choose|k: int|
                            0 <= k < bit + 1 && #[trigger] mask_has(mask, k) && (d == pairs@[k] || (d.0 as int,
                                d.1 as int) == neg_elem(p as int, pairs@[k]));
                        assert(k < bit);
                    }
                }
            }
        }
        bit = bit + 1;
    }
    let mut i: u32 = 0;
    assert(g@ =~= cayley_prefix(p as int, conn@, 0, 0, 0));
    while i < p
        invariant
            1 <= p <= 255,
            n == p * p,
            i <= p,
            g.wf(),
            g.order() == n,
            forall|c: int| 0 <= c < conn@.len() ==> #[trigger] conn@[c].0 < p && conn@[c].1 < p,
            g@ == cayley_prefix(p as int, conn@, i as int, 0, 0),
        decreases p - i,
    {
        let mut j: u32 = 0;
        while j < p
            invariant
                1 <= p <= 255,
                n == p * p,
                i < p,
                j <= p,
                g.wf(),
                g.order() == n,
                forall|c: int| 0 <= c < conn@.len() ==> #[trigger] conn@[c].0 < p && conn@[c].1 < p,
                g@ == cayley_prefix(p as int, conn@, i as int, j as int, 0),
            decreases p - j,
        {
            proof {
                lemma_elem_index(p as int, i as int, j as int, 0, 0);
            }
            let u = i * p + j;
            let mut t: usize = 0;
            while t < conn.len()
                invariant
                    1 <= p <= 255,
                    n == p * p,
                    i < p,
                    j < p,
                    u == elem_index(p as int, i as int, j as int),
                    u < n,
                    t <= conn@.len(),
                    g.wf(),
                    g.order() == n,
                    forall|c: int| 0 <= c < conn@.len() ==> #[trigger] conn@[c].0 < p && conn@[c].1 < p,
                    g@ == cayley_prefix(p as int, conn@, i as int, j as int, t as int),
                decreases conn@.len() - t,
            {
                let (da, db) = conn[t];
                let ni = (i + da) % p;
                let nj = (j + db) % p;
                proof {
                    lemma_elem_index(p as int, ni as int, nj as int, 0, 0);
                }
                let v = ni * p + nj;
                let ghost g0 = g@;
                if u < v {
                    g.set_edge(u, v, true);
                }
                proof {
                    assert(conn@[t as int] == (da, db));
                    assert(g@ =~= cayley_prefix(p as int, conn@, i as int, j as int, t + 1)) by {
                        assert forall|e: (int, int)| #[trigger] cayley_prefix(
                            p as int,
                            conn@,
                            i as int,
                            j as int,
                            t + 1,
                        ).contains(e) implies g@.contains(e) by {
                            let (x, y, c) = choose|x: int, y: int, c: int|
                                #![trigger conn@[c], elem_index(p as int, x, y)]
                                0 <= x < p && 0 <= y < p && 0 <= c < conn@.len() && (lex_lt(x, y, i as int, j as int)
                                    || (x == i && y == j && c < t + 1)) && e.0 == elem_index(p as int, x, y) && e.1
                                    == elem_index(p as int, (x + conn@[c].0) % (p as int), (y + conn@[c].1) % (p as int))
                                    && e.0 < e.1;
                            if !(x == i && y == j && c == t) {
                                assert(g0.contains(e));
                            }
                        }
                    }
                }
                t = t + 1;
            }
            proof {
                assert(g@ =~= cayley_prefix(p as int, conn@, i as int, j + 1, 0)) by {
                    assert forall|e: (int, int)| #[trigger] cayley_prefix(p as int, conn@, i as int, j + 1, 0).contains(
                        e,
                    ) implies g@.contains(e) by {
                        let (x, y, c) = choose|x: int, y: int, c: int|
                            #![trigger conn@[c], elem_index(p as int, x, y)]
                            0 <= x < p && 0 <= y < p && 0 <= c < conn@.len() && (lex_lt(x, y, i as int, j + 1) || (x
                                == i && y == j + 1 && c < 0)) && e.0 == elem_index(p as int, x, y) && e.1 == elem_index(
                                p as int,
                                (x + conn@[c].0) % (p as int),
                                (y + conn@[c].1) % (p as int),
                            ) && e.0 < e.1;
                        assert(cayley_prefix(p as int, conn@, i as int, j as int, conn@.len() as int).contains(e));
                    }
                }
            }
            j = j + 1;
        }
        proof {
            assert(g@ =~= cayley_prefix(p as int, conn@, i + 1, 0, 0)) by {
                assert forall|e: (int, int)| #[trigger] cayley_prefix(p as int, conn@, i + 1, 0, 0).contains(e) implies g@.contains(
                    e,
                ) by {
                    let (x, y, c) = choose|x: int, y: int, c: int|
                        #![trigger conn@[c], elem_index(p as int, x, y)]
                        0 <= x < p && 0 <= y < p && 0 <= c < conn@.len() && (lex_lt(x, y, i + 1, 0) || (x == i + 1
                            && y == 0 && c < 0)) && e.0 == elem_index(p as int, x, y) && e.1 == elem_index(
                            p as int,
                            (x + conn@[c].0) % (p as int),
                            (y + conn@[c].1) % (p as int),
                        ) && e.0 < e.1;
                    assert(cayley_prefix(p as int, conn@, i as int, p as int, 0).contains(e));
                }
            }
        }
        i = i + 1;
    }
    proof {
        lemma_cayley_prefix_full(p as int, pairs@, mask, conn@);
    }
    g
}

/// Once every vertex is processed, the added edges are the Cayley graph's.
proof fn lemma_cayley_prefix_full(p: int, pairs: Seq<(u32, u32)>, mask: u32, conn: Seq<(u32, u32)>)
    requires
        1 <= p <= 255,
        forall|k: int| 0 <= k < pairs.len() ==> #[trigger] pairs[k].0 < p && pairs[k].1 < p,
        forall|c: int| 0 <= c < conn.len() ==> #[trigger] conn[c].0 < p && conn[c].1 < p,
        forall|d: (u32, u32)| #[trigger] conn.contains(d) <==> in_connection(p, pairs, mask, pairs.len() as int, d),
    ensures
        cayley_prefix(p, conn, p, 0, 0) == cayley_edges(p, pairs, mask),
{
    assert forall|e: (int, int)| #[trigger] cayley_prefix(p, conn, p, 0, 0).contains(e) implies cayley_edges(
        p,
        pairs,
        mask,
    ).contains(e) by {
        let (x, y, c) = choose|x: int, y: int, c: int|
            #![trigger conn[c], elem_index(p, x, y)]
            0 <= x < p && 0 <= y < p && 0 <= c < conn.len() && (lex_lt(x, y, p, 0) || (x == p && y == 0 && c
                < 0)) && e.0 == elem_index(p, x, y) && e.1 == elem_index(p, (x + conn[c].0) % p, (y + conn[c].1)
                % p) && e.0 < e.1;
        lemma_elem_index(p, x, y, 0, 0);
        lemma_elem_index(p, (x + conn[c].0) % p, (y + conn[c].1) % p, 0, 0);
        assert(conn.contains(conn[c]));
        let k = choose|k: int|
            0 <= k < pairs.len() && #[trigger] mask_has(mask, k) && (conn[c] == pairs[k] || (conn[c].0 as int,
                conn[c].1 as int) == neg_elem(p, pairs[k]));
        assert(shift(p, e.0, conn[c].0 as int, conn[c].1 as int) == e.1);
        assert(is_vertex_pair(p * p, e));
    }
    assert forall|e: (int, int)| #[trigger] cayley_edges(p, pairs, mask).contains(e) implies cayley_prefix(
        p,
        conn,
        p,
        0,
        0,
    ).contains(e) by {
        let k = choose|k: int|
            0 <= k < pairs.len() && #[trigger] mask_has(mask, k) && (shift(p, e.0, pairs[k].0 as int, pairs[k].1 as int)
                == e.1 || shift(p, e.0, neg_elem(p, pairs[k]).0, neg_elem(p, pairs[k]).1) == e.1);
        let x = e.0 / p;
        let y = e.0 % p;
        vstd::arithmetic::div_mod::lemma_fundamental_div_mod(e.0, p);
        assert(0 <= x < p) by (nonlinear_arith)
            requires
                0 <= e.0 < p * p,
                p >= 1,
                x == e.0 / p,
        ;
        assert(e.0 == elem_index(p, x, y)) by (nonlinear_arith)
            requires
                e.0 == p * (e.0 / p) + e.0 % p,
                x == e.0 / p,
                y == e.0 % p,
        ;
        let d = if shift(p, e.0, pairs[k].0 as int, pairs[k].1 as int) == e.1 {
            pairs[k]
        } else {
            (neg_elem(p, pairs[k]).0 as u32, neg_elem(p, pairs[k]).1 as u32)
        };
        assert(in_connection(p, pairs, mask, pairs.len() as int, d));
        assert(conn.contains(d));
        let c = choose|c: int| 0 <= c < conn.len() && conn[c] == d;
        assert(e.1 == elem_index(p, (x + conn[c].0) % p, (y + conn[c].1) % p));
    }
    assert(cayley_prefix(p, conn, p, 0, 0) =~= cayley_edges(p, pairs, mask));
}

/// Strictly increasing, and holding exactly the representatives of the
/// nonzero elements of `Z_p x Z_p` up to sign.
pub open spec fn sorted_reps(p: int, s: Seq<(u32, u32)>) -> bool {
    &&& forall|i: int, j: int| 0 <= i < j < s.len() ==> pair_less(#[trigger] s[i], #[trigger] s[j])
    &&& forall|a: u32, b: u32| #[trigger] s.contains((a, b)) <==> is_pair_rep(p, a as int, b as int)
}

/// The representatives in increasing order, as `enumerate_pairs` lists
/// them.
pub open spec fn pair_reps(p: int) -> Seq<(u32, u32)> {
    choose|s: Seq<(u32, u32)>| sorted_reps(p, s)
}

/// Two strictly increasing sequences with the same elements are equal.
proof fn lemma_sorted_unique(s: Seq<(u32, u32)>, t: Seq<(u32, u32)>)
    requires
        forall|i: int, j: int| 0 <= i < j < s.len() ==> pair_less(#[trigger] s[i], #[trigger] s[j]),
        forall|i: int, j: int| 0 <= i < j < t.len() ==> pair_less(#[trigger] t[i], #[trigger] t[j]),
        forall|x: (u32, u32)| s.contains(x) == t.contains(x),
    ensures
        s == t,
    decreases s.len(),
{
    if s.len() == 0 {
        if t.len() > 0 {
            assert(t.contains(t[0]));
        }
        assert(s =~= t);
    } else {
        assert(s.contains(s[0]));
        let j = choose|j: int| 0 <= j < t.len() && t[j] == s[0];
        assert(t.contains(t[0]));
        let i = choose|i: int| 0 <= i < s.len() && s[i] == t[0];
        if j > 0 {
            assert(pair_less(t[0], t[j]));
            if i > 0 {
                assert(pair_less(s[0], s[i]));
            }
            assert(false);
        }
        let s2 = s.drop_first();
        let t2 = t.drop_first();
        assert forall|x: (u32, u32)| s2.contains(x) == t2.contains(x) by {
            if s2.contains(x) {
                let a = choose|a: int| 0 <= a < s2.len() && s2[a] == x;
                assert(s[a + 1] == x);
                assert(pair_less(s[0], s[a + 1]));
                assert(t.contains(x));
                let b = choose|b: int| 0 <= b < t.len() && t[b] == x;
                assert(b != 0);
                assert(t2[b - 1] == x);
            }
            if t2.contains(x) {
                let a = choose|a: int| 0 <= a < t2.len() && t2[a] == x;
                assert(t[a + 1] == x);
                assert(pair_less(t[0], t[a + 1]));
                assert(s.contains(x));
                let b = choose|b: int| 0 <= b < s.len() && s[b] == x;
                assert(b != 0);
                assert(s2[b - 1] == x);
            }
        }
        assert forall|a: int, b: int| 0 <= a < b < s2.len() implies pair_less(#[trigger] s2[a], #[trigger] s2[b]) by {
            assert(pair_less(s[a + 1], s[b + 1]));
        }
        assert forall|a: int, b: int| 0 <= a < b < t2.len() implies pair_less(#[trigger] t2[a], #[trigger] t2[b]) by {
            assert(pair_less(t[a + 1], t[b + 1]));
        }
        lemma_sorted_unique(s2, t2);
        assert(s[0] == t[0]);
        assert(s.len() == t.len());
        assert forall|a: int| 0 <= a < s.len() implies s[a] == t[a] by {
            if a > 0 {
                assert(s[a] == s2[a - 1]);
                assert(t[a] == t2[a - 1]);
            }
        }
        assert(s =~= t);
    }
}

/// A sorted list of the representatives is `pair_reps(p)`.
pub proof fn lemma_pair_reps(p: int, s: Seq<(u32, u32)>)
    requires
        sorted_reps(p, s),
    ensures
        pair_reps(p) == s,
{
    let t = pair_reps(p);
    assert(sorted_reps(p, t));
    assert forall|x: (u32, u32)| s.contains(x) == t.contains(x) by {
        assert(s.contains((x.0, x.1)) == t.contains((x.0, x.1)));
    }
    lemma_sorted_unique(s, t);
}

/// Most pairs for which all connection sets are enumerated.
pub const MAX_EXHAUSTIVE_PAIRS: u32 = 20;

/// The Cayley search enumerates: `n` is `p^2` for one of the small primes,
/// the enumeration was not done before, and there are at most twenty
/// pairs.
pub open spec fn cayley_enumerates(n: u32, already_enumerated: bool) -> bool {
    &&& !already_enumerated
    &&& small_prime_root(n as int) is Some
    &&& pair_reps(small_prime_root(n as int)->Some_0 as int).len() <= MAX_EXHAUSTIVE_PAIRS
}

/// The Cayley graph of `mask` has no `k`-clique and its complement no
/// `ell`-clique.
pub open spec fn cayley_valid(p: int, pairs: Seq<(u32, u32)>, mask: u32, k: nat, ell: nat) -> bool {
    violation_count(cayley_edges(p, pairs, mask), p * p, k, ell) == 0
}

/// Every valid Cayley graph of a mask below `upto` is among the
/// discoveries, reported with its mask as the iteration.
pub open spec fn cayley_masks_reported(
    d: Seq<RawDiscovery>,
    p: int,
    pairs: Seq<(u32, u32)>,
    k: nat,
    ell: nat,
    upto: int,
) -> bool {
    forall|mask: u32|
        mask < upto && #[trigger] cayley_valid(p, pairs, mask, k, ell) ==> exists|i: int|
            0 <= i < d.len() && #[trigger] d[i].graph@ == cayley_edges(p, pairs, mask) && d[i].iteration == mask
}

impl CayleySearch {
    /// Enumerate all Cayley graphs of `Z_p x Z_p`, `n = p^2`, one per set of
    /// pair representatives. Each one with no `k`-clique whose complement
    /// has no `ell`-clique is reported, with its mask as the iteration, and
    /// the first fifty are polished, every graph of the polish walk being
    /// reported too. The best graph is the valid one, found or polished,
    /// with the lowest `(max, min)` 4-clique counts. Nothing is searched when
    /// `n` is not the square of a small prime, when the enumeration was done
    /// in an earlier round, or when there are more than twenty pairs. The
    /// flag handed back says that the enumeration is complete. Of the
    /// graphs found, only those whose CID (`cid_of`, meant to name the
    /// isomorphism class) is not among `known_cids` nor that of an earlier
    /// one are handed back.
    pub fn search<F: Fn(&AdjacencyMatrix) -> GraphCid>(
        &self,
        n: u32,
        k: u32,
        ell: u32,
        polish_max_steps: u32,
        polish_tabu_tenure: u32,
        already_enumerated: bool,
        known_cids: Vec<GraphCid>,
        cid_of: F,
    ) -> (r: (SearchResult, bool))
        requires
            polish_max_steps + polish_tabu_tenure <= u32::MAX,
            forall|g: &AdjacencyMatrix| g.wf() ==> #[trigger] cid_of.requires((g,)),
        ensures
            r.1,
            !cayley_enumerates(n, already_enumerated) ==> r.0.iterations_used == 0 && !r.0.valid
                && r.0.discoveries@.len() == 0,
            cayley_enumerates(n, already_enumerated) ==> ({
                let p = small_prime_root(n as int)->Some_0 as int;
                let pairs = pair_reps(p);
                &&& r.0.iterations_used == pow2(pairs.len())
                &&& (r.0.valid <==> exists|mask: u32|
                    mask < pow2(pairs.len()) && #[trigger] cayley_valid(p, pairs, mask, k as nat, ell as nat))
                &&& exists|found: Seq<RawDiscovery>, known1: Seq<GraphCid>, c: Seq<GraphCid>, pos: Seq<int>|
                    #[trigger] kept_new(cid_of, found, known_cids@, known1, r.0.discoveries@, c, pos)
                        && cayley_masks_reported(found, p, pairs, k as nat, ell as nat, pow2(pairs.len()) as int)
                        && all_valid(found, n as int, k as nat, ell as nat)
                &&& r.0.best_graph matches Some(g) ==> forall|mask: u32|
                    mask < pow2(pairs.len()) && #[trigger] cayley_valid(p, pairs, mask, k as nat, ell as nat)
                        ==> !key_less(four_key(cayley_edges(p, pairs, mask), n as int), four_key(g@, n as int))
            }),
            r.0.valid <==> r.0.best_graph is Some,
            r.0.best_graph matches Some(g) ==> g.wf() && g.order() == n && violation_count(
                g@,
                n as int,
                k as nat,
                ell as nat,
            ) == 0,
            all_valid(r.0.discoveries@, n as int, k as nat, ell as nat),
    {
        let nothing = SearchResult { best_graph: None, valid: false, iterations_used: 0, discoveries: Vec::new() };
        let p = match prime_sqrt(n) {
            Some(p) => p,
            None => {
                return (nothing, true);
            },
        };
        if already_enumerated {
            return (nothing, true);
        }
        let pairs = enumerate_pairs(p);
        proof {
            lemma_pair_reps(p as int, pairs@);
        }
        if pairs.len() > MAX_EXHAUSTIVE_PAIRS as usize {
            return (nothing, true);
        }
        let num_pairs = pairs.len() as u32;
        let ghost pseq = pairs@;
        let mut total: u32 = 1;
        let mut i: u32 = 0;
        while i < num_pairs
            invariant
                i <= num_pairs,
                num_pairs <= 20,
                total == pow2(i as nat),
                total <= 0x10_0000,
            decreases num_pairs - i,
        {
            proof {
                crate::clique::lemma_pow2_mono(i as nat, 19);
                assert(pow2(19) == 0x8_0000) by {
                    reveal_with_fuel(pow2, 20);
                }
            }
            total = total * 2;
            i = i + 1;
        }
        assert(p * p == n);
        assert(4 <= n <= 49);
        assert(n * (n - 1) <= 49 * 48) by (nonlinear_arith)
            requires
                n <= 49,
        ;
        assert(size_fits(n as int));
        let mut discoveries: Vec<RawDiscovery> = Vec::new();
        let mut best_valid: Option<AdjacencyMatrix> = None;
        let mut best_key: (u64, u64) = (0, 0);
        let mut polish_calls: u32 = 0;
        let mut mask: u32 = 0;
        while mask < total
            invariant
                mask <= total,
                total == pow2(pseq.len()),
                pseq == pairs@,
                pseq == pair_reps(p as int),
                pseq.len() <= 20,
                2 <= p <= 7,
                n == p * p,
                4 <= n <= 49,
                size_fits(n as int),
                forall|c: int| 0 <= c < pseq.len() ==> is_pair_rep(p as int, #[trigger] pseq[c].0 as int, pseq[c].1 as int),
                polish_max_steps + polish_tabu_tenure <= u32::MAX,
                polish_calls <= MAX_POLISH_PER_ROUND,
                all_valid(discoveries@, n as int, k as nat, ell as nat),
                cayley_masks_reported(discoveries@, p as int, pseq, k as nat, ell as nat, mask as int),
                best_valid is Some <==> exists|m: u32|
                    m < mask && #[trigger] cayley_valid(p as int, pseq, m, k as nat, ell as nat),
                best_valid matches Some(g) ==> g.wf() && g.order() == n && violation_count(
                    g@,
                    n as int,
                    k as nat,
                    ell as nat,
                ) == 0 && best_key == four_key(g@, n as int),
                forall|m: u32|
                    m < mask && #[trigger] cayley_valid(p as int, pseq, m, k as nat, ell as nat) ==> !key_less(
                        four_key(cayley_edges(p as int, pseq, m), n as int),
                        best_key,
                    ),
            decreases total - mask,
        {
            assert forall|c: int| 0 <= c < pairs@.len() implies #[trigger] pairs@[c].0 < p && pairs@[c].1 < p by {
                assert(is_pair_rep(p as int, pseq[c].0 as int, pseq[c].1 as int));
            }
            let adj = build_cayley(p, pairs.as_slice(), mask);
            let violations = count_violations(&adj, k, ell);
            let ghost before = discoveries@;
            if violations == 0 {
                assert(cayley_valid(p as int, pseq, mask, k as nat, ell as nat));
                let key = four_clique_key(&adj);
                discoveries.push(RawDiscovery { graph: adj.copy_of(), iteration: mask as u64 });
                proof {
                    let d = discoveries@;
                    assert(d[d.len() - 1].graph@ == cayley_edges(p as int, pseq, mask));
                    assert forall|m: u32|
                        m < mask + 1 && #[trigger] cayley_valid(p as int, pseq, m, k as nat, ell as nat) implies exists|j: int|
                            0 <= j < d.len() && #[trigger] d[j].graph@ == cayley_edges(p as int, pseq, m)
                                && d[j].iteration == m by {
                        if m < mask {
                            let j = choose|j: int|
                                0 <= j < before.len() && #[trigger] before[j].graph@ == cayley_edges(p as int, pseq, m)
                                    && before[j].iteration == m;
                            assert(d[j] == before[j]);
                        } else {
                            assert(d[d.len() - 1].graph@ == cayley_edges(p as int, pseq, m));
                        }
                    }
                }
                let better = match &best_valid {
                    Some(_) => key_lt(key, best_key),
                    None => true,
                };
                if better {
                    best_valid = Some(adj.copy_of());
                    best_key = key;
                }
                if polish_max_steps > 0 && polish_calls < MAX_POLISH_PER_ROUND {
                    polish_calls = polish_calls + 1;
                    let ghost before_polish = discoveries@;
                    let polished = polish_walk(
                        &adj,
                        k,
                        ell,
                        polish_max_steps,
                        polish_tabu_tenure,
                        &mut discoveries,
                        mask as u64,
                    );
                    proof {
                        let d = discoveries@;
                        assert forall|j: int| 0 <= j < d.len() implies (#[trigger] d[j]).graph.wf() && d[j].graph.order()
                            == n && violation_count(d[j].graph@, n as int, k as nat, ell as nat) == 0 by {
                            if j < before_polish.len() {
                                assert(d[j] == before_polish[j]);
                            }
                        }
                        assert forall|m: u32|
                            m < mask + 1 && #[trigger] cayley_valid(p as int, pseq, m, k as nat, ell as nat) implies exists|j: int|
                                0 <= j < d.len() && #[trigger] d[j].graph@ == cayley_edges(p as int, pseq, m)
                                    && d[j].iteration == m by {
                            let j = choose|j: int|
                                0 <= j < before_polish.len() && #[trigger] before_polish[j].graph@ == cayley_edges(
                                    p as int,
                                    pseq,
                                    m,
                                ) && before_polish[j].iteration == m;
                            assert(d[j] == before_polish[j]);
                        }
                    }
                    if let Some(pg) = polished {
                        let pkey = four_clique_key(&pg);
                        if key_lt(pkey, best_key) {
                            best_valid = Some(pg);
                            best_key = pkey;
                        }
                    }
                }
            } else {
                proof {
                    assert(!cayley_valid(p as int, pseq, mask, k as nat, ell as nat));
                }
            }
            mask = mask + 1;
        }
        let mut known = known_cids;
        let kept = keep_new_discoveries(&discoveries, &mut known, &cid_of);
        proof {
            let (c, pos) = choose|c: Seq<GraphCid>, pos: Seq<int>|
                #[trigger] kept_new(cid_of, discoveries@, known_cids@, known@, kept@, c, pos);
            lemma_kept_valid(cid_of, discoveries@, known_cids@, known@, kept@, c, pos, n as int, k as nat, ell as nat);
        }
        let valid = best_valid.is_some();
        let ghost kept_view = kept@;
        let res = SearchResult { best_graph: best_valid, valid, iterations_used: total as u64, discoveries: kept };
        assert(res.discoveries@ == kept_view);
        (res, true)
    }
}

} // verus!
