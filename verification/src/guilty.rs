//! "Guilty" edges: the edges that lie in a monochromatic clique, found by
//! enumerating the cliques and marking their edges in per-vertex bit rows.

use vstd::prelude::*;

use crate::adjacency::lemma_bit_or;
use crate::bits::{bit64, count_ones64, drop_lowest, lemma_bit_ops, lemma_drop_lowest_bits, lemma_drop_lowest_smaller, lemma_popcount_ge_increasing};
use crate::clique::{NeighborSet, above, lemma_above_bits, lemma_fits_bits, lemma_one_shl_pos};

verus! {

/// `s` lists vertices of `0..n` in increasing order, each naming every later
/// one in its mask.
pub open spec fn is_clique_seq(masks: Seq<u64>, s: Seq<int>, n: int) -> bool {
    &&& forall|i: int| 0 <= i < s.len() ==> 0 <= #[trigger] s[i] < n
    &&& forall|i: int, j: int|
        #![trigger s[i], s[j]]
        0 <= i < j < s.len() ==> s[i] < s[j] && bit64(masks[s[i]], s[j])
}

/// The pairs `(a, b)`, `a < b`, that lie together in some `k`-clique on
/// `0..n` that starts with `prefix`.
pub open spec fn clique_pairs(masks: Seq<u64>, n: int, k: nat, prefix: Seq<int>) -> Set<(int, int)> {
    Set::new(
        |p: (int, int)|
            p.0 < p.1 && exists|s: Seq<int>|
                #[trigger] is_clique_seq(masks, s, n) && s.len() == k && prefix.is_prefix_of(s)
                    && s.contains(p.0) && s.contains(p.1),
    )
}

/// The edges `(a, b)`, `a < b < n`, that lie in a `k`-clique of the graph or
/// in an `ell`-clique of its complement.
pub open spec fn guilty_pairs(adj: Seq<u64>, comp: Seq<u64>, k: nat, ell: nat, n: int) -> Set<(int, int)> {
    clique_pairs(adj, n, k, Seq::empty()).union(clique_pairs(comp, n, ell, Seq::empty()))
}

/// The pairs `(a, b)`, `a < b`, recorded in the rows: bit `b` of row `a`.
pub open spec fn upper_marks(rows: Seq<u64>) -> Set<(int, int)> {
    Set::new(|p: (int, int)| 0 <= p.0 < p.1 && p.0 < rows.len() && bit64(rows[p.0], p.1))
}

/// A sequence of vertex numbers, widened.
pub open spec fn as_ints(v: Seq<u32>) -> Seq<int> {
    v.map_values(|x: u32| x as int)
}

/// `cand` holds exactly the vertices of `0..n` above the last of `prefix`
/// that every member of `prefix` names in its mask.
pub open spec fn extends_all(masks: Seq<u64>, prefix: Seq<int>, cand: u64, n: int) -> bool {
    forall|x: int|
        #[trigger] bit64(cand, x) <==> (x < n && prefix.last() < x && forall|i: int|
            0 <= i < prefix.len() ==> bit64(#[trigger] masks[prefix[i]], x))
}

/// The pairs of the cliques that extend `prefix` by a candidate below `lo`.
pub open spec fn done_pairs(masks: Seq<u64>, n: int, k: nat, prefix: Seq<int>, cand: u64, lo: int) -> Set<(int, int)> {
    Set::new(
        |p: (int, int)|
            exists|w: int|
                bit64(cand, w) && w < lo && #[trigger] clique_pairs(masks, n, k, prefix.push(w)).contains(p),
    )
}

/// The pairs `(s[a], s[b])`, `a < b`, with `a < i`, or `a == i` and `b < j`.
pub open spec fn index_pairs(s: Seq<int>, i: int, j: int) -> Set<(int, int)> {
    Set::new(
        |p: (int, int)|
            exists|a: int, b: int|
                #![trigger s[a], s[b]]
                0 <= a < b < s.len() && (a < i || (a == i && b < j)) && p == (s[a], s[b]),
    )
}

/// Setting bit `b` of row `a` records the pair `(a, b)` when `a < b`, and
/// nothing otherwise.
proof fn lemma_mark(rows: Seq<u64>, a: int, b: int)
    requires
        0 <= a < rows.len(),
        0 <= b < 64,
    ensures
        a < b ==> upper_marks(rows.update(a, rows[a] | (1u64 << (b as u64)))) == upper_marks(
            rows,
        ).insert((a, b)),
        b <= a ==> upper_marks(rows.update(a, rows[a] | (1u64 << (b as u64)))) == upper_marks(rows),
{
    let r2 = rows.update(a, rows[a] | (1u64 << (b as u64)));
    assert forall|p: (int, int)| #[trigger] upper_marks(r2).contains(p) == (upper_marks(rows).contains(p)
        || (a < b && p == (a, b))) by {
        if 0 <= p.1 < 64 {
            lemma_bit_or(rows[a], b, p.1);
        }
    }
    if a < b {
        assert(upper_marks(r2) =~= upper_marks(rows).insert((a, b)));
    } else {
        assert(upper_marks(r2) =~= upper_marks(rows));
    }
}

/// Or-ing a word into row `a` records `(a, b)` for its bits `b > a`.
proof fn lemma_mark_row(rows: Seq<u64>, a: int, m: u64)
    requires
        0 <= a < rows.len(),
    ensures
        upper_marks(rows.update(a, rows[a] | m)) == upper_marks(rows).union(
            Set::new(|p: (int, int)| p.0 == a && a < p.1 && bit64(m, p.1)),
        ),
{
    lemma_bit_ops(rows[a], m);
    let r2 = rows.update(a, rows[a] | m);
    assert(upper_marks(r2) =~= upper_marks(rows).union(
        Set::new(|p: (int, int)| p.0 == a && a < p.1 && bit64(m, p.1)),
    ));
}

/// Two members of a sequence that differ make it at least two long.
proof fn lemma_two_members(s: Seq<int>, a: int, b: int)
    requires
        s.contains(a),
        s.contains(b),
        a != b,
    ensures
        s.len() >= 2,
{
    let i = choose|i: int| 0 <= i < s.len() && s[i] == a;
    let j = choose|j: int| 0 <= j < s.len() && s[j] == b;
    assert(i != j);
}

/// Cliques of fewer than two vertices hold no pair.
proof fn lemma_pairs_small(masks: Seq<u64>, n: int, k: nat)
    requires
        k < 2,
    ensures
        clique_pairs(masks, n, k, Seq::empty()) == Set::<(int, int)>::empty(),
{
    assert forall|p: (int, int)| !clique_pairs(masks, n, k, Seq::empty()).contains(p) by {
        if clique_pairs(masks, n, k, Seq::empty()).contains(p) {
            let s = choose|s: Seq<int>|
                #[trigger] is_clique_seq(masks, s, n) && s.len() == k && Seq::<int>::empty().is_prefix_of(s)
                    && s.contains(p.0) && s.contains(p.1);
            lemma_two_members(s, p.0, p.1);
        }
    }
    assert(clique_pairs(masks, n, k, Seq::empty()) =~= Set::<(int, int)>::empty());
}

/// The pairs of 2-cliques are the edges named in the masks.
proof fn lemma_pairs_two(nbrs: &NeighborSet, n: int)
    requires
        nbrs.closed_below(n),
        0 <= n,
    ensures
        clique_pairs(nbrs.masks@, n, 2, Seq::empty()) == Set::new(
            |p: (int, int)| 0 <= p.0 < n && p.0 < p.1 && bit64(nbrs.masks@[p.0], p.1),
        ),
{
    let masks = nbrs.masks@;
    let rhs = Set::new(|p: (int, int)| 0 <= p.0 < n && p.0 < p.1 && bit64(masks[p.0], p.1));
    assert forall|p: (int, int)| clique_pairs(masks, n, 2, Seq::empty()).contains(p) == rhs.contains(p) by {
        if clique_pairs(masks, n, 2, Seq::empty()).contains(p) {
            let s = choose|s: Seq<int>|
                #[trigger] is_clique_seq(masks, s, n) && s.len() == 2 && Seq::<int>::empty().is_prefix_of(s)
                    && s.contains(p.0) && s.contains(p.1);
            assert(s[0] < s[1] && bit64(masks[s[0]], s[1]));
            assert(0 <= s[0] < n);
        }
        if rhs.contains(p) {
            lemma_fits_bits(masks[p.0], n);
            let s = seq![p.0, p.1];
            assert(s[0] == p.0 && s[1] == p.1);
            assert(is_clique_seq(masks, s, n));
            assert(Seq::<int>::empty().is_prefix_of(s));
            assert(s.contains(p.0) && s.contains(p.1));
        }
    }
    assert(clique_pairs(masks, n, 2, Seq::empty()) =~= rhs);
}

/// A clique that is already complete contributes exactly its own pairs.
proof fn lemma_pairs_full(masks: Seq<u64>, n: int, k: nat, s: Seq<int>)
    requires
        is_clique_seq(masks, s, n),
        s.len() == k,
    ensures
        clique_pairs(masks, n, k, s) == index_pairs(s, s.len() as int, (s.len() + 1) as int),
{
    assert forall|p: (int, int)| clique_pairs(masks, n, k, s).contains(p) == index_pairs(
        s,
        s.len() as int,
        (s.len() + 1) as int,
    ).contains(p) by {
        if clique_pairs(masks, n, k, s).contains(p) {
            let t = choose|t: Seq<int>|
                #[trigger] is_clique_seq(masks, t, n) && t.len() == k && s.is_prefix_of(t)
                    && t.contains(p.0) && t.contains(p.1);
            assert(t =~= s);
            let a = choose|a: int| 0 <= a < s.len() && s[a] == p.0;
            let b = choose|b: int| 0 <= b < s.len() && s[b] == p.1;
            if b < a {
                assert(s[b] < s[a]);
            }
            assert(a != b);
            assert(0 <= a < b < s.len() && p == (s[a], s[b]));
        }
        if index_pairs(s, s.len() as int, (s.len() + 1) as int).contains(p) {
            let (a, b) = choose|a: int, b: int|
                #![trigger s[a], s[b]]
                0 <= a < b < s.len() && (a < s.len() || (a == s.len() && b < (s.len() + 1) as int)) && p == (
                s[a], s[b]);
            assert(s[a] < s[b]);
            assert(s.is_prefix_of(s));
            assert(s.contains(s[a]) && s.contains(s[b]));
        }
    }
    assert(clique_pairs(masks, n, k, s) =~= index_pairs(s, s.len() as int, (s.len() + 1) as int));
}

/// A clique extending `prefix` continues with candidates only, so too few
/// candidates leave nothing to mark.
proof fn lemma_pairs_too_few(masks: Seq<u64>, n: int, k: nat, prefix: Seq<int>, cand: u64)
    requires
        1 <= prefix.len() < k,
        is_clique_seq(masks, prefix, n),
        extends_all(masks, prefix, cand, n),
        crate::bits::popcount(cand) < k - prefix.len(),
    ensures
        clique_pairs(masks, n, k, prefix) == Set::<(int, int)>::empty(),
{
    assert forall|p: (int, int)| !clique_pairs(masks, n, k, prefix).contains(p) by {
        if clique_pairs(masks, n, k, prefix).contains(p) {
            let s = choose|s: Seq<int>|
                #[trigger] is_clique_seq(masks, s, n) && s.len() == k && prefix.is_prefix_of(s)
                    && s.contains(p.0) && s.contains(p.1);
            let m = prefix.len() as int;
            let t = s.subrange(m, k as int);
            assert forall|i: int| 0 <= i < t.len() implies #[trigger] bit64(cand, t[i]) by {
                assert(t[i] == s[m + i]);
                assert(s[m - 1] < s[m + i]);
                assert(prefix.last() == s[m - 1]);
                assert forall|j: int| 0 <= j < prefix.len() implies bit64(
                    #[trigger] masks[prefix[j]],
                    t[i],
                ) by {
                    assert(prefix[j] == s[j]);
                    assert(s[j] < s[m + i] && bit64(masks[s[j]], s[m + i]));
                }
            }
            assert forall|i: int, j: int| 0 <= i < j < t.len() implies t[i] < t[j] by {
                assert(t[i] == s[m + i] && t[j] == s[m + j]);
            }
            lemma_popcount_ge_increasing(cand, t);
        }
    }
    assert(clique_pairs(masks, n, k, prefix) =~= Set::<(int, int)>::empty());
}

/// The cliques extending an incomplete `prefix` are those extending it by
/// one of the candidates.
proof fn lemma_pairs_split(masks: Seq<u64>, n: int, k: nat, prefix: Seq<int>, cand: u64)
    requires
        1 <= prefix.len() < k,
        is_clique_seq(masks, prefix, n),
        extends_all(masks, prefix, cand, n),
    ensures
        clique_pairs(masks, n, k, prefix) == done_pairs(masks, n, k, prefix, cand, 64),
{
    assert forall|p: (int, int)| clique_pairs(masks, n, k, prefix).contains(p) == done_pairs(
        masks,
        n,
        k,
        prefix,
        cand,
        64,
    ).contains(p) by {
        if clique_pairs(masks, n, k, prefix).contains(p) {
            let s = choose|s: Seq<int>|
                #[trigger] is_clique_seq(masks, s, n) && s.len() == k && prefix.is_prefix_of(s)
                    && s.contains(p.0) && s.contains(p.1);
            let m = prefix.len() as int;
            let w = s[m];
            assert(s[m - 1] < w);
            assert(prefix.last() == s[m - 1]);
            assert forall|j: int| 0 <= j < prefix.len() implies bit64(#[trigger] masks[prefix[j]], w) by {
                assert(prefix[j] == s[j]);
                assert(s[j] < s[m] && bit64(masks[s[j]], s[m]));
            }
            assert(bit64(cand, w));
            assert(prefix.push(w).is_prefix_of(s)) by {
                assert forall|i: int| 0 <= i < prefix.push(w).len() implies prefix.push(w)[i] == s[i] by {
                    if i < m {
                        assert(prefix[i] == s[i]);
                    }
                }
            }
            assert(clique_pairs(masks, n, k, prefix.push(w)).contains(p));
        }
        if done_pairs(masks, n, k, prefix, cand, 64).contains(p) {
            let w = choose|w: int|
                bit64(cand, w) && w < 64 && #[trigger] clique_pairs(masks, n, k, prefix.push(w)).contains(p);
            let s = choose|s: Seq<int>|
                #[trigger] is_clique_seq(masks, s, n) && s.len() == k && prefix.push(w).is_prefix_of(s)
                    && s.contains(p.0) && s.contains(p.1);
            assert(prefix.is_prefix_of(s)) by {
                assert forall|i: int| 0 <= i < prefix.len() implies prefix[i] == s[i] by {
                    assert(prefix.push(w)[i] == prefix[i]);
                }
            }
        }
    }
    assert(clique_pairs(masks, n, k, prefix) =~= done_pairs(masks, n, k, prefix, cand, 64));
}

/// Extending a clique by a candidate gives a clique whose candidates are
/// the later candidates named in the new vertex's mask.
proof fn lemma_extend(masks: Seq<u64>, n: int, prefix: Seq<int>, cand: u64, w: int, later: u64)
    requires
        1 <= prefix.len(),
        0 <= n <= masks.len(),
        is_clique_seq(masks, prefix, n),
        extends_all(masks, prefix, cand, n),
        bit64(cand, w),
        forall|x: int| #[trigger] bit64(later, x) == (bit64(cand, x) && w < x),
    ensures
        is_clique_seq(masks, prefix.push(w), n),
        extends_all(masks, prefix.push(w), later & masks[w], n),
{
    let q = prefix.push(w);
    lemma_bit_ops(later, masks[w]);
    assert forall|i: int, j: int| #![trigger q[i], q[j]] 0 <= i < j < q.len() implies q[i] < q[j]
        && bit64(masks[q[i]], q[j]) by {
        if j == prefix.len() {
            assert(q[j] == w);
            assert(q[i] == prefix[i]);
            assert(bit64(masks[prefix[i]], w));
            if i < prefix.len() - 1 {
                assert(prefix[i] < prefix.last());
            }
        } else {
            assert(q[i] == prefix[i] && q[j] == prefix[j]);
        }
    }
    assert forall|i: int| 0 <= i < q.len() implies 0 <= #[trigger] q[i] < n by {
        if i < prefix.len() {
            assert(q[i] == prefix[i]);
        }
    }
    assert forall|x: int| #[trigger] bit64(later & masks[w], x) <==> (x < n && q.last() < x && forall|i: int|
        0 <= i < q.len() ==> bit64(#[trigger] masks[q[i]], x)) by {
        if bit64(later & masks[w], x) {
            assert forall|i: int| 0 <= i < q.len() implies bit64(#[trigger] masks[q[i]], x) by {
                if i < prefix.len() {
                    assert(q[i] == prefix[i]);
                }
            }
        }
        if x < n && q.last() < x && forall|i: int| 0 <= i < q.len() ==> bit64(#[trigger] masks[q[i]], x) {
            assert forall|i: int| 0 <= i < prefix.len() implies bit64(#[trigger] masks[prefix[i]], x) by {
                assert(q[i] == prefix[i]);
                assert(bit64(masks[q[i]], x));
            }
            assert(prefix.last() < w);
            assert(bit64(masks[q[prefix.len() as int]], x));
        }
    }
}

/// Record every pair of the increasing sequence `clique` in the rows.
fn mark_clique_pairs(clique: &Vec<u32>, rows: &mut Vec<u64>, Ghost(n): Ghost<int>)
    requires
        old(rows)@.len() == n,
        n <= 64,
        forall|i: int| 0 <= i < clique@.len() ==> #[trigger] clique@[i] < n,
        forall|i: int, j: int| #![trigger clique@[i], clique@[j]] 0 <= i < j < clique@.len() ==> clique@[i] < clique@[j],
    ensures
        final(rows)@.len() == n,
        upper_marks(final(rows)@) == upper_marks(old(rows)@).union(
            index_pairs(as_ints(clique@), clique@.len() as int, (clique@.len() + 1) as int),
        ),
{
    let ghost s = as_ints(clique@);
    let len = clique.len();
    let mut i: usize = 0;
    assert(index_pairs(s, 0, 1) =~= Set::<(int, int)>::empty());
    while i < len
        invariant
            s == as_ints(clique@),
            len == clique@.len(),
            i <= len,
            rows@.len() == n,
            n <= 64,
            forall|a: int| 0 <= a < clique@.len() ==> #[trigger] clique@[a] < n,
            forall|a: int, b: int| #![trigger clique@[a], clique@[b]] 0 <= a < b < clique@.len() ==> clique@[a] < clique@[b],
            upper_marks(rows@) == upper_marks(old(rows)@).union(index_pairs(s, i as int, i + 1)),
        decreases len - i,
    {
        let mut j: usize = i + 1;
        while j < len
            invariant
                s == as_ints(clique@),
                len == clique@.len(),
                i < len,
                i < j <= len,
                rows@.len() == n,
                n <= 64,
                forall|a: int| 0 <= a < clique@.len() ==> #[trigger] clique@[a] < n,
                forall|a: int, b: int| #![trigger clique@[a], clique@[b]] 0 <= a < b < clique@.len() ==> clique@[a] < clique@[b],
                upper_marks(rows@) == upper_marks(old(rows)@).union(index_pairs(s, i as int, j as int)),
            decreases len - j,
        {
            let u = clique[i];
            let v = clique[j];
            assert(u < v);
            let ghost r0 = rows@;
            let a = rows[u as usize] | (1u64 << v);
            rows.set(u as usize, a);
            proof {
                lemma_mark(r0, u as int, v as int);
            }
            let ghost r1 = rows@;
            let b = rows[v as usize] | (1u64 << u);
            rows.set(v as usize, b);
            proof {
                lemma_mark(r1, v as int, u as int);
                assert(s[i as int] == u && s[j as int] == v);
                assert(index_pairs(s, i as int, j + 1) =~= index_pairs(s, i as int, j as int).insert((u as int, v as int)));
            }
            j = j + 1;
        }
        proof {
            assert(index_pairs(s, i + 1, i + 2) =~= index_pairs(s, i as int, len as int));
        }
        i = i + 1;
    }
}

/// Mark the pairs of every `k`-clique that extends `clique` by vertices of
/// `candidates` (the vertices above the last member named by all members).
fn mark_extensions(
    nbrs: &NeighborSet,
    k: u32,
    clique: &mut Vec<u32>,
    candidates: u64,
    rows: &mut Vec<u64>,
    Ghost(n): Ghost<int>,
)
    requires
        nbrs.closed_below(n),
        0 <= n <= 64,
        old(rows)@.len() == n,
        1 <= old(clique)@.len() <= k,
        is_clique_seq(nbrs.masks@, as_ints(old(clique)@), n),
        extends_all(nbrs.masks@, as_ints(old(clique)@), candidates, n),
    ensures
        final(clique)@ == old(clique)@,
        final(rows)@.len() == n,
        upper_marks(final(rows)@) == upper_marks(old(rows)@).union(
            clique_pairs(nbrs.masks@, n, k as nat, as_ints(old(clique)@)),
        ),
    decreases k - old(clique)@.len(),
{
    let ghost masks = nbrs.masks@;
    let ghost cl = as_ints(clique@);
    let ghost cl0 = clique@;
    let len = clique.len();
    if len as u32 == k {
        proof {
            assert forall|i: int| 0 <= i < clique@.len() implies #[trigger] clique@[i] < n by {
                assert(cl[i] == clique@[i] as int);
            }
            assert forall|i: int, j: int| #![trigger clique@[i], clique@[j]] 0 <= i < j < clique@.len()
                implies clique@[i] < clique@[j] by {
                assert(cl[i] == clique@[i] as int && cl[j] == clique@[j] as int);
            }
            lemma_pairs_full(masks, n, k as nat, cl);
        }
        mark_clique_pairs(clique, rows, Ghost(n));
        return;
    }
    let remaining = k - len as u32;
    if count_ones64(candidates) < remaining {
        proof {
            lemma_pairs_too_few(masks, n, k as nat, cl, candidates);
            assert(upper_marks(rows@).union(Set::<(int, int)>::empty()) =~= upper_marks(rows@));
        }
        return;
    }
    let mut mask = candidates;
    let ghost mut lo: int = 0;
    proof {
        assert(done_pairs(masks, n, k as nat, cl, candidates, 0) =~= Set::<(int, int)>::empty());
        assert(upper_marks(rows@).union(Set::<(int, int)>::empty()) =~= upper_marks(rows@));
        assert forall|x: int| #[trigger] bit64(mask, x) == (bit64(candidates, x) && lo <= x) by {}
    }
    while mask != 0
        invariant
            clique@ == cl0,
            cl == as_ints(cl0),
            cl0 == old(clique)@,
            rows@.len() == n,
            nbrs.closed_below(n),
            0 <= n <= 64,
            masks == nbrs.masks@,
            1 <= cl.len() < k,
            is_clique_seq(masks, cl, n),
            extends_all(masks, cl, candidates, n),
            0 <= lo,
            forall|x: int| #[trigger] bit64(mask, x) == (bit64(candidates, x) && lo <= x),
            upper_marks(rows@) == upper_marks(old(rows)@).union(
                done_pairs(masks, n, k as nat, cl, candidates, lo),
            ),
        decreases mask,
    {
        proof {
            lemma_drop_lowest_bits(mask);
            lemma_drop_lowest_smaller(mask);
        }
        let w = mask.trailing_zeros();
        let ghost old_mask = mask;
        mask = mask & (mask - 1);
        proof {
            assert(mask == drop_lowest(old_mask));
            assert(bit64(candidates, w as int));
            assert forall|x: int| #[trigger] bit64(mask, x) == (bit64(candidates, x) && w < x) by {
                if bit64(candidates, x) && w < x {
                    assert(bit64(old_mask, x));
                }
                if bit64(mask, x) {
                    assert(bit64(old_mask, x));
                }
            }
            assert(w < n);
            lemma_extend(masks, n, cl, candidates, w as int, mask);
        }
        let next = mask & nbrs.masks[w as usize];
        let ghost rows_before = rows@;
        clique.push(w);
        proof {
            assert(as_ints(clique@) =~= cl.push(w as int));
        }
        mark_extensions(nbrs, k, clique, next, rows, Ghost(n));
        clique.pop();
        proof {
            assert(clique@ =~= cl0);
            let new_lo = w + 1;
            assert(done_pairs(masks, n, k as nat, cl, candidates, new_lo) =~= done_pairs(
                masks,
                n,
                k as nat,
                cl,
                candidates,
                lo,
            ).union(clique_pairs(masks, n, k as nat, cl.push(w as int)))) by {
                assert forall|p: (int, int)| #[trigger] done_pairs(masks, n, k as nat, cl, candidates, new_lo).contains(p)
                    implies done_pairs(masks, n, k as nat, cl, candidates, lo).contains(p)
                    || clique_pairs(masks, n, k as nat, cl.push(w as int)).contains(p) by {
                    let x = choose|x: int|
                        bit64(candidates, x) && x < new_lo && #[trigger] clique_pairs(masks, n, k as nat, cl.push(x)).contains(p);
                    if x != w && lo <= x {
                        assert(bit64(old_mask, x));
                    }
                }
            }
            lo = new_lo;
            assert(upper_marks(rows@) =~= upper_marks(old(rows)@).union(
                done_pairs(masks, n, k as nat, cl, candidates, lo),
            ));
        }
    }
    proof {
        lemma_pairs_split(masks, n, k as nat, cl, candidates);
        assert(done_pairs(masks, n, k as nat, cl, candidates, lo) =~= done_pairs(
            masks,
            n,
            k as nat,
            cl,
            candidates,
            64,
        )) by {
            assert forall|p: (int, int)| #[trigger] done_pairs(masks, n, k as nat, cl, candidates, 64).contains(p)
                implies done_pairs(masks, n, k as nat, cl, candidates, lo).contains(p) by {
                let x = choose|x: int|
                    bit64(candidates, x) && x < 64 && #[trigger] clique_pairs(masks, n, k as nat, cl.push(x)).contains(p);
                if lo <= x {
                    assert(bit64(mask, x));
                    lemma_bit_ops(0, 0);
                }
            }
            assert forall|p: (int, int)| #[trigger] done_pairs(masks, n, k as nat, cl, candidates, lo).contains(p)
                implies done_pairs(masks, n, k as nat, cl, candidates, 64).contains(p) by {
                let x = choose|x: int|
                    bit64(candidates, x) && x < lo && #[trigger] clique_pairs(masks, n, k as nat, cl.push(x)).contains(p);
            }
        }
    }
}

/// Every clique lies in `0..n`, so its pairs do too.
proof fn lemma_pairs_bounded(masks: Seq<u64>, n: int, k: nat, prefix: Seq<int>, p: (int, int))
    requires
        clique_pairs(masks, n, k, prefix).contains(p),
    ensures
        0 <= p.0 < p.1 < n,
{
    let s = choose|s: Seq<int>|
        #[trigger] is_clique_seq(masks, s, n) && s.len() == k && prefix.is_prefix_of(s) && s.contains(p.0)
            && s.contains(p.1);
    let a = choose|a: int| 0 <= a < s.len() && s[a] == p.0;
    let b = choose|b: int| 0 <= b < s.len() && s[b] == p.1;
}

/// Every clique on `0..n` starts at some vertex of `0..n`.
proof fn lemma_pairs_by_first(masks: Seq<u64>, n: int, k: nat)
    ensures
        clique_pairs(masks, n, k, Seq::empty()) == Set::new(
            |p: (int, int)| exists|w: int| 0 <= w < n && #[trigger] clique_pairs(masks, n, k, seq![w]).contains(p),
        ),
{
    let rhs = Set::new(
        |p: (int, int)| exists|w: int| 0 <= w < n && #[trigger] clique_pairs(masks, n, k, seq![w]).contains(p),
    );
    assert forall|p: (int, int)| clique_pairs(masks, n, k, Seq::empty()).contains(p) == rhs.contains(p) by {
        if clique_pairs(masks, n, k, Seq::empty()).contains(p) {
            let s = choose|s: Seq<int>|
                #[trigger] is_clique_seq(masks, s, n) && s.len() == k && Seq::<int>::empty().is_prefix_of(s)
                    && s.contains(p.0) && s.contains(p.1);
            lemma_two_members(s, p.0, p.1);
            let w = s[0];
            assert(seq![w].is_prefix_of(s));
            assert(clique_pairs(masks, n, k, seq![w]).contains(p));
        }
        if rhs.contains(p) {
            let w = choose|w: int| 0 <= w < n && #[trigger] clique_pairs(masks, n, k, seq![w]).contains(p);
            let s = choose|s: Seq<int>|
                #[trigger] is_clique_seq(masks, s, n) && s.len() == k && seq![w].is_prefix_of(s)
                    && s.contains(p.0) && s.contains(p.1);
            assert(Seq::<int>::empty().is_prefix_of(s));
        }
    }
    assert(clique_pairs(masks, n, k, Seq::empty()) =~= rhs);
}

/// Mark the pairs of every `k`-clique on `0..n` in the rows.
fn enumerate_cliques_and_mark(nbrs: &NeighborSet, k: u32, n: u32, rows: &mut Vec<u64>)
    requires
        nbrs.closed_below(n as int),
        n <= 63,
        old(rows)@.len() == n,
    ensures
        final(rows)@.len() == n,
        upper_marks(final(rows)@) == upper_marks(old(rows)@).union(
            clique_pairs(nbrs.masks@, n as int, k as nat, Seq::empty()),
        ),
{
    let ghost masks = nbrs.masks@;
    if k < 2 {
        proof {
            lemma_pairs_small(masks, n as int, k as nat);
            assert(upper_marks(rows@).union(Set::<(int, int)>::empty()) =~= upper_marks(rows@));
        }
        return;
    }
    if k == 2 {
        let mut u: u32 = 0;
        proof {
            assert(Set::new(|p: (int, int)| 0 <= p.0 < 0 && p.0 < p.1 && bit64(masks[p.0], p.1))
                =~= Set::<(int, int)>::empty());
            assert(upper_marks(rows@).union(Set::<(int, int)>::empty()) =~= upper_marks(rows@));
        }
        while u < n
            invariant
                rows@.len() == n,
                u <= n,
                n <= 63,
                masks == nbrs.masks@,
                nbrs.closed_below(n as int),
                upper_marks(rows@) == upper_marks(old(rows)@).union(
                    Set::new(|p: (int, int)| 0 <= p.0 < u && p.0 < p.1 && bit64(masks[p.0], p.1)),
                ),
            decreases n - u,
        {
            let ghost r0 = rows@;
            let x = rows[u as usize] | nbrs.masks[u as usize];
            rows.set(u as usize, x);
            proof {
                lemma_mark_row(r0, u as int, masks[u as int]);
                assert(Set::new(|p: (int, int)| 0 <= p.0 < u + 1 && p.0 < p.1 && bit64(masks[p.0], p.1))
                    =~= Set::new(|p: (int, int)| 0 <= p.0 < u && p.0 < p.1 && bit64(masks[p.0], p.1)).union(
                    Set::new(|p: (int, int)| p.0 == u && u < p.1 && bit64(masks[u as int], p.1)),
                ));
            }
            u = u + 1;
        }
        proof {
            lemma_pairs_two(nbrs, n as int);
        }
        return;
    }
    let mut clique: Vec<u32> = Vec::with_capacity(k as usize);
    let mut v: u32 = 0;
    proof {
        assert(Set::new(|p: (int, int)| exists|w: int| 0 <= w < 0 && #[trigger] clique_pairs(masks, n as int, k as nat, seq![w]).contains(p))
            =~= Set::<(int, int)>::empty());
        assert(upper_marks(rows@).union(Set::<(int, int)>::empty()) =~= upper_marks(rows@));
    }
    while v < n
        invariant
            rows@.len() == n,
            v <= n,
            n <= 63,
            k >= 3,
            masks == nbrs.masks@,
            nbrs.closed_below(n as int),
            upper_marks(rows@) == upper_marks(old(rows)@).union(
                Set::new(|p: (int, int)| exists|w: int| 0 <= w < v && #[trigger] clique_pairs(masks, n as int, k as nat, seq![w]).contains(p)),
            ),
        decreases n - v,
    {
        clique.clear();
        clique.push(v);
        proof {
            lemma_above_bits(v as int);
            lemma_one_shl_pos((v + 1) as u64);
        }
        let candidates = nbrs.masks[v as usize] & !((1u64 << (v + 1)) - 1);
        proof {
            let cl = as_ints(clique@);
            assert(cl =~= seq![v as int]);
            lemma_bit_ops(masks[v as int], above(v as int));
            lemma_fits_bits(masks[v as int], n as int);
            assert forall|x: int| #[trigger] bit64(candidates, x) <==> (x < n && cl.last() < x && forall|i: int|
                0 <= i < cl.len() ==> bit64(#[trigger] masks[cl[i]], x)) by {
                if x < n && cl.last() < x && forall|i: int| 0 <= i < cl.len() ==> bit64(#[trigger] masks[cl[i]], x) {
                    assert(bit64(masks[cl[0]], x));
                }
            }
        }
        let ghost r0 = rows@;
        mark_extensions(nbrs, k, &mut clique, candidates, rows, Ghost(n as int));
        proof {
            assert(Set::new(|p: (int, int)| exists|w: int| 0 <= w < v + 1 && #[trigger] clique_pairs(masks, n as int, k as nat, seq![w]).contains(p))
                =~= Set::new(|p: (int, int)| exists|w: int| 0 <= w < v && #[trigger] clique_pairs(masks, n as int, k as nat, seq![w]).contains(p)).union(
                    clique_pairs(masks, n as int, k as nat, seq![v as int]))) by {
                assert forall|p: (int, int)| #[trigger] clique_pairs(masks, n as int, k as nat, seq![v as int]).contains(p)
                    implies exists|w: int| 0 <= w < v + 1 && #[trigger] clique_pairs(masks, n as int, k as nat, seq![w]).contains(p) by {
                }
            }
            assert(as_ints(clique@) =~= seq![v as int]);
        }
        v = v + 1;
    }
    proof {
        lemma_pairs_by_first(masks, n as int, k as nat);
    }
}

/// Lexicographic order on vertex pairs.
pub open spec fn pair_less(p: (u32, u32), q: (u32, u32)) -> bool {
    p.0 < q.0 || (p.0 == q.0 && p.1 < q.1)
}

/// The edges `(u, v)`, `u < v < n`, that lie in a `k`-clique of the graph
/// or an `ell`-clique of its complement, each once, in increasing order.
pub fn guilty_edges(adj_nbrs: &NeighborSet, comp_nbrs: &NeighborSet, k: u32, ell: u32, n: u32) -> (r: Vec<(u32, u32)>)
    requires
        adj_nbrs.closed_below(n as int),
        comp_nbrs.closed_below(n as int),
        n <= 63,
    ensures
        forall|i: int| 0 <= i < r@.len() ==> #[trigger] r@[i].0 < r@[i].1 && r@[i].1 < n,
        forall|i: int, j: int| 0 <= i < j < r@.len() ==> pair_less(#[trigger] r@[i], #[trigger] r@[j]),
        forall|a: u32, b: u32|
            #[trigger] r@.contains((a, b)) <==> guilty_pairs(
                adj_nbrs.masks@,
                comp_nbrs.masks@,
                k as nat,
                ell as nat,
                n as int,
            ).contains((a as int, b as int)),
{
    let ghost g = guilty_pairs(adj_nbrs.masks@, comp_nbrs.masks@, k as nat, ell as nat, n as int);
    let mut guilty: Vec<u64> = Vec::new();
    let mut i: u32 = 0;
    while i < n
        invariant
            i <= n,
            guilty@.len() == i,
            forall|j: int| 0 <= j < i ==> #[trigger] guilty@[j] == 0,
        decreases n - i,
    {
        guilty.push(0);
        i = i + 1;
    }
    proof {
        lemma_bit_ops(0, 0);
        assert(upper_marks(guilty@) =~= Set::<(int, int)>::empty());
    }
    enumerate_cliques_and_mark(adj_nbrs, k, n, &mut guilty);
    enumerate_cliques_and_mark(comp_nbrs, ell, n, &mut guilty);
    proof {
        assert(upper_marks(guilty@) =~= g);
    }
    let mut edges: Vec<(u32, u32)> = Vec::new();
    let mut u: u32 = 0;
    while u < n
        invariant
            u <= n,
            n <= 63,
            guilty@.len() == n,
            upper_marks(guilty@) == g,
            g == guilty_pairs(adj_nbrs.masks@, comp_nbrs.masks@, k as nat, ell as nat, n as int),
            forall|i: int| 0 <= i < edges@.len() ==> #[trigger] edges@[i].0 < edges@[i].1 && edges@[i].1 < n
                && edges@[i].0 < u,
            forall|i: int, j: int| 0 <= i < j < edges@.len() ==> pair_less(#[trigger] edges@[i], #[trigger] edges@[j]),
            forall|a: u32, b: u32| #[trigger] edges@.contains((a, b)) <==> (a < u && g.contains((a as int, b as int))),
        decreases n - u,
    {
        proof {
            lemma_above_bits(u as int);
            lemma_bit_ops(guilty@[u as int], above(u as int));
            lemma_one_shl_pos((u + 1) as u64);
        }
        let row = guilty[u as usize];
        let mut m = row & !((1u64 << (u + 1)) - 1);
        assert(m == row & above(u as int));
        let ghost mut lo: int = 0;
        assert forall|i: int| 0 <= i < edges@.len() implies #[trigger] edges@[i].0 < edges@[i].1 && edges@[i].1 < n
            && (edges@[i].0 < u || (edges@[i].0 == u && edges@[i].1 < lo)) by {}
        while m != 0
            invariant
                u < n,
                n <= 63,
                guilty@.len() == n,
                row == guilty@[u as int],
                upper_marks(guilty@) == g,
                g == guilty_pairs(adj_nbrs.masks@, comp_nbrs.masks@, k as nat, ell as nat, n as int),
                0 <= lo <= 64,
                forall|x: int| #[trigger] bit64(m, x) == (bit64(row, x) && u < x && lo <= x),
                forall|i: int| 0 <= i < edges@.len() ==> #[trigger] edges@[i].0 < edges@[i].1 && edges@[i].1 < n
                    && (edges@[i].0 < u || (edges@[i].0 == u && edges@[i].1 < lo)),
                forall|i: int, j: int| 0 <= i < j < edges@.len() ==> pair_less(#[trigger] edges@[i], #[trigger] edges@[j]),
                forall|a: u32, b: u32| #[trigger] edges@.contains((a, b)) <==> ((a < u && g.contains((a as int, b as int)))
                    || (a == u && b < lo && g.contains((a as int, b as int)))),
            decreases m,
        {
            proof {
                lemma_drop_lowest_bits(m);
                lemma_drop_lowest_smaller(m);
            }
            let v = m.trailing_zeros();
            let ghost old_m = m;
            m = m & (m - 1);
            proof {
                assert(m == drop_lowest(old_m));
                assert(upper_marks(guilty@).contains((u as int, v as int)));
                lemma_pairs_bounded_union(adj_nbrs.masks@, comp_nbrs.masks@, k as nat, ell as nat, n as int, (u as int, v as int));
            }
            let ghost e0 = edges@;
            edges.push((u, v));
            proof {
                assert forall|a: u32, b: u32| #[trigger] edges@.contains((a, b)) <==> ((a < u && g.contains((a as int, b as int)))
                    || (a == u && b < v + 1 && g.contains((a as int, b as int)))) by {
                    if edges@.contains((a, b)) {
                        let i = choose|i: int| 0 <= i < edges@.len() && edges@[i] == (a, b);
                        if i < e0.len() {
                            assert(e0[i] == (a, b));
                            assert(e0.contains((a, b)));
                        }
                    }
                    if a == u && b < v + 1 && g.contains((a as int, b as int)) && b != v {
                        assert(upper_marks(guilty@).contains((a as int, b as int)));
                        assert(bit64(row, b as int));
                        if lo <= b {
                            assert(bit64(old_m, b as int));
                        }
                        assert(e0.contains((a, b)));
                        let i = choose|i: int| 0 <= i < e0.len() && e0[i] == (a, b);
                        assert(edges@[i] == (a, b));
                    }
                    if (a < u && g.contains((a as int, b as int))) {
                        assert(e0.contains((a, b)));
                        let i = choose|i: int| 0 <= i < e0.len() && e0[i] == (a, b);
                        assert(edges@[i] == (a, b));
                    }
                    if a == u && b == v {
                        assert(edges@[e0.len() as int] == (a, b));
                    }
                }
                lo = v + 1;
                assert forall|x: int| #[trigger] bit64(m, x) == (bit64(row, x) && u < x && lo <= x) by {
                    if bit64(row, x) && u < x && lo <= x {
                        assert(bit64(old_m, x));
                    }
                }
            }
        }
        proof {
            assert forall|a: u32, b: u32| #[trigger] edges@.contains((a, b)) <==> (a < u + 1 && g.contains((a as int, b as int))) by {
                if a == u && g.contains((a as int, b as int)) {
                    assert(upper_marks(guilty@).contains((a as int, b as int)));
                    assert(bit64(row, b as int));
                    if lo <= b {
                        assert(bit64(m, b as int));
                        lemma_bit_ops(0, 0);
                    }
                }
            }
        }
        u = u + 1;
    }
    edges
}

/// Guilty pairs lie in `0..n`.
proof fn lemma_pairs_bounded_union(adj: Seq<u64>, comp: Seq<u64>, k: nat, ell: nat, n: int, p: (int, int))
    requires
        guilty_pairs(adj, comp, k, ell, n).contains(p),
    ensures
        0 <= p.0 < p.1 < n,
{
    if clique_pairs(adj, n, k, Seq::empty()).contains(p) {
        lemma_pairs_bounded(adj, n, k, Seq::empty(), p);
    } else {
        lemma_pairs_bounded(comp, n, ell, Seq::empty(), p);
    }
}

} // verus!
