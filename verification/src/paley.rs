//! Paley graphs, used to seed searches: on the smallest prime `p >= n` with
//! `p = 1 (mod 4)`, vertices `i` and `j` are adjacent when `i - j` is a
//! nonzero square modulo `p`.

use vstd::prelude::*;

use crate::adjacency::{AdjacencyMatrix, is_vertex_pair, size_fits, visited};

verus! {

/// `n` is prime.
pub open spec fn prime(n: int) -> bool {
    n >= 2 && forall|d: int| 2 <= d < n ==> #[trigger] (n % d) != 0
}

/// `r` is the square of a nonzero residue modulo `p`.
pub open spec fn is_qr(p: int, r: int) -> bool {
    exists|x: int| 1 <= x < p && #[trigger] ((x * x) % p) == r
}

/// `p` is a prime `= 1 (mod 4)`.
pub open spec fn paley_candidate(p: int) -> bool {
    p % 4 == 1 && prime(p)
}

/// `p` is the smallest prime `= 1 (mod 4)` that is at least `max(n, 5)`.
pub open spec fn is_paley_prime(n: int, p: int) -> bool {
    let lo = if n >= 5 {
        n
    } else {
        5
    };
    &&& lo <= p
    &&& paley_candidate(p)
    &&& forall|q: int| lo <= q < p ==> !#[trigger] paley_candidate(q)
}

/// The edges of the Paley graph on `0..n` over the prime `p`.
pub open spec fn paley_edges(n: int, p: int) -> Set<(int, int)> {
    Set::new(|e: (int, int)| is_vertex_pair(n, e) && is_qr(p, (e.0 - e.1) % p))
}

/// A number with no divisor in `2..i`, where `i * i > n`, is prime.
proof fn lemma_prime_by_trial(n: int, i: int)
    requires
        n >= 2,
        i >= 2,
        i * i > n,
        forall|d: int| 2 <= d < i ==> #[trigger] (n % d) != 0,
    ensures
        prime(n),
{
    assert forall|d: int| 2 <= d < n implies #[trigger] (n % d) != 0 by {
        if n % d == 0 && d >= i {
            let e = n / d;
            assert(n == d * e) by (nonlinear_arith)
                requires
                    n % d == 0,
                    d >= 2,
                    e == n / d,
            ;
            assert(2 <= e < i) by (nonlinear_arith)
                requires
                    n == d * e,
                    d >= i,
                    d < n,
                    i * i > n,
                    i >= 2,
                    d >= 2,
            ;
            assert(n % e == 0) by (nonlinear_arith)
                requires
                    n == d * e,
                    e >= 2,
            ;
        }
    }
}

/// A multiple of a multiple of `f` is a multiple of `f`.
proof fn lemma_divisor_factor(n: int, d: int, f: int)
    requires
        d > 0,
        f > 0,
        d % f == 0,
        n % d == 0,
    ensures
        n % f == 0,
{
    vstd::arithmetic::div_mod::lemma_fundamental_div_mod(n, d);
    vstd::arithmetic::div_mod::lemma_fundamental_div_mod(d, f);
    let q = n / d;
    let t = d / f;
    assert(n == (t * q) * f) by (nonlinear_arith)
        requires
            n == d * q + 0,
            d == f * t + 0,
    ;
    vstd::arithmetic::div_mod::lemma_mod_multiples_basic(t * q, f);
}

/// Whether `n` is prime, by trial division with `6k +- 1`.
pub fn is_prime(n: u32) -> (r: bool)
    ensures
        r == prime(n as int),
{
    if n < 2 {
        return false;
    }
    if n < 4 {
        return true;
    }
    if n % 2 == 0 || n % 3 == 0 {
        return false;
    }
    proof {
        if (n as int) % 4 == 0 {
            lemma_divisor_factor(n as int, 4, 2);
        }
    }
    let mut i: u64 = 5;
    while i * i <= n as u64
        invariant
            5 <= i,
            i % 6 == 5,
            i <= 65542,
            i * i <= 4295753764,
            n >= 4,
            n % 2 != 0,
            n % 3 != 0,
            forall|d: int| 2 <= d < i ==> #[trigger] ((n as int) % d) != 0,
        decreases n + 6 - i,
    {
        assert(i < n && i + 2 < n && i < 65536) by (nonlinear_arith)
            requires
                i * i <= n,
                i >= 5,
                n <= u32::MAX,
        ;
        if (n as u64) % i == 0 || (n as u64) % (i + 2) == 0 {
            proof {
                if (n as int) % (i as int) == 0 {
                    assert(!prime(n as int));
                } else {
                    assert((n as int) % ((i + 2) as int) == 0);
                    assert(!prime(n as int));
                }
            }
            return false;
        }
        assert forall|d: int| 2 <= d < i + 6 implies #[trigger] ((n as int) % d) != 0 by {
            if d >= i && d != i && d != i + 2 {
                // the other residues mod 6 share a factor 2 or 3 with d
                if (n as int) % d == 0 {
                    if d % 2 == 0 {
                        lemma_divisor_factor(n as int, d, 2);
                    } else {
                        assert(d % 3 == 0);
                        lemma_divisor_factor(n as int, d, 3);
                    }
                }
            }
        }
        assert((i + 6) * (i + 6) <= 4295753764) by (nonlinear_arith)
            requires
                i < 65536,
        ;
        i = i + 6;
    }
    proof {
        lemma_prime_by_trial(n as int, i as int);
    }
    true
}

/// The Paley graph on `n` vertices.
pub fn paley_graph(n: u32) -> (g: AdjacencyMatrix)
    requires
        size_fits(n as int),
        exists|q: int| (if n >= 5 { n as int } else { 5 }) <= q <= u32::MAX && #[trigger] paley_candidate(q),
    ensures
        g.wf(),
        g.order() == n,
        exists|p: int| is_paley_prime(n as int, p) && g@ == paley_edges(n as int, p),
{
    let lo: u32 = if n >= 5 {
        n
    } else {
        5
    };
    let mut p: u32 = lo;
    loop
        invariant
            lo <= p,
            lo == (if n >= 5 { n } else { 5u32 }),
            forall|q: int| lo <= q < p ==> !#[trigger] paley_candidate(q),
            exists|q: int| lo <= q <= u32::MAX && #[trigger] paley_candidate(q),
        ensures
            lo <= p,
            paley_candidate(p as int),
            forall|q: int| lo <= q < p ==> !#[trigger] paley_candidate(q),
        decreases u32::MAX - p,
    {
        if p % 4 == 1 && is_prime(p) {
            break;
        }
        if p == u32::MAX {
            proof {
                let q = choose|q: int| lo <= q <= u32::MAX && #[trigger] paley_candidate(q);
                assert(!paley_candidate(q));
            }
        }
        p = p + 1;
    }
    let ghost pp = p as int;
    // Mark the nonzero squares modulo p.
    let mut qr: Vec<bool> = Vec::new();
    let mut r: u32 = 0;
    while r < p
        invariant
            r <= p,
            qr@.len() == r,
            forall|j: int| 0 <= j < r ==> !#[trigger] qr@[j],
        decreases p - r,
    {
        qr.push(false);
        r = r + 1;
    }
    let mut x: u32 = 1;
    while x < p
        invariant
            1 <= x <= p,
            p >= 5,
            qr@.len() == p,
            forall|r: int| 0 <= r < p ==> (#[trigger] qr@[r] <==> exists|y: int|
                1 <= y < x && #[trigger] ((y * y) % (p as int)) == r),
        decreases p - x,
    {
        assert((x as u64) * (x as u64) <= u64::MAX) by (nonlinear_arith)
            requires
                x <= u32::MAX,
        ;
        let sq = ((x as u64 * x as u64) % (p as u64)) as usize;
        let ghost old_qr = qr@;
        qr.set(sq, true);
        proof {
            assert forall|r: int| 0 <= r < p implies (#[trigger] qr@[r] <==> exists|y: int|
                1 <= y < x + 1 && #[trigger] ((y * y) % (p as int)) == r) by {
                if r == sq {
                    assert(((x * x) % (p as int)) == r);
                } else {
                    if exists|y: int| 1 <= y < x + 1 && #[trigger] ((y * y) % (p as int)) == r {
                        let y = choose|y: int| 1 <= y < x + 1 && #[trigger] ((y * y) % (p as int)) == r;
                        if y == x {
                            assert(false);
                        }
                        assert(old_qr[r]);
                    }
                }
            }
        }
        x = x + 1;
    }
    let mut g = AdjacencyMatrix::new(n);
    let mut i: u32 = 0;
    while i < n
        invariant
            i <= n,
            n <= p,
            p >= 5,
            g.wf(),
            g.order() == n,
            qr@.len() == p,
            forall|r: int| 0 <= r < p ==> (#[trigger] qr@[r] <==> is_qr(p as int, r)),
            g@ == paley_edges(n as int, p as int).filter(|e: (int, int)| visited(e, i as int, 0)),
        decreases n - i,
    {
        let mut j: u32 = i + 1;
        assert(g@ =~= paley_edges(n as int, p as int).filter(|e: (int, int)| visited(e, i as int, j as int)));
        while j < n
            invariant
                i < n,
                i + 1 <= j <= n,
                n <= p,
                p >= 5,
                g.wf(),
                g.order() == n,
                qr@.len() == p,
                forall|r: int| 0 <= r < p ==> (#[trigger] qr@[r] <==> is_qr(p as int, r)),
                g@ == paley_edges(n as int, p as int).filter(|e: (int, int)| visited(e, i as int, j as int)),
            decreases n - j,
        {
            let diff = p - (j - i);
            assert(diff as int == ((i as int) - (j as int)) % (p as int)) by (nonlinear_arith)
                requires
                    i < j,
                    j < p,
                    diff == p - (j - i),
            ;
            if qr[diff as usize] {
                g.set_edge(i, j, true);
            }
            assert(g@ =~= paley_edges(n as int, p as int).filter(|e: (int, int)| visited(e, i as int, j + 1)));
            j = j + 1;
        }
        assert(g@ =~= paley_edges(n as int, p as int).filter(|e: (int, int)| visited(e, i + 1, 0)));
        i = i + 1;
    }
    assert(g@ =~= paley_edges(n as int, p as int));
    assert(is_paley_prime(n as int, pp));
    g
}

/// 73 is a prime `= 1 (mod 4)`.
pub proof fn lemma_seventy_three()
    ensures
        paley_candidate(73),
{
    assert forall|d: int| 2 <= d < 73 implies #[trigger] (73int % d) != 0 by {
        let du = d as u8;
        assert(2 <= du && du < 73 ==> 73u8 % du != 0u8) by (bit_vector);
        assert(73int % d == (73u8 % du) as int);
    }
}

/// Every graph size up to 63 has a Paley prime: 73 is one at or above it.
pub proof fn lemma_paley_prime_exists(n: u32)
    requires
        n <= 63,
    ensures
        exists|q: int|
            (if n >= 5 {
                n as int
            } else {
                5
            }) <= q <= u32::MAX && #[trigger] paley_candidate(q),
{
    lemma_seventy_three();
}

} // verus!
