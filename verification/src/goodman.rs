//! Goodman's bound on monochromatic triangles.
//!
//! Every 2-colouring of the edges of `K_n` has at least
//! `C(n,3) - floor(n * floor((n-1)^2 / 4) / 2)` monochromatic triangles; the
//! bound is met when every vertex has degree `floor((n-1)/2)` or
//! `ceil((n-1)/2)` in one colour.

use vstd::prelude::*;

verus! {

/// `C(n,3) - floor(n * floor((n-1)^2 / 4) / 2)`, and zero below three vertices.
pub open spec fn goodman_min(n: int) -> int {
    if n < 3 {
        0
    } else {
        n * (n - 1) * (n - 2) / 6 - n * ((n - 1) * (n - 1) / 4) / 2
    }
}

/// The same bound from degrees: `C(n,3) - (sum over v of d_v (n-1-d_v)) / 2`
/// with every degree as balanced as possible.
pub open spec fn goodman_by_degrees(n: int) -> int {
    if n < 3 {
        0
    } else {
        let d_low = (n - 1) / 2;
        let d_high = n / 2;
        let sum = if n % 2 == 1 {
            n * d_low * (n - 1 - d_low)
        } else {
            (n / 2) * d_low * (n - 1 - d_low) + (n / 2) * d_high * (n - 1 - d_high)
        };
        n * (n - 1) * (n - 2) / 6 - sum / 2
    }
}

/// The subtracted term is no larger than the binomial it is taken from.
proof fn lemma_goodman_terms(n: int)
    requires
        n >= 3,
    ensures
        0 <= n * ((n - 1) * (n - 1) / 4) <= n * (n - 1) * (n - 2),
        n * ((n - 1) * (n - 1) / 4) / 2 <= n * (n - 1) * (n - 2) / 6,
{
    let q = (n - 1) * (n - 1) / 4;
    let c = n * (n - 1) * (n - 2);
    if n == 3 {
        assert(q == 1 && c == 6 && n * q == 3) by (nonlinear_arith)
            requires
                n == 3,
                q == (n - 1) * (n - 1) / 4,
                c == n * (n - 1) * (n - 2),
        ;
    } else if n == 4 {
        assert(q == 2 && c == 24 && n * q == 8) by (nonlinear_arith)
            requires
                n == 4,
                q == (n - 1) * (n - 1) / 4,
                c == n * (n - 1) * (n - 2),
        ;
    } else {
        assert(0 <= q && 4 * q <= (n - 1) * (n - 1)) by (nonlinear_arith)
            requires
                q == (n - 1) * (n - 1) / 4,
                n >= 5,
        ;
        assert(0 <= n * q && 3 * (n * q) <= c) by (nonlinear_arith)
            requires
                4 * q <= (n - 1) * (n - 1),
                0 <= q,
                c == n * (n - 1) * (n - 2),
                n >= 5,
        ;
        assert(n * q / 2 <= c / 6);
    }
}

/// The smallest possible number of monochromatic triangles in a
/// 2-colouring of `K_n` (Goodman's formula).
pub fn goodman_minimum(n: u32) -> (r: u64)
    requires
        n * (n - 1) * (n - 2) <= u64::MAX,
    ensures
        r == goodman_min(n as int),
{
    if n < 3 {
        return 0;
    }
    let n = n as u64;
    proof {
        lemma_goodman_terms(n as int);
        assert(0 <= (n - 1) * (n - 1) <= n * (n - 1) * (n - 2)) by (nonlinear_arith)
            requires
                n >= 3,
        ;
        assert(n * (n - 1) <= n * (n - 1) * (n - 2)) by (nonlinear_arith)
            requires
                n >= 3,
        ;
    }
    let c_n_3 = n * (n - 1) * (n - 2) / 6;
    let floor_term = n * ((n - 1) * (n - 1) / 4) / 2;
    c_n_3 - floor_term
}

/// How far the actual monochromatic triangle count exceeds Goodman's
/// minimum (zero when it does not).
pub fn goodman_gap(n: u32, red_triangles: u64, blue_triangles: u64) -> (r: u64)
    requires
        n * (n - 1) * (n - 2) <= u64::MAX,
        red_triangles + blue_triangles <= u64::MAX,
    ensures
        r == if red_triangles + blue_triangles >= goodman_min(n as int) {
            red_triangles + blue_triangles - goodman_min(n as int)
        } else {
            0
        },
{
    let actual = red_triangles + blue_triangles;
    let minimum = goodman_minimum(n);
    actual.saturating_sub(minimum)
}

/// Goodman's formula agrees with the balanced degree-sum formula.
pub proof fn lemma_goodman_matches_degree_sum(n: int)
    ensures
        goodman_min(n) == goodman_by_degrees(n),
{
    if n >= 3 {
        let c = n * (n - 1) * (n - 2) / 6;
        if n % 2 == 1 {
            let a = (n - 1) / 2;
            assert(n - 1 == 2 * a);
            assert((n - 1) * (n - 1) / 4 == a * a) by (nonlinear_arith)
                requires
                    n - 1 == 2 * a,
            ;
            assert(n - 1 - a == a);
            assert(n * a * (n - 1 - a) == n * (a * a)) by (nonlinear_arith)
                requires
                    n - 1 - a == a,
            ;
        } else {
            let a = (n - 2) / 2;
            assert(n == 2 * a + 2);
            assert((n - 1) * (n - 1) / 4 == a * a + a) by (nonlinear_arith)
                requires
                    n == 2 * a + 2,
            ;
            assert((n - 1) / 2 == a);
            assert(n / 2 == a + 1);
            assert(n * (a * a + a) == (a + 1) * a * (n - 1 - a) + (a + 1) * (a + 1) * (n - 1 - (a
                + 1))) by (nonlinear_arith)
                requires
                    n == 2 * a + 2,
            ;
        }
    }
}

/// Goodman's minimum never decreases as vertices are added.
pub proof fn lemma_goodman_monotone(n: int, m: int)
    requires
        n <= m,
    ensures
        goodman_min(n) <= goodman_min(m),
    decreases m - n,
{
    if n < m {
        lemma_goodman_monotone(n, m - 1);
        lemma_goodman_step(m - 1);
    }
}

/// One more vertex adds at least as many forced triangles as it removes.
proof fn lemma_goodman_step(n: int)
    ensures
        goodman_min(n) <= goodman_min(n + 1),
{
    if 2 <= n <= 4 {
        assert(goodman_min(3) == 0 && goodman_min(4) == 0 && goodman_min(5) == 0);
    } else if n >= 5 {
        let m = n + 1;
        let c0 = n * (n - 1) * (n - 2);
        let c1 = m * (m - 1) * (m - 2);
        let q0 = (n - 1) * (n - 1) / 4;
        let q1 = (m - 1) * (m - 1) / 4;
        let f0 = c0 / 6;
        let f1 = c1 / 6;
        let t0 = n * q0 / 2;
        let t1 = m * q1 / 2;
        assert(goodman_min(n) == f0 - t0);
        assert(goodman_min(m) == f1 - t1);
        assert(6 * f1 >= c1 - 5 && 6 * f0 <= c0 && 2 * t0 >= n * q0 - 1 && 2 * t1 <= m * q1);
        assert(c1 - c0 == 3 * (n * (n - 1))) by (nonlinear_arith)
            requires
                c0 == n * (n - 1) * (n - 2),
                c1 == m * (m - 1) * (m - 2),
                m == n + 1,
        ;
        if n % 2 == 1 {
            let a = (n - 1) / 2;
            assert(n == 2 * a + 1 && a >= 2);
            assert(q0 == a * a && q1 == a * a + a) by (nonlinear_arith)
                requires
                    n == 2 * a + 1,
                    m == n + 1,
                    q0 == (n - 1) * (n - 1) / 4,
                    q1 == (m - 1) * (m - 1) / 4,
            ;
            assert(m * q1 - n * q0 == 3 * (a * a) + 2 * a && n * (n - 1) == 4 * (a * a) + 2 * a
                && a * a >= 4) by (nonlinear_arith)
                requires
                    n == 2 * a + 1,
                    m == n + 1,
                    q0 == a * a,
                    q1 == a * a + a,
                    a >= 2,
            ;
        } else {
            let a = (n - 2) / 2;
            assert(n == 2 * a + 2 && a >= 2);
            assert(q0 == a * a + a && q1 == a * a + 2 * a + 1) by (nonlinear_arith)
                requires
                    n == 2 * a + 2,
                    m == n + 1,
                    q0 == (n - 1) * (n - 1) / 4,
                    q1 == (m - 1) * (m - 1) / 4,
            ;
            assert(m * q1 - n * q0 == 3 * (a * a) + 6 * a + 3 && n * (n - 1) == 4 * (a * a) + 6 * a
                + 2 && a * a >= 4) by (nonlinear_arith)
                requires
                    n == 2 * a + 2,
                    m == n + 1,
                    q0 == a * a + a,
                    q1 == a * a + 2 * a + 1,
                    a >= 2,
            ;
        }
    }
}

} // verus!
