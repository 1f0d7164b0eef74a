//! Bit-level helpers shared by the graph representations.

use vstd::prelude::*;
use vstd::std_specs::bits::{axiom_u64_trailing_zeros, u64_trailing_zeros};

verus! {

/// Whether bit `b` of `x` is set.
pub open spec fn bit64(x: u64, b: int) -> bool {
    0 <= b < 64 && (x >> (b as u64)) & 1u64 == 1u64
}

/// `x` with its lowest set bit cleared.
pub open spec fn drop_lowest(x: u64) -> u64 {
    if x == 0 {
        0
    } else {
        x & ((x - 1) as u64)
    }
}

/// Number of set bits of `x`.
pub open spec fn popcount(x: u64) -> nat
    decreases x,
{
    if x == 0 {
        0
    } else {
        (x % 2) as nat + popcount(x / 2)
    }
}

/// Clearing the lowest set bit of a nonzero word makes it smaller.
pub proof fn lemma_drop_lowest_smaller(x: u64)
    requires
        x != 0,
    ensures
        drop_lowest(x) < x,
{
    assert(x != 0 ==> x & ((x - 1) as u64) < x) by (bit_vector);
}

/// Clearing the lowest set bit removes exactly one set bit.
pub proof fn lemma_popcount_drop_lowest(x: u64)
    requires
        x != 0,
    ensures
        popcount(x) == 1 + popcount(drop_lowest(x)),
    decreases x,
{
    assert((x % 2 == 1 ==> x & ((x - 1) as u64) == (x - 1) as u64 && ((x - 1) as u64) / 2 == x / 2
        && ((x - 1) as u64) % 2 == 0) && (x % 2 == 0 && x != 0 ==> x / 2 != 0 && (x & ((x - 1) as u64))
        / 2 == (x / 2) & (((x / 2) - 1) as u64) && (x & ((x - 1) as u64)) % 2 == 0)) by (bit_vector);
    if x % 2 == 1 {
        let y = (x - 1) as u64;
        if y != 0 {
            assert(popcount(y) == (y % 2) as nat + popcount(y / 2));
        }
    } else {
        let h = x / 2;
        lemma_popcount_drop_lowest(h);
        let d = x & ((x - 1) as u64);
        if d != 0 {
            assert(popcount(d) == (d % 2) as nat + popcount(d / 2));
        } else {
            assert(drop_lowest(h) == 0);
        }
    }
}

/// A 64-bit word has at most 64 set bits.
pub proof fn lemma_popcount_le_64(x: u64)
    ensures
        popcount(x) <= 64,
{
    lemma_popcount_bounded(x, 64);
}

/// A word whose bits at and above `d` are clear has at most `d` set bits.
pub proof fn lemma_popcount_bounded(x: u64, d: nat)
    requires
        d <= 64,
        d < 64 ==> x >> (d as u64) == 0,
    ensures
        popcount(x) <= d,
    decreases d,
{
    if x != 0 {
        if d == 0 {
            assert(x >> 0u64 == x) by (bit_vector);
        } else {
            let e = (d - 1) as u64;
            assert(e < 64 && (e + 1 < 64 ==> x >> ((e + 1) as u64) == 0) ==> (x / 2) >> e == 0)
                by (bit_vector);
            lemma_popcount_bounded(x / 2, (d - 1) as nat);
        }
    }
}

/// Counts the set bits of `x` (the number `u64::count_ones` reports).
pub fn count_ones64(x: u64) -> (r: u32)
    ensures
        r == popcount(x),
        r <= 64,
{
    proof {
        lemma_popcount_le_64(x);
    }
    let mut m = x;
    let mut c: u32 = 0;
    while m != 0
        invariant
            c + popcount(m) == popcount(x),
            popcount(x) <= 64,
        decreases m,
    {
        proof {
            lemma_drop_lowest_smaller(m);
            lemma_popcount_drop_lowest(m);
        }
        m = m & (m - 1);
        c = c + 1;
    }
    c
}


/// Bits of a conjunction and of a disjunction of two words.
pub proof fn lemma_bit_ops(x: u64, y: u64)
    ensures
        forall|i: int| #[trigger] bit64(x & y, i) == (bit64(x, i) && bit64(y, i)),
        forall|i: int| #[trigger] bit64(x | y, i) == (bit64(x, i) || bit64(y, i)),
        forall|i: int| !#[trigger] bit64(0u64, i),
{
    assert forall|i: int|
        #![trigger bit64(x & y, i)]
        #![trigger bit64(x | y, i)]
        #![trigger bit64(0u64, i)]
        bit64(x & y, i) == (bit64(x, i) && bit64(y, i)) && bit64(x | y, i) == (bit64(x, i) || bit64(
            y,
            i,
        )) && !bit64(0u64, i) by {
        if 0 <= i < 64 {
            let ii = i as u64;
            assert(ii < 64 ==> (0u64 >> ii) & 1u64 == 0u64 && ((((x & y) >> ii) & 1u64 == 1u64) == ((x >> ii) & 1u64 == 1u64 && (y
                >> ii) & 1u64 == 1u64) && (((x | y) >> ii) & 1u64 == 1u64) == ((x >> ii) & 1u64
                == 1u64 || (y >> ii) & 1u64 == 1u64))) by (bit_vector);
        }
    }
}

/// If the bits of `c` below `t` are clear, so is `c` masked to them.
proof fn lemma_low_clear(c: u64, t: u64)
    requires
        t < 64,
        forall|j: u64| j < t ==> #[trigger] ((c >> j) & 1u64) == 0u64,
    ensures
        c & (((1u64 << t) - 1) as u64) == 0,
    decreases t,
{
    let s = (t - 1) as u64;
    if t > 0 {
        lemma_low_clear(c, s);
        assert((c >> s) & 1u64 == 0u64);
    }
    assert((t == 0 ==> c & (((1u64 << t) - 1) as u64) == 0) && (0 < t && t < 64 && s == t - 1 && c
        & (((1u64 << s) - 1) as u64) == 0 && (c >> s) & 1u64 == 0u64 ==> c & (((1u64 << t) - 1)
        as u64) == 0)) by (bit_vector);
}

/// Clearing the lowest set bit removes exactly the bit at position
/// `trailing_zeros(c)`, the lowest set bit of `c`.
pub proof fn lemma_drop_lowest_bits(c: u64)
    requires
        c != 0,
    ensures
        u64_trailing_zeros(c) < 64,
        bit64(c, u64_trailing_zeros(c) as int),
        forall|x: int| #[trigger]
            bit64(drop_lowest(c), x) == (bit64(c, x) && x != u64_trailing_zeros(c)),
        forall|x: int| #[trigger] bit64(c, x) ==> u64_trailing_zeros(c) <= x,
{
    axiom_u64_trailing_zeros(c);
    let t = u64_trailing_zeros(c) as u64;
    lemma_low_clear(c, t);
    assert forall|x: int| #[trigger]
        bit64(drop_lowest(c), x) == (bit64(c, x) && x != t) by {
        if 0 <= x < 64 {
            let xx = x as u64;
            assert(t < 64 && xx < 64 && (c >> t) & 1u64 == 1u64 && c & (((1u64 << t) - 1) as u64)
                == 0 ==> (((c & ((c - 1) as u64)) >> xx) & 1u64 == 1u64) == ((c >> xx) & 1u64
                == 1u64 && xx != t)) by (bit_vector);
        }
    }
    assert forall|x: int| #[trigger] bit64(c, x) implies t <= x by {
        if x < t {
            let xx = x as u64;
            assert((c >> xx) & 1u64 == 0u64);
        }
    }
}

/// An increasing sequence of bit positions of `c` is no longer than the
/// number of set bits of `c`.
pub proof fn lemma_popcount_ge_increasing(c: u64, t: Seq<int>)
    requires
        forall|i: int| 0 <= i < t.len() ==> #[trigger] bit64(c, t[i]),
        forall|i: int, j: int| 0 <= i < j < t.len() ==> t[i] < t[j],
    ensures
        t.len() <= popcount(c),
    decreases c,
{
    if t.len() > 0 {
        assert(bit64(c, t[0]));
        assert(c != 0) by {
            lemma_bit_ops(c, c);
        }
        lemma_drop_lowest_bits(c);
        lemma_drop_lowest_smaller(c);
        lemma_popcount_drop_lowest(c);
        let w = u64_trailing_zeros(c) as int;
        let d = drop_lowest(c);
        if t[0] == w {
            let r = t.drop_first();
            assert forall|i: int| 0 <= i < r.len() implies #[trigger] bit64(d, r[i]) by {
                assert(t[0] < t[i + 1]);
                assert(bit64(c, t[i + 1]));
            }
            lemma_popcount_ge_increasing(d, r);
        } else {
            assert forall|i: int| 0 <= i < t.len() implies #[trigger] bit64(d, t[i]) by {
                assert(bit64(c, t[i]));
                assert(w <= t[0]);
                if i > 0 {
                    assert(t[0] < t[i]);
                }
            }
            lemma_popcount_ge_increasing(d, t);
        }
    }
}


/// Two words agreeing on their bits from position `i` up agree when shifted
/// down by `i`.
proof fn lemma_shift_agree(x: u64, y: u64, i: u64)
    requires
        i < 64,
        forall|b: int| 0 <= b < 64 ==> #[trigger] bit64(x, b) == bit64(y, b),
    ensures
        x >> i == y >> i,
    decreases 64 - i,
{
    if i < 63 {
        lemma_shift_agree(x, y, (i + 1) as u64);
    }
    assert(bit64(x, i as int) == bit64(y, i as int));
    assert(i < 64 ==> (x >> 63u64) == ((x >> 63u64) & 1u64) && (y >> 63u64) == ((y >> 63u64) & 1u64)
        && (i < 63 ==> (x >> i) == (((x >> ((i + 1) as u64)) << 1u64) | ((x >> i) & 1u64)) && (y
        >> i) == (((y >> ((i + 1) as u64)) << 1u64) | ((y >> i) & 1u64))) && x >> 0u64 == x && y
        >> 0u64 == y && (((x >> i) & 1u64 == 1u64) == ((y >> i) & 1u64 == 1u64) ==> (x >> i) & 1u64
        == (y >> i) & 1u64)) by (bit_vector);
}

/// Words with the same bits are equal.
pub proof fn lemma_bits_ext(x: u64, y: u64)
    requires
        forall|b: int| 0 <= b < 64 ==> #[trigger] bit64(x, b) == bit64(y, b),
    ensures
        x == y,
{
    lemma_shift_agree(x, y, 0);
    assert(x >> 0u64 == x && y >> 0u64 == y) by (bit_vector);
}

} // verus!
