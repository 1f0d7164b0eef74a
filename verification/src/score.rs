//! The integer part of a graph's leaderboard score: for each clique size
//! from `max_k` down to 3 the `(max, min)` of the graph's and the
//! complement's clique counts, then the Goodman gap, as big-endian 64-bit
//! words. Lower is better; the bytes compare as the words do.

use vstd::prelude::*;

use crate::engine::bytes_less;
use crate::histogram::{CliqueHistogram, HistogramTier, tier_key};

verus! {

/// The first of the first `i` tiers for clique size `k`, if any.
pub open spec fn first_tier_upto(tiers: Seq<HistogramTier>, i: int, k: u32) -> Option<HistogramTier>
    decreases i,
{
    if i <= 0 {
        None
    } else {
        match first_tier_upto(tiers, i - 1, k) {
            Some(t) => Some(t),
            None => if tiers[i - 1].k == k {
                Some(tiers[i - 1])
            } else {
                None
            },
        }
    }
}

/// The `(max, min)` counts of the first tier for `k`; `(0, 0)` without one.
pub open spec fn tier_pair(tiers: Seq<HistogramTier>, k: u32) -> (u64, u64) {
    match first_tier_upto(tiers, tiers.len() as int, k) {
        Some(t) => if t.red >= t.blue {
            (t.red, t.blue)
        } else {
            (t.blue, t.red)
        },
        None => (0, 0),
    }
}

/// The score words of the tiers from `hi` down to `lo`.
pub open spec fn tier_words(tiers: Seq<HistogramTier>, hi: int, lo: int) -> Seq<u64>
    decreases hi - lo + 1,
{
    if hi < lo {
        Seq::empty()
    } else {
        seq![tier_pair(tiers, hi as u32).0, tier_pair(tiers, hi as u32).1] + tier_words(tiers, hi - 1, lo)
    }
}

/// The words of a score: the tiers from `max_k` down to 3, then the
/// Goodman gap.
pub open spec fn score_words(tiers: Seq<HistogramTier>, max_k: int, gap: u64) -> Seq<u64> {
    tier_words(tiers, max_k, 3).push(gap)
}

/// Byte `i` (most significant first) of `x`.
pub open spec fn be_byte(x: u64, i: int) -> u8 {
    ((x >> ((56 - 8 * i) as u64)) & 0xffu64) as u8
}

/// The eight big-endian bytes of `x`.
pub open spec fn be_bytes(x: u64) -> Seq<u8> {
    Seq::new(8, |i: int| be_byte(x, i))
}

/// The big-endian bytes of the words, one after another.
pub open spec fn words_bytes(ws: Seq<u64>) -> Seq<u8>
    decreases ws.len(),
{
    if ws.len() == 0 {
        Seq::empty()
    } else {
        be_bytes(ws[0]) + words_bytes(ws.drop_first())
    }
}

/// Lexicographic order on words of equal count.
pub open spec fn words_less(a: Seq<u64>, b: Seq<u64>) -> bool
    decreases a.len(),
{
    if a.len() == 0 || b.len() == 0 {
        false
    } else if a[0] != b[0] {
        a[0] < b[0]
    } else {
        words_less(a.drop_first(), b.drop_first())
    }
}

/// The tiers from `hi` down to `lo` are those down to `lo + 1` followed by
/// tier `lo`.
proof fn lemma_tier_words_append(tiers: Seq<HistogramTier>, hi: int, lo: int)
    requires
        lo <= hi,
    ensures
        tier_words(tiers, hi, lo) == tier_words(tiers, hi, lo + 1) + seq![tier_pair(tiers, lo as u32).0, tier_pair(tiers, lo as u32).1],
    decreases hi - lo,
{
    if hi == lo {
        assert(tier_words(tiers, hi - 1, lo) =~= Seq::<u64>::empty());
        assert(tier_words(tiers, hi, lo + 1) =~= Seq::<u64>::empty());
        assert(tier_words(tiers, hi, lo) =~= seq![tier_pair(tiers, hi as u32).0, tier_pair(tiers, hi as u32).1]);
    } else {
        lemma_tier_words_append(tiers, hi - 1, lo);
        let p = seq![tier_pair(tiers, hi as u32).0, tier_pair(tiers, hi as u32).1];
        let q = seq![tier_pair(tiers, lo as u32).0, tier_pair(tiers, lo as u32).1];
        assert(tier_words(tiers, hi, lo) == p + tier_words(tiers, hi - 1, lo));
        assert(tier_words(tiers, hi, lo + 1) == p + tier_words(tiers, hi - 1, lo + 1));
        assert(p + (tier_words(tiers, hi - 1, lo + 1) + q) =~= (p + tier_words(tiers, hi - 1, lo + 1)) + q);
    }
}

/// The bytes of one more word follow those of the words before it.
proof fn lemma_words_bytes_push(ws: Seq<u64>, w: u64)
    ensures
        words_bytes(ws.push(w)) == words_bytes(ws) + be_bytes(w),
    decreases ws.len(),
{
    if ws.len() == 0 {
        assert(ws.push(w).drop_first() =~= Seq::<u64>::empty());
        assert(ws.push(w)[0] == w);
        assert(words_bytes(ws.push(w).drop_first()) =~= Seq::<u8>::empty());
        assert(words_bytes(ws.push(w)) == be_bytes(w) + words_bytes(ws.push(w).drop_first()));
        assert(words_bytes(ws.push(w)) =~= be_bytes(w));
        assert(words_bytes(ws) =~= Seq::<u8>::empty());
        assert(words_bytes(ws) + be_bytes(w) =~= be_bytes(w));
    } else {
        assert(ws.push(w).drop_first() =~= ws.drop_first().push(w));
        lemma_words_bytes_push(ws.drop_first(), w);
        assert(words_bytes(ws.push(w)) == be_bytes(ws[0]) + words_bytes(ws.drop_first().push(w)));
        assert(be_bytes(ws[0]) + (words_bytes(ws.drop_first()) + be_bytes(w)) =~= (be_bytes(ws[0]) + words_bytes(
            ws.drop_first(),
        )) + be_bytes(w));
    }
}

/// The `(max, min)` counts of the first tier for `k`.
fn find_tier_pair(tiers: &Vec<HistogramTier>, k: u32) -> (r: (u64, u64))
    ensures
        r == tier_pair(tiers@, k),
{
    let mut i: usize = 0;
    while i < tiers.len()
        invariant
            i <= tiers@.len(),
            first_tier_upto(tiers@, i as int, k) is None,
        decreases tiers@.len() - i,
    {
        if tiers[i].k == k {
            proof {
                assert(first_tier_upto(tiers@, i + 1, k) == Some(tiers@[i as int]));
                lemma_first_tier_stays(tiers@, i + 1, k);
            }
            return tier_key(tiers[i].red, tiers[i].blue);
        }
        i = i + 1;
    }
    (0, 0)
}

/// Once found among the first `i` tiers, the first tier for `k` stays.
proof fn lemma_first_tier_stays(tiers: Seq<HistogramTier>, i: int, k: u32)
    requires
        0 <= i <= tiers.len(),
        first_tier_upto(tiers, i, k) is Some,
    ensures
        first_tier_upto(tiers, tiers.len() as int, k) == first_tier_upto(tiers, i, k),
    decreases tiers.len() - i,
{
    if i < tiers.len() {
        assert(first_tier_upto(tiers, i + 1, k) == first_tier_upto(tiers, i, k));
        lemma_first_tier_stays(tiers, i + 1, k);
    }
}

/// The eight big-endian bytes of `x`.
fn push_be(buf: &mut Vec<u8>, x: u64)
    ensures
        final(buf)@ == old(buf)@ + be_bytes(x),
{
    let ghost b0 = buf@;
    let mut i: u64 = 0;
    while i < 8
        invariant
            i <= 8,
            buf@ == b0 + be_bytes(x).take(i as int),
        decreases 8 - i,
    {
        let byte = ((x >> (56 - 8 * i)) & 0xff) as u8;
        buf.push(byte);
        proof {
            assert(byte == be_byte(x, i as int));
            assert(be_bytes(x).take(i + 1) =~= be_bytes(x).take(i as int).push(be_byte(x, i as int)));
            assert(buf@ =~= b0 + be_bytes(x).take(i + 1));
        }
        i = i + 1;
    }
    assert(be_bytes(x).take(8) =~= be_bytes(x));
}

/// The integer part of a graph's score bytes: for each clique size from
/// `max_k` down to 3 the `(max, min)` counts of its tier (`(0, 0)` without
/// one), then the Goodman gap, each as eight big-endian bytes. The score
/// adds the inverse automorphism order and the CID after these.
pub fn score_prefix_bytes(histogram: &CliqueHistogram, goodman_gap: u64, max_k: u32) -> (r: Vec<u8>)
    ensures
        r@ == words_bytes(score_words(histogram.tiers@, max_k as int, goodman_gap)),
{
    let mut words: Vec<u64> = Vec::new();
    let mut k: u32 = max_k;
    proof {
        assert(tier_words(histogram.tiers@, max_k as int, max_k + 1) =~= Seq::<u64>::empty());
    }
    while k >= 3
        invariant
            k <= max_k,
            max_k >= 3 ==> k >= 2,
            max_k < 3 ==> k == max_k,
            words@ == tier_words(histogram.tiers@, max_k as int, k + 1),
        decreases k,
    {
        let p = find_tier_pair(&histogram.tiers, k);
        words.push(p.0);
        words.push(p.1);
        proof {
            lemma_tier_words_append(histogram.tiers@, max_k as int, k as int);
            assert(words@ =~= tier_words(histogram.tiers@, max_k as int, k as int));
        }
        k = k - 1;
    }
    proof {
        if max_k >= 3 {
            assert(k == 2);
        } else {
            assert(tier_words(histogram.tiers@, max_k as int, 3) =~= Seq::<u64>::empty());
            assert(tier_words(histogram.tiers@, max_k as int, k + 1) =~= Seq::<u64>::empty());
        }
    }
    words.push(goodman_gap);
    let mut buf: Vec<u8> = Vec::new();
    let mut i: usize = 0;
    proof {
        assert(words_bytes(words@.take(0)) =~= Seq::<u8>::empty());
    }
    while i < words.len()
        invariant
            i <= words@.len(),
            buf@ == words_bytes(words@.take(i as int)),
        decreases words@.len() - i,
    {
        push_be(&mut buf, words[i]);
        proof {
            lemma_words_bytes_push(words@.take(i as int), words@[i as int]);
            assert(words@.take(i + 1) =~= words@.take(i as int).push(words@[i as int]));
        }
        i = i + 1;
    }
    assert(words@.take(i as int) =~= words@);
    buf
}

/// Big-endian bytes compare as the numbers do, and only equal numbers
/// have equal bytes.
pub proof fn lemma_be_order(x: u64, y: u64)
    ensures
        bytes_less(be_bytes(x), be_bytes(y)) == (x < y),
        (be_bytes(x) == be_bytes(y)) == (x == y),
{
    let a = be_bytes(x);
    let b = be_bytes(y);
    assert(((x >> 56u64) & 0xffu64) < 256 && ((y >> 56u64) & 0xffu64) < 256 && ((x >> 48u64) & 0xffu64) < 256 && ((y >> 48u64) & 0xffu64) < 256 && ((x >> 40u64) & 0xffu64) < 256 && ((y >> 40u64) & 0xffu64) < 256 && ((x >> 32u64) & 0xffu64) < 256 && ((y >> 32u64) & 0xffu64) < 256 && ((x >> 24u64) & 0xffu64) < 256 && ((y >> 24u64) & 0xffu64) < 256 && ((x >> 16u64) & 0xffu64) < 256 && ((y >> 16u64) & 0xffu64) < 256 && ((x >> 8u64) & 0xffu64) < 256 && ((y >> 8u64) & 0xffu64) < 256 && ((x >> 0u64) & 0xffu64) < 256 && ((y >> 0u64) & 0xffu64) < 256 && (x < y) == ((((x >> 56u64) & 0xffu64) < ((y >> 56u64) & 0xffu64)) || (((x >> 56u64) & 0xffu64) == ((y >> 56u64) & 0xffu64) && ((x >> 48u64) & 0xffu64) < ((y >> 48u64) & 0xffu64)) || (((x >> 56u64) & 0xffu64) == ((y >> 56u64) & 0xffu64) && ((x >> 48u64) & 0xffu64) == ((y >> 48u64) & 0xffu64) && ((x >> 40u64) & 0xffu64) < ((y >> 40u64) & 0xffu64)) || (((x >> 56u64) & 0xffu64) == ((y >> 56u64) & 0xffu64) && ((x >> 48u64) & 0xffu64) == ((y >> 48u64) & 0xffu64) && ((x >> 40u64) & 0xffu64) == ((y >> 40u64) & 0xffu64) && ((x >> 32u64) & 0xffu64) < ((y >> 32u64) & 0xffu64)) || (((x >> 56u64) & 0xffu64) == ((y >> 56u64) & 0xffu64) && ((x >> 48u64) & 0xffu64) == ((y >> 48u64) & 0xffu64) && ((x >> 40u64) & 0xffu64) == ((y >> 40u64) & 0xffu64) && ((x >> 32u64) & 0xffu64) == ((y >> 32u64) & 0xffu64) && ((x >> 24u64) & 0xffu64) < ((y >> 24u64) & 0xffu64)) || (((x >> 56u64) & 0xffu64) == ((y >> 56u64) & 0xffu64) && ((x >> 48u64) & 0xffu64) == ((y >> 48u64) & 0xffu64) && ((x >> 40u64) & 0xffu64) == ((y >> 40u64) & 0xffu64) && ((x >> 32u64) & 0xffu64) == ((y >> 32u64) & 0xffu64) && ((x >> 24u64) & 0xffu64) == ((y >> 24u64) & 0xffu64) && ((x >> 16u64) & 0xffu64) < ((y >> 16u64) & 0xffu64)) || (((x >> 56u64) & 0xffu64) == ((y >> 56u64) & 0xffu64) && ((x >> 48u64) & 0xffu64) == ((y >> 48u64) & 0xffu64) && ((x >> 40u64) & 0xffu64) == ((y >> 40u64) & 0xffu64) && ((x >> 32u64) & 0xffu64) == ((y >> 32u64) & 0xffu64) && ((x >> 24u64) & 0xffu64) == ((y >> 24u64) & 0xffu64) && ((x >> 16u64) & 0xffu64) == ((y >> 16u64) & 0xffu64) && ((x >> 8u64) & 0xffu64) < ((y >> 8u64) & 0xffu64)) || (((x >> 56u64) & 0xffu64) == ((y >> 56u64) & 0xffu64) && ((x >> 48u64) & 0xffu64) == ((y >> 48u64) & 0xffu64) && ((x >> 40u64) & 0xffu64) == ((y >> 40u64) & 0xffu64) && ((x >> 32u64) & 0xffu64) == ((y >> 32u64) & 0xffu64) && ((x >> 24u64) & 0xffu64) == ((y >> 24u64) & 0xffu64) && ((x >> 16u64) & 0xffu64) == ((y >> 16u64) & 0xffu64) && ((x >> 8u64) & 0xffu64) == ((y >> 8u64) & 0xffu64) && ((x >> 0u64) & 0xffu64) < ((y >> 0u64) & 0xffu64))) && (x == y) == (((x >> 56u64) & 0xffu64) == ((y >> 56u64) & 0xffu64) && ((x >> 48u64) & 0xffu64) == ((y >> 48u64) & 0xffu64) && ((x >> 40u64) & 0xffu64) == ((y >> 40u64) & 0xffu64) && ((x >> 32u64) & 0xffu64) == ((y >> 32u64) & 0xffu64) && ((x >> 24u64) & 0xffu64) == ((y >> 24u64) & 0xffu64) && ((x >> 16u64) & 0xffu64) == ((y >> 16u64) & 0xffu64) && ((x >> 8u64) & 0xffu64) == ((y >> 8u64) & 0xffu64) && ((x >> 0u64) & 0xffu64) == ((y >> 0u64) & 0xffu64))) by (bit_vector);
    assert forall|i: int| 0 <= i < 8 implies a[i] as int == ((x >> ((56 - 8 * i) as u64)) & 0xffu64) as int && b[i] as int
        == ((y >> ((56 - 8 * i) as u64)) & 0xffu64) as int by {
        assert(i == 0 || i == 1 || i == 2 || i == 3 || i == 4 || i == 5 || i == 6 || i == 7);
    }
    assert(a[0] as int == ((x >> 56u64) & 0xffu64) as int && b[0] as int == ((y >> 56u64) & 0xffu64) as int);
    assert(a[1] as int == ((x >> 48u64) & 0xffu64) as int && b[1] as int == ((y >> 48u64) & 0xffu64) as int);
    assert(a[2] as int == ((x >> 40u64) & 0xffu64) as int && b[2] as int == ((y >> 40u64) & 0xffu64) as int);
    assert(a[3] as int == ((x >> 32u64) & 0xffu64) as int && b[3] as int == ((y >> 32u64) & 0xffu64) as int);
    assert(a[4] as int == ((x >> 24u64) & 0xffu64) as int && b[4] as int == ((y >> 24u64) & 0xffu64) as int);
    assert(a[5] as int == ((x >> 16u64) & 0xffu64) as int && b[5] as int == ((y >> 16u64) & 0xffu64) as int);
    assert(a[6] as int == ((x >> 8u64) & 0xffu64) as int && b[6] as int == ((y >> 8u64) & 0xffu64) as int);
    assert(a[7] as int == ((x >> 0u64) & 0xffu64) as int && b[7] as int == ((y >> 0u64) & 0xffu64) as int);
    lemma_bytes_less_eight(a, b);
    if x == y {
        assert(a =~= b);
    }
    if a == b {
        assert(a[0] == b[0] && a[1] == b[1] && a[2] == b[2] && a[3] == b[3]);
        assert(a[4] == b[4] && a[5] == b[5] && a[6] == b[6] && a[7] == b[7]);
    }
}

/// The order of two byte strings of eight bytes, byte by byte.
proof fn lemma_bytes_less_eight(a: Seq<u8>, b: Seq<u8>)
    requires
        a.len() == 8,
        b.len() == 8,
    ensures
        bytes_less(a, b) == ((a[0] < b[0]) || (a[0] == b[0] && a[1] < b[1]) || (a[0] == b[0] && a[1] == b[1] && a[2] < b[2]) || (a[0] == b[0] && a[1] == b[1] && a[2] == b[2] && a[3] < b[3]) || (a[0] == b[0] && a[1] == b[1] && a[2] == b[2] && a[3] == b[3] && a[4] < b[4]) || (a[0] == b[0] && a[1] == b[1] && a[2] == b[2] && a[3] == b[3] && a[4] == b[4] && a[5] < b[5]) || (a[0] == b[0] && a[1] == b[1] && a[2] == b[2] && a[3] == b[3] && a[4] == b[4] && a[5] == b[5] && a[6] < b[6]) || (a[0] == b[0] && a[1] == b[1] && a[2] == b[2] && a[3] == b[3] && a[4] == b[4] && a[5] == b[5] && a[6] == b[6] && a[7] < b[7])),
{
    lemma_bytes_less_prefix(a, b, 8);
    if exists|j: int| 0 <= j < 8 && a.take(j) == b.take(j) && #[trigger] a[j] < b[j] {
        let j = choose|j: int| 0 <= j < 8 && a.take(j) == b.take(j) && #[trigger] a[j] < b[j];
        assert forall|i: int| 0 <= i < j implies a[i] == b[i] by {
            assert(a.take(j)[i] == b.take(j)[i]);
        }
    }
    assert forall|j: int| 0 <= j < 8 && (forall|i: int| 0 <= i < j ==> a[i] == b[i]) && a[j] < b[j] implies a.take(j) == b.take(j)
        && #[trigger] a[j] < b[j] by {
        assert(a.take(j) =~= b.take(j));
    }
    if a[0] < b[0] {
        assert(a.take(0) =~= b.take(0));
    }
}

/// The order of two byte strings of equal length `len`: the first
/// position where they differ decides, and equal ones are not less.
proof fn lemma_bytes_less_prefix(a: Seq<u8>, b: Seq<u8>, len: int)
    requires
        a.len() == len,
        b.len() == len,
    ensures
        bytes_less(a, b) == exists|j: int| 0 <= j < len && a.take(j) == b.take(j) && #[trigger] a[j] < b[j],
    decreases len,
{
    if len > 0 {
        lemma_bytes_less_prefix(a.drop_first(), b.drop_first(), len - 1);
        if a[0] != b[0] {
            if a[0] < b[0] {
                assert(a.take(0) =~= b.take(0));
            } else {
                assert forall|j: int| 0 <= j < len && a.take(j) == b.take(j) implies !(a[j] < b[j]) by {
                    if j > 0 {
                        assert(a.take(j)[0] == b.take(j)[0]);
                    }
                }
            }
        } else {
            let a1 = a.drop_first();
            let b1 = b.drop_first();
            if exists|j: int| 0 <= j < len - 1 && a1.take(j) == b1.take(j) && #[trigger] a1[j] < b1[j] {
                let j = choose|j: int| 0 <= j < len - 1 && a1.take(j) == b1.take(j) && #[trigger] a1[j] < b1[j];
                assert(a.take(j + 1) =~= seq![a[0]] + a1.take(j));
                assert(b.take(j + 1) =~= seq![b[0]] + b1.take(j));
                assert(a[j + 1] < b[j + 1]);
            }
            if exists|j: int| 0 <= j < len && a.take(j) == b.take(j) && #[trigger] a[j] < b[j] {
                let j = choose|j: int| 0 <= j < len && a.take(j) == b.take(j) && #[trigger] a[j] < b[j];
                assert(j > 0);
                assert(a1.take(j - 1) =~= a.take(j).drop_first());
                assert(b1.take(j - 1) =~= b.take(j).drop_first());
                assert(a1[j - 1] < b1[j - 1]);
            }
        }
    }
}

/// Byte strings that start with parts of equal length compare by those
/// parts first, then by what follows.
proof fn lemma_concat_less(a: Seq<u8>, b: Seq<u8>, c: Seq<u8>, d: Seq<u8>)
    requires
        a.len() == c.len(),
    ensures
        bytes_less(a + b, c + d) == if a == c {
            bytes_less(b, d)
        } else {
            bytes_less(a, c)
        },
    decreases a.len(),
{
    if a.len() == 0 {
        assert(a =~= c);
        assert(a + b =~= b);
        assert(c + d =~= d);
    } else {
        assert((a + b)[0] == a[0] && (c + d)[0] == c[0]);
        assert((a + b).drop_first() =~= a.drop_first() + b);
        assert((c + d).drop_first() =~= c.drop_first() + d);
        lemma_concat_less(a.drop_first(), b, c.drop_first(), d);
        if a[0] == c[0] {
            if a.drop_first() == c.drop_first() {
                assert forall|i: int| 0 <= i < a.len() implies a[i] == c[i] by {
                    if i > 0 {
                        assert(a[i] == a.drop_first()[i - 1] && c[i] == c.drop_first()[i - 1]);
                    }
                }
                assert(a =~= c);
            }
            if a == c {
                assert(a.drop_first() =~= c.drop_first());
            }
        }
    }
}

/// Words of equal count: their bytes compare as the words do.
pub proof fn lemma_words_order(xs: Seq<u64>, ys: Seq<u64>)
    requires
        xs.len() == ys.len(),
    ensures
        bytes_less(words_bytes(xs), words_bytes(ys)) == words_less(xs, ys),
    decreases xs.len(),
{
    if xs.len() == 0 {
        assert(words_bytes(xs) =~= Seq::<u8>::empty());
        assert(words_bytes(ys) =~= Seq::<u8>::empty());
    } else {
        lemma_words_order(xs.drop_first(), ys.drop_first());
        lemma_be_order(xs[0], ys[0]);
        lemma_concat_less(be_bytes(xs[0]), words_bytes(xs.drop_first()), be_bytes(ys[0]), words_bytes(ys.drop_first()));
    }
}

/// The tiers from `hi` down to `lo` give two words each.
proof fn lemma_tier_words_len(tiers: Seq<HistogramTier>, hi: int, lo: int)
    ensures
        tier_words(tiers, hi, lo).len() == if hi < lo {
            0
        } else {
            2 * (hi - lo + 1)
        },
    decreases hi - lo + 1,
{
    if hi >= lo {
        lemma_tier_words_len(tiers, hi - 1, lo);
    }
}

/// The score bytes keep the score order: with the same `max_k`, one
/// score's bytes come first exactly when its words are lexicographically
/// lower, tier by tier from `max_k` down to 3 and then by the Goodman gap.
pub proof fn lemma_score_bytes_order(ta: Seq<HistogramTier>, tb: Seq<HistogramTier>, max_k: int, ga: u64, gb: u64)
    ensures
        bytes_less(words_bytes(score_words(ta, max_k, ga)), words_bytes(score_words(tb, max_k, gb))) == words_less(
            score_words(ta, max_k, ga),
            score_words(tb, max_k, gb),
        ),
{
    lemma_tier_words_len(ta, max_k, 3);
    lemma_tier_words_len(tb, max_k, 3);
    lemma_words_order(score_words(ta, max_k, ga), score_words(tb, max_k, gb));
}

} // verus!
