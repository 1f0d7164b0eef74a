//! Packed upper-triangular adjacency matrix for undirected simple graphs.
//!
//! For `n` vertices the matrix stores `n*(n-1)/2` bits packed into bytes,
//! most significant bit first within each byte. The bit for the pair
//! `(i, j)` with `i < j` sits at index `i*n - i*(i+1)/2 + (j - i - 1)`.

use vstd::prelude::*;

use crate::bits::bit64;

verus! {

/// First bit index of row `i`: the pairs `(r, s)` with `r < i` come before it.
pub open spec fn row_start(n: int, i: int) -> int
    decreases i,
{
    if i <= 0 {
        0
    } else {
        row_start(n, i - 1) + (n - i)
    }
}

/// Position of the pair `(i, j)`, `i < j`, in the packed bit string.
pub open spec fn pair_index(n: int, i: int, j: int) -> int {
    row_start(n, i) + (j - i - 1)
}

/// Number of unordered vertex pairs of a graph on `n` vertices.
pub open spec fn num_pairs(n: int) -> int {
    if n < 2 {
        0
    } else {
        n * (n - 1) / 2
    }
}

/// Number of bytes that hold the packed pairs of an `n`-vertex graph.
pub open spec fn bytes_for(n: int) -> int {
    (num_pairs(n) + 7) / 8
}

/// Bit `idx` of a packed byte string, most significant bit first.
pub open spec fn packed_bit(bits: Seq<u8>, idx: int) -> bool {
    (bits[idx / 8] >> ((7 - idx % 8) as u8)) & 1u8 == 1u8
}

/// `p` is a pair `(i, j)` of vertices of an `n`-vertex graph with `i < j`.
pub open spec fn is_vertex_pair(n: int, p: (int, int)) -> bool {
    0 <= p.0 < p.1 < n
}

/// All unordered vertex pairs of an `n`-vertex graph, as `(low, high)`.
pub open spec fn all_pairs(n: int) -> Set<(int, int)> {
    Set::new(|p: (int, int)| is_vertex_pair(n, p))
}

/// The pair `{i, j}` written with its smaller vertex first.
pub open spec fn ordered(i: int, j: int) -> (int, int) {
    if i < j {
        (i, j)
    } else {
        (j, i)
    }
}

/// The pair `e` comes before row `i`, column `j` in row-major order.
pub open spec fn visited(e: (int, int), i: int, j: int) -> bool {
    e.0 < i || (e.0 == i && e.1 < j)
}

/// The edges of `edges` that come before row `i`, column `j` in
/// row-major order.
pub open spec fn edges_before(edges: Set<(int, int)>, i: int, j: int) -> Set<(int, int)> {
    Set::new(|p: (int, int)| edges.contains(p) && visited(p, i, j))
}

/// The edges obtained by relabelling each edge `(a, b)` of `edges` to
/// `{perm[a], perm[b]}`; a pair whose two labels coincide gives no edge.
pub open spec fn relabel(edges: Set<(int, int)>, perm: Seq<u32>) -> Set<(int, int)> {
    Set::new(
        |p: (int, int)|
            exists|e: (int, int)|
                #![trigger edges.contains(e)]
                edges.contains(e) && perm[e.0] != perm[e.1] && ordered(
                    perm[e.0] as int,
                    perm[e.1] as int,
                ) == p,
    )
}

/// The vertex count is small enough that `n * (n - 1)` fits in a `usize`.
pub open spec fn size_fits(n: int) -> bool {
    n * (n - 1) <= usize::MAX
}

/// Packed upper-triangular adjacency matrix for an undirected graph.
///
/// Its view is the set of edges, each written as `(low, high)`.
#[derive(Clone, Debug, PartialEq, Eq)]
pub struct AdjacencyMatrix {
    n: u32,
    bits: Vec<u8>,
}

impl View for AdjacencyMatrix {
    type V = Set<(int, int)>;

    closed spec fn view(&self) -> Set<(int, int)> {
        Set::new(
            |p: (int, int)|
                is_vertex_pair(self.n as int, p) && packed_bit(
                    self.bits@,
                    pair_index(self.n as int, p.0, p.1),
                ),
        )
    }
}

/// Row starts grow by one row length per row.
pub proof fn lemma_row_start_closed(n: int, i: int)
    requires
        0 <= i,
    ensures
        2 * row_start(n, i) == 2 * i * n - i * (i + 1),
    decreases i,
{
    if i > 0 {
        lemma_row_start_closed(n, i - 1);
        let a = row_start(n, i - 1);
        let b = row_start(n, i);
        assert(b == a + (n - i));
        assert(2 * b == 2 * i * n - i * (i + 1)) by (nonlinear_arith)
            requires
                b == a + (n - i),
                2 * a == 2 * (i - 1) * n - (i - 1) * (i - 1 + 1),
        ;
    } else {
        assert(2 * i * n - i * (i + 1) == 0) by (nonlinear_arith)
            requires
                i == 0,
        ;
    }
}

/// The product of two consecutive naturals is even.
pub proof fn lemma_consecutive_even(i: int)
    requires
        0 <= i,
    ensures
        (i * (i + 1)) % 2 == 0,
    decreases i,
{
    if i > 0 {
        lemma_consecutive_even(i - 1);
        let a = (i - 1) * (i - 1 + 1);
        assert(i * (i + 1) == a + 2 * i) by (nonlinear_arith)
            requires
                a == (i - 1) * (i - 1 + 1),
        ;
    } else {
        assert(i * (i + 1) == 0) by (nonlinear_arith)
            requires
                i == 0,
        ;
    }
}

/// Rows are laid out one after another without overlap.
pub proof fn lemma_row_start_mono(n: int, i: int, k: int)
    requires
        0 <= i <= k <= n,
    ensures
        row_start(n, i) <= row_start(n, k),
    decreases k - i,
{
    if i < k {
        lemma_row_start_mono(n, i, k - 1);
    }
}

/// The packed index of a vertex pair lies inside its row and inside the string.
pub proof fn lemma_pair_index_bounds(n: int, i: int, j: int)
    requires
        0 <= i < j < n,
    ensures
        row_start(n, i) <= pair_index(n, i, j) < row_start(n, i + 1),
        0 <= pair_index(n, i, j) < num_pairs(n),
{
    lemma_row_start_mono(n, 0, i);
    lemma_row_start_mono(n, i + 1, n);
    lemma_row_start_closed(n, n);
    assert(2 * n * n - n * (n + 1) == n * (n - 1)) by (nonlinear_arith);
    assert(n * (n - 1) == 2 * row_start(n, n));
}

/// Distinct vertex pairs occupy distinct bits.
pub proof fn lemma_pair_index_injective(n: int, p: (int, int), q: (int, int))
    requires
        is_vertex_pair(n, p),
        is_vertex_pair(n, q),
        pair_index(n, p.0, p.1) == pair_index(n, q.0, q.1),
    ensures
        p == q,
{
    lemma_pair_index_bounds(n, p.0, p.1);
    lemma_pair_index_bounds(n, q.0, q.1);
    if p.0 < q.0 {
        lemma_row_start_mono(n, p.0 + 1, q.0);
    } else if q.0 < p.0 {
        lemma_row_start_mono(n, q.0 + 1, p.0);
    }
}

/// The pairs `(i, n)` with `i < m`.
spec fn column_pairs(n: int, m: int) -> Set<(int, int)> {
    Set::new(|p: (int, int)| 0 <= p.0 < m && p.1 == n)
}

/// A column of `m` pairs has `m` elements.
proof fn lemma_column_pairs_len(n: int, m: int)
    requires
        0 <= m,
    ensures
        column_pairs(n, m).finite(),
        column_pairs(n, m).len() == m,
    decreases m,
{
    if m == 0 {
        assert(column_pairs(n, m) =~= Set::empty());
    } else {
        lemma_column_pairs_len(n, m - 1);
        assert(column_pairs(n, m) =~= column_pairs(n, m - 1).insert((m - 1, n)));
    }
}

/// An `n`-vertex graph has `n * (n - 1) / 2` vertex pairs.
pub proof fn lemma_all_pairs_len(n: int)
    requires
        0 <= n,
    ensures
        all_pairs(n).finite(),
        all_pairs(n).len() == num_pairs(n),
    decreases n,
{
    if n == 0 {
        assert(all_pairs(n) =~= Set::empty());
    } else {
        lemma_all_pairs_len(n - 1);
        lemma_column_pairs_len(n - 1, n - 1);
        let a = all_pairs(n - 1);
        let b = column_pairs(n - 1, n - 1);
        assert(a.disjoint(b));
        vstd::set_lib::lemma_set_disjoint_lens(a, b);
        assert(a + b =~= all_pairs(n));
        if n >= 2 {
            assert(n * (n - 1) / 2 == num_pairs(n - 1) + (n - 1)) by (nonlinear_arith)
                requires
                    n >= 2,
                    num_pairs(n - 1) == if n - 1 < 2 {
                        0
                    } else {
                        (n - 1) * (n - 2) / 2
                    },
            ;
        }
    }
}

/// The complement of a graph on `n` vertices has the other
/// `n * (n - 1) / 2 - |E|` pairs as its edges.
pub proof fn lemma_complement_edge_count(edges: Set<(int, int)>, n: int)
    requires
        0 <= n,
        edges.subset_of(all_pairs(n)),
    ensures
        edges.finite(),
        all_pairs(n).difference(edges).finite(),
        all_pairs(n).difference(edges).len() == num_pairs(n) - edges.len(),
{
    lemma_all_pairs_len(n);
    vstd::set_lib::lemma_len_subset(edges, all_pairs(n));
    let c = all_pairs(n).difference(edges);
    vstd::set_lib::lemma_len_subset(c, all_pairs(n));
    assert(c.disjoint(edges));
    vstd::set_lib::lemma_set_disjoint_lens(c, edges);
    assert(c + edges =~= all_pairs(n));
}

/// Setting or clearing one bit of a byte leaves the other bits as they were.
pub proof fn lemma_byte_update(b: u8, s: u8, t: u8)
    requires
        s < 8,
        t < 8,
    ensures
        s == t ==> ((b | (1u8 << s)) >> t) & 1u8 == 1u8,
        s != t ==> ((b | (1u8 << s)) >> t) & 1u8 == (b >> t) & 1u8,
        s == t ==> ((b & !(1u8 << s)) >> t) & 1u8 == 0u8,
        s != t ==> ((b & !(1u8 << s)) >> t) & 1u8 == (b >> t) & 1u8,
{
    assert(s < 8 && t < 8 ==> (s == t ==> ((b | (1u8 << s)) >> t) & 1u8 == 1u8) && (s != t ==> ((b
        | (1u8 << s)) >> t) & 1u8 == (b >> t) & 1u8) && (s == t ==> ((b & !(1u8 << s)) >> t) & 1u8
        == 0u8) && (s != t ==> ((b & !(1u8 << s)) >> t) & 1u8 == (b >> t) & 1u8)) by (bit_vector);
}

/// Bit `t` of the byte `x`, counted from the least significant.
pub open spec fn byte_bit(x: u8, t: u8) -> bool {
    (x >> t) & 1u8 == 1u8
}

/// No bit of a zero byte is set.
pub proof fn lemma_zero_byte_bits()
    ensures
        forall|t: u8| t < 8 ==> !#[trigger] byte_bit(0u8, t),
{
    assert forall|t: u8| t < 8 implies !#[trigger] byte_bit(0u8, t) by {
        assert(t < 8 ==> (0u8 >> t) & 1u8 != 1u8) by (bit_vector);
    }
}

/// Two bytes with the same eight bits are equal.
pub proof fn lemma_byte_from_bits(x: u8, y: u8)
    requires
        forall|t: u8| t < 8 ==> #[trigger] byte_bit(x, t) == byte_bit(y, t),
    ensures
        x == y,
{
    assert(byte_bit(x, 0) == byte_bit(y, 0) && byte_bit(x, 1) == byte_bit(y, 1) && byte_bit(x, 2) == byte_bit(y, 2)
        && byte_bit(x, 3) == byte_bit(y, 3) && byte_bit(x, 4) == byte_bit(y, 4) && byte_bit(x, 5) == byte_bit(y, 5)
        && byte_bit(x, 6) == byte_bit(y, 6) && byte_bit(x, 7) == byte_bit(y, 7));
    assert((((x >> 0u8) & 1u8 == 1u8) == ((y >> 0u8) & 1u8 == 1u8) && ((x >> 1u8) & 1u8 == 1u8) == ((y >> 1u8) & 1u8
        == 1u8) && ((x >> 2u8) & 1u8 == 1u8) == ((y >> 2u8) & 1u8 == 1u8) && ((x >> 3u8) & 1u8 == 1u8) == ((y >> 3u8)
        & 1u8 == 1u8) && ((x >> 4u8) & 1u8 == 1u8) == ((y >> 4u8) & 1u8 == 1u8) && ((x >> 5u8) & 1u8 == 1u8) == ((y
        >> 5u8) & 1u8 == 1u8) && ((x >> 6u8) & 1u8 == 1u8) == ((y >> 6u8) & 1u8 == 1u8) && ((x >> 7u8) & 1u8 == 1u8)
        == ((y >> 7u8) & 1u8 == 1u8)) ==> x == y) by (bit_vector);
}

/// Every position below `row_start(n, n)` from row `i` on is the position
/// of a pair.
proof fn lemma_pair_at_from(n: int, idx: int, i: int)
    requires
        0 <= i < n,
        row_start(n, i) <= idx < row_start(n, n),
    ensures
        exists|p: (int, int)| is_vertex_pair(n, p) && #[trigger] pair_index(n, p.0, p.1) == idx,
    decreases n - i,
{
    if idx < row_start(n, i + 1) {
        let p = (i, i + 1 + idx - row_start(n, i));
        assert(is_vertex_pair(n, p) && pair_index(n, p.0, p.1) == idx);
    } else {
        if i + 1 >= n {
            assert(i + 1 == n);
        }
        lemma_pair_at_from(n, idx, i + 1);
    }
}

/// Every position below the number of pairs is the position of a pair.
pub proof fn lemma_pair_at(n: int, idx: int)
    requires
        0 <= idx < num_pairs(n),
    ensures
        exists|p: (int, int)| is_vertex_pair(n, p) && #[trigger] pair_index(n, p.0, p.1) == idx,
{
    lemma_row_start_closed(n, n);
    assert(2 * n * n - n * (n + 1) == n * (n - 1)) by (nonlinear_arith);
    assert(row_start(n, 0) == 0);
    lemma_pair_at_from(n, idx, 0);
}

impl AdjacencyMatrix {
    /// No bit past the last pair is set.
    pub open spec fn padding_clear(&self) -> bool {
        forall|idx: int|
            num_pairs(self.order() as int) <= idx < 8 * self.packed().len() ==> !#[trigger] packed_bit(self.packed(), idx)
    }

    /// Two matrices with the same vertex count, the same edges and no
    /// padding bit set hold the same bytes.
    pub proof fn lemma_same_edges_same_bits(&self, other: &Self)
        requires
            self.wf(),
            other.wf(),
            self.order() == other.order(),
            self@ == other@,
            self.padding_clear(),
            other.padding_clear(),
        ensures
            self.packed() == other.packed(),
    {
        let n = self.order() as int;
        let a = self.packed();
        let b = other.packed();
        assert forall|idx: int| 0 <= idx < 8 * a.len() implies #[trigger] packed_bit(a, idx) == packed_bit(b, idx) by {
            if idx < num_pairs(n) {
                lemma_pair_at(n, idx);
                let p = choose|p: (int, int)| is_vertex_pair(n, p) && #[trigger] pair_index(n, p.0, p.1) == idx;
                assert(self@.contains(p) == packed_bit(a, idx));
                assert(other@.contains(p) == packed_bit(b, idx));
                assert(self@.contains(p) == other@.contains(p));
            } else {
                assert(!packed_bit(a, idx));
                assert(!packed_bit(b, idx));
            }
        }
        assert forall|q: int| 0 <= q < a.len() implies a[q] == b[q] by {
            assert forall|t: u8| t < 8 implies #[trigger] byte_bit(a[q], t) == byte_bit(b[q], t) by {
                let idx = 8 * q + 7 - t;
                assert(idx / 8 == q && idx % 8 == 7 - t);
                assert(packed_bit(a, idx) == packed_bit(b, idx));
            }
            lemma_byte_from_bits(a[q], b[q]);
        }
        assert(a =~= b);
    }

    /// Complementing twice gives back a matrix with no padding bit set:
    /// the same edges and the same bytes.
    pub proof fn lemma_double_complement(&self, c: &Self, cc: &Self)
        requires
            self.wf(),
            self.padding_clear(),
            c.wf(),
            c.order() == self.order(),
            c@ == all_pairs(self.order() as int).difference(self@),
            cc.wf(),
            cc.order() == self.order(),
            cc@ == all_pairs(self.order() as int).difference(c@),
            cc.padding_clear(),
        ensures
            cc@ == self@,
            cc.packed() == self.packed(),
    {
        let n = self.order() as int;
        assert forall|p: (int, int)| #[trigger] self@.contains(p) implies all_pairs(n).contains(p) by {
            assert(is_vertex_pair(n, p));
        }
        assert(cc@ =~= self@);
        cc.lemma_same_edges_same_bits(self);
    }

    /// Every matrix holds exactly as many bytes as its vertex count needs;
    /// the constructors establish this and the methods keep it.
    pub closed spec fn wf(&self) -> bool {
        &&& size_fits(self.n as int)
        &&& self.bits@.len() == bytes_for(self.n as int)
    }

    /// The vertex count.
    pub closed spec fn order(&self) -> u32 {
        self.n
    }

    /// The packed bit string.
    pub closed spec fn packed(&self) -> Seq<u8> {
        self.bits@
    }

    /// Number of possible edges of an `n`-vertex graph: `n*(n-1)/2`.
    pub fn total_bits(n: u32) -> (r: usize)
        requires
            size_fits(n as int),
        ensures
            r == num_pairs(n as int),
    {
        let n = n as usize;
        if n < 2 {
            return 0;
        }
        assert(n * (n - 1) <= usize::MAX);
        n * (n - 1) / 2
    }

    /// Bytes that hold the pairs of an `n`-vertex graph.
    fn byte_count(n: u32) -> (r: usize)
        requires
            size_fits(n as int),
        ensures
            r == bytes_for(n as int),
    {
        let num_bits = Self::total_bits(n);
        assert(num_bits <= usize::MAX / 2) by (nonlinear_arith)
            requires
                num_bits == num_pairs(n as int),
                size_fits(n as int),
        ;
        (num_bits + 7) / 8
    }

    /// Create a graph with `n` vertices and no edges.
    pub fn new(n: u32) -> (g: Self)
        requires
            size_fits(n as int),
        ensures
            g.wf(),
            g.order() == n,
            g@ == Set::<(int, int)>::empty(),
            g.packed() == Seq::new(bytes_for(n as int) as nat, |i: int| 0u8),
            g.padding_clear(),
    {
        let num_bytes = Self::byte_count(n);
        let bits = vec![0u8; num_bytes];
        let g = Self { n, bits };
        proof {
            lemma_zero_byte_bits();
        }
        assert forall|p: (int, int)| !g@.contains(p) by {
            if is_vertex_pair(n as int, p) {
                lemma_pair_index_bounds(n as int, p.0, p.1);
                let idx = pair_index(n as int, p.0, p.1);
                let s = (7 - idx % 8) as u8;
                assert(!byte_bit(0u8, s));
            }
        }
        assert(g@ =~= Set::<(int, int)>::empty());
        assert(g.packed() =~= Seq::new(bytes_for(n as int) as nat, |i: int| 0u8));
        proof {
            lemma_zero_byte_bits();
            assert forall|idx: int| num_pairs(n as int) <= idx < 8 * g.packed().len() implies !#[trigger] packed_bit(g.packed(), idx) by {
                assert(byte_bit(g.packed()[idx / 8], (7 - idx % 8) as u8) == packed_bit(g.packed(), idx));
            }
        }
        g
    }

    /// Create a graph from pre-packed bits, kept as given; fails when the
    /// byte count does not match the vertex count. The graph's edges are the
    /// pairs whose bits are set; bits past the last pair name no edge.
    pub fn from_bits(n: u32, bits: Vec<u8>) -> (r: Result<Self, &'static str>)
        requires
            size_fits(n as int),
        ensures
            r is Ok <==> bits@.len() == bytes_for(n as int),
            r matches Err(e) ==> e@ == "bit vector length does not match vertex count"@,
            r matches Ok(g) ==> {
                &&& g.wf()
                &&& g.order() == n
                &&& g.packed() == bits@
                &&& g@ == Set::new(|p: (int, int)| is_vertex_pair(n as int, p) && packed_bit(bits@, pair_index(n as int, p.0, p.1)))
            },
    {
        let expected_bytes = Self::byte_count(n);
        if bits.len() != expected_bytes {
            return Err("bit vector length does not match vertex count");
        }
        let g = Self { n, bits };
        proof {
            assert(g@ =~= Set::new(|p: (int, int)| is_vertex_pair(n as int, p) && packed_bit(g.packed(), pair_index(n as int, p.0, p.1))));
        }
        Ok(g)
    }

    /// Number of vertices.
    #[verifier::when_used_as_spec(order)]
    pub fn n(&self) -> (r: u32)
        requires
            self.wf(),
        ensures
            r == self.order(),
            size_fits(r as int),
            forall|p: (int, int)| #[trigger] self@.contains(p) ==> is_vertex_pair(r as int, p),
    {
        self.n
    }

    /// Bit position of the pair `(i, j)`, `i < j`.
    fn bit_index(n: u32, i: u32, j: u32) -> (r: usize)
        requires
            i < j < n,
            size_fits(n as int),
        ensures
            r == pair_index(n as int, i as int, j as int),
            r < num_pairs(n as int),
    {
        proof {
            lemma_row_start_closed(n as int, i as int);
            lemma_pair_index_bounds(n as int, i as int, j as int);
            lemma_consecutive_even(i as int);
        }
        let n = n as usize;
        let i = i as usize;
        let j = j as usize;
        assert(i * n <= n * (n - 1) && i * (i + 1) <= i * n) by (nonlinear_arith)
            requires
                i < j < n,
        ;
        assert(i * (i + 1) == 2 * (i * (i + 1) / 2));
        assert(2 * row_start(n as int, i as int) == 2 * i * n - i * (i + 1));
        assert(2 * i * n == 2 * (i * n)) by (nonlinear_arith);
        i * n - i * (i + 1) / 2 + (j - i - 1)
    }

    /// Whether the edge `{i, j}` is present. Order of `i`, `j` does not matter.
    pub fn edge(&self, i: u32, j: u32) -> (r: bool)
        requires
            self.wf(),
            i < self.order(),
            j < self.order(),
        ensures
            r == (i != j && self@.contains(ordered(i as int, j as int))),
    {
        if i == j {
            return false;
        }
        let (lo, hi) = if i < j {
            (i, j)
        } else {
            (j, i)
        };
        let idx = Self::bit_index(self.n, lo, hi);
        let byte_idx = idx / 8;
        let bit_idx = 7 - (idx % 8);
        (self.bits[byte_idx] >> (bit_idx as u8)) & 1 == 1
    }

    /// Add (`value == true`) or remove the edge `{i, j}`; a self-loop request
    /// changes nothing.
    pub fn set_edge(&mut self, i: u32, j: u32, value: bool)
        requires
            old(self).wf(),
            i < old(self).order(),
            j < old(self).order(),
        ensures
            final(self).wf(),
            final(self).order() == old(self).order(),
            final(self)@ == (if i == j {
                old(self)@
            } else if value {
                old(self)@.insert(ordered(i as int, j as int))
            } else {
                old(self)@.remove(ordered(i as int, j as int))
            }),
            i == j ==> final(self).packed() == old(self).packed(),
            old(self).padding_clear() ==> final(self).padding_clear(),
    {
        if i == j {
            return;
        }
        let (lo, hi) = if i < j {
            (i, j)
        } else {
            (j, i)
        };
        let idx = Self::bit_index(self.n, lo, hi);
        let byte_idx = idx / 8;
        let bit_idx = (7 - (idx % 8)) as u8;
        let old_byte = self.bits[byte_idx];
        let new_byte = if value {
            old_byte | (1u8 << bit_idx)
        } else {
            old_byte & !(1u8 << bit_idx)
        };
        let ghost before = self.bits@;
        let ghost n = self.n as int;
        self.bits.set(byte_idx, new_byte);
        proof {
            let target = ordered(i as int, j as int);
            let after = self.bits@;
            if old(self).padding_clear() {
                assert(old(self).packed() == before);
                assert forall|x: int| num_pairs(n) <= x < 8 * after.len() implies !#[trigger] packed_bit(after, x) by {
                    let q = x / 8;
                    let t = (7 - x % 8) as u8;
                    lemma_byte_update(old_byte, bit_idx, t);
                    assert(packed_bit(before, x) == ((before[q] >> t) & 1u8 == 1u8));
                    if q == byte_idx as int {
                        if t == bit_idx {
                            assert(x == idx);
                        }
                    } else {
                        assert(after[q] == before[q]);
                    }
                }
                assert(self.padding_clear());
            }
            assert forall|p: (int, int)| is_vertex_pair(n, p) implies packed_bit(
                after,
                pair_index(n, p.0, p.1),
            ) == (if p == target {
                value
            } else {
                packed_bit(before, pair_index(n, p.0, p.1))
            }) by {
                let q = pair_index(n, p.0, p.1);
                lemma_pair_index_bounds(n, p.0, p.1);
                let t = (7 - q % 8) as u8;
                lemma_byte_update(old_byte, bit_idx, t);
                if p == target {
                } else {
                    if q == idx {
                        lemma_pair_index_injective(n, p, target);
                    }
                    if q / 8 == byte_idx as int {
                        assert(t != bit_idx);
                    }
                }
            }
            let old_view = Set::new(
                |p: (int, int)| is_vertex_pair(n, p) && packed_bit(before, pair_index(n, p.0, p.1)),
            );
            assert(is_vertex_pair(n, target));
            if value {
                assert forall|p: (int, int)| #[trigger]
                    self@.contains(p) == old_view.insert(target).contains(p) by {
                    if is_vertex_pair(n, p) {
                        let q = pair_index(n, p.0, p.1);
                        assert(packed_bit(after, q) == (if p == target {
                            value
                        } else {
                            packed_bit(before, q)
                        }));
                    }
                }
                assert(self@ =~= old_view.insert(target));
            } else {
                assert(self@ =~= old_view.remove(target));
            }
        }
    }

    /// Every edge is a pair of vertices of the graph.
    pub proof fn lemma_edges_are_pairs(&self)
        ensures
            forall|p: (int, int)| #[trigger] self@.contains(p) ==> is_vertex_pair(self.order() as int, p),
    {
    }

    /// Two matrices with the same vertex count and the same packed bits
    /// have the same edges; so rebuilding a matrix from its packed bits
    /// gives it back.
    pub proof fn lemma_same_bits_same_edges(&self, other: &Self)
        requires
            self.wf(),
            other.wf(),
            self.order() == other.order(),
            self.packed() == other.packed(),
        ensures
            self@ == other@,
    {
        assert(self@ =~= other@);
    }

    /// Vertices adjacent to `v`.
    pub open spec fn neighbor_set(&self, v: int) -> Set<int> {
        Set::new(|u: int| 0 <= u < self.order() && u != v && self@.contains(ordered(v, u)))
    }

    /// A copy of this matrix with the same vertex count, bits and edges.
    pub(crate) fn copy_of(&self) -> (r: Self)
        requires
            self.wf(),
        ensures
            r.wf(),
            r.order() == self.order(),
            r.packed() == self.packed(),
            r@ == self@,
            self.padding_clear() ==> r.padding_clear(),
    {
        let bits = self.bits.clone();
        assert(bits@ =~= self.bits@);
        Self { n: self.n, bits }
    }

    /// Count the number of edges.
    pub fn num_edges(&self) -> (r: usize)
        requires
            self.wf(),
        ensures
            self@.finite(),
            r == self@.len(),
    {
        let n = self.n;
        let ghost g = self@;
        let ghost nn = n as int;
        let mut total: usize = 0;
        proof {
            assert(edges_before(g, 0, 0) =~= Set::empty());
            lemma_row_start_closed(nn, nn);
            assert(2 * nn * nn - nn * (nn + 1) == nn * (nn - 1)) by (nonlinear_arith);
        }
        let mut u: u32 = 0;
        while u < n
            invariant
                u <= n,
                nn == n,
                n == self.order(),
                g == self@,
                self.wf(),
                row_start(nn, nn) <= usize::MAX,
                edges_before(g, u as int, 0).finite(),
                total == edges_before(g, u as int, 0).len(),
                total <= row_start(nn, u as int),
            decreases n - u,
        {
            proof {
                assert(edges_before(g, u as int, u + 1) =~= edges_before(g, u as int, 0));
                lemma_row_start_mono(nn, u + 1, nn);
            }
            let mut v: u32 = u + 1;
            while v < n
                invariant
                    u < n,
                    u + 1 <= v <= n,
                    nn == n,
                    n == self.order(),
                    g == self@,
                    self.wf(),
                    row_start(nn, u + 1) <= row_start(nn, nn) <= usize::MAX,
                    edges_before(g, u as int, v as int).finite(),
                    total == edges_before(g, u as int, v as int).len(),
                    total <= row_start(nn, u as int) + (v - u - 1),
                decreases n - v,
            {
                let ghost before = edges_before(g, u as int, v as int);
                if self.edge(u, v) {
                    proof {
                        assert(edges_before(g, u as int, v + 1) =~= before.insert((u as int, v as int)));
                    }
                    total = total + 1;
                } else {
                    proof {
                        assert(edges_before(g, u as int, v + 1) =~= before);
                    }
                }
                v = v + 1;
            }
            proof {
                assert(edges_before(g, u + 1, 0) =~= edges_before(g, u as int, n as int));
            }
            u = u + 1;
        }
        proof {
            assert(edges_before(g, nn, 0) =~= g);
        }
        total
    }

    /// All neighbours of vertex `v`, in increasing order.
    pub fn neighbors(&self, v: u32) -> (r: Vec<u32>)
        requires
            self.wf(),
            v < self.order(),
        ensures
            forall|a: int, b: int| 0 <= a < b < r@.len() ==> r@[a] < r@[b],
            forall|u: u32| #[trigger] r@.contains(u) <==> self.neighbor_set(v as int).contains(u as int),
    {
        let n = self.n;
        let mut out: Vec<u32> = Vec::new();
        let mut u: u32 = 0;
        while u < n
            invariant
                u <= n,
                n == self.order(),
                v < n,
                self.wf(),
                forall|a: int, b: int| 0 <= a < b < out@.len() ==> out@[a] < out@[b],
                forall|k: int| 0 <= k < out@.len() ==> out@[k] < u,
                forall|w: u32| #[trigger] out@.contains(w) <==> (w < u && self.neighbor_set(v as int).contains(w as int)),
            decreases n - u,
        {
            let ghost before = out@;
            if self.edge(v, u) {
                out.push(u);
            }
            proof {
                assert forall|w: u32| #[trigger] out@.contains(w) <==> (w < u + 1 && self.neighbor_set(v as int).contains(w as int)) by {
                    if out@.contains(w) {
                        let k = choose|k: int| 0 <= k < out@.len() && out@[k] == w;
                        if k < before.len() {
                            assert(before.contains(w));
                        }
                    }
                    if w < u && self.neighbor_set(v as int).contains(w as int) {
                        assert(before.contains(w));
                        let k = choose|k: int| 0 <= k < before.len() && before[k] == w;
                        assert(out@[k] == w);
                    }
                    if w == u && self.neighbor_set(v as int).contains(w as int) {
                        assert(out@[out@.len() - 1] == w);
                    }
                }
            }
            u = u + 1;
        }
        out
    }

    /// Degree of vertex `v`.
    pub fn degree(&self, v: u32) -> (r: u32)
        requires
            self.wf(),
            v < self.order(),
        ensures
            r == self.neighbor_set(v as int).len(),
    {
        let nb = self.neighbors(v);
        proof {
            let s = nb@;
            assert(s.no_duplicates()) by {
                assert forall|a: int, b: int| 0 <= a < s.len() && 0 <= b < s.len() && a != b implies s[a] != s[b] by {
                    if a < b {} else {}
                }
            }
            s.unique_seq_to_set();
            let ns = self.neighbor_set(v as int);
            let m = s.to_set().map(|x: u32| x as int);
            assert(m =~= ns) by {
                assert forall|u: int| m.contains(u) <==> ns.contains(u) by {
                    if ns.contains(u) {
                        assert(s.contains(u as u32));
                        assert(s.to_set().contains(u as u32));
                    }
                    if m.contains(u) {
                        let x = choose|x: u32| s.to_set().contains(x) && x as int == u;
                        assert(s.contains(x));
                    }
                }
            }
            vstd::set_lib::lemma_map_size(s.to_set(), m, |x: u32| x as int);
            assert(s.len() <= u32::MAX) by {
                let range = vstd::set_lib::set_int_range(0, self.order() as int);
                vstd::set_lib::lemma_int_range(0, self.order() as int);
                assert(ns.subset_of(range));
                vstd::set_lib::lemma_len_subset(ns, range);
            }
        }
        nb.len() as u32
    }

    /// The complement graph: every non-edge becomes an edge and vice versa.
    pub fn complement(&self) -> (r: Self)
        requires
            self.wf(),
        ensures
            r.wf(),
            r.order() == self.order(),
            r@ == all_pairs(self.order() as int).difference(self@),
            r@.len() == num_pairs(self.order() as int) - self@.len(),
            r.padding_clear(),
    {
        proof {
            assert(self@.subset_of(all_pairs(self.order() as int)));
            lemma_complement_edge_count(self@, self.order() as int);
        }
        let n = self.n;
        let mut comp = Self::new(n);
        let mut i: u32 = 0;
        while i < n
            invariant
                self.wf(),
                comp.wf(),
                comp.padding_clear(),
                comp.order() == n,
                n == self.order(),
                i <= n,
                comp@ == all_pairs(n as int).difference(self@).filter(|e: (int, int)| visited(e, i as int, 0)),
            decreases n - i,
        {
            let mut j: u32 = i + 1;
            assert(comp@ =~= all_pairs(n as int).difference(self@).filter(|e: (int, int)| visited(e, i as int, j as int)));
            while j < n
                invariant
                    self.wf(),
                    comp.wf(),
                    comp.padding_clear(),
                    comp.order() == n,
                    n == self.order(),
                    i < n,
                    i + 1 <= j <= n,
                    comp@ == all_pairs(n as int).difference(self@).filter(|e: (int, int)| visited(e, i as int, j as int)),
                decreases n - j,
            {
                let present = self.edge(i, j);
                comp.set_edge(i, j, !present);
                assert(comp@ =~= all_pairs(n as int).difference(self@).filter(|e: (int, int)| visited(e, i as int, j + 1)));
                j = j + 1;
            }
            assert(comp@ =~= all_pairs(n as int).difference(self@).filter(|e: (int, int)| visited(e, i + 1, 0)));
            i = i + 1;
        }
        assert(comp@ =~= all_pairs(n as int).difference(self@));
        comp
    }

    /// Relabel vertices: `perm[i]` is the new label of old vertex `i`. The
    /// result has the edge `{perm[i], perm[j]}` for each edge `{i, j}`.
    pub fn permute_vertices(&self, perm: &[u32]) -> (r: Self)
        requires
            self.wf(),
            perm@.len() == self.order(),
            forall|k: int| 0 <= k < perm@.len() ==> #[trigger] perm@[k] < self.order(),
        ensures
            r.wf(),
            r.order() == self.order(),
            r@ == relabel(self@, perm@),
            r.padding_clear(),
    {
        let n = self.n;
        let mut result = Self::new(n);
        let mut i: u32 = 0;
        while i < n
            invariant
                self.wf(),
                result.wf(),
                result.padding_clear(),
                result.order() == n,
                n == self.order(),
                i <= n,
                perm@.len() == n,
                forall|k: int| 0 <= k < perm@.len() ==> #[trigger] perm@[k] < n,
                result@ == relabel(self@.filter(|e: (int, int)| visited(e, i as int, 0)), perm@),
            decreases n - i,
        {
            let mut j: u32 = i + 1;
            assert(self@.filter(|e: (int, int)| visited(e, i as int, 0)) =~= self@.filter(|e: (int, int)| visited(e, i as int, j as int)));
            while j < n
                invariant
                    self.wf(),
                    result.wf(),
                    result.padding_clear(),
                    result.order() == n,
                    n == self.order(),
                    i < n,
                    i + 1 <= j <= n,
                    perm@.len() == n,
                    forall|k: int| 0 <= k < perm@.len() ==> #[trigger] perm@[k] < n,
                    result@ == relabel(self@.filter(|e: (int, int)| visited(e, i as int, j as int)), perm@),
                decreases n - j,
            {
                let ghost before = self@.filter(|e: (int, int)| visited(e, i as int, j as int));
                let ghost after = self@.filter(|e: (int, int)| visited(e, i as int, j + 1));
                if self.edge(i, j) {
                    let a = perm[i as usize];
                    let b = perm[j as usize];
                    result.set_edge(a, b, true);
                    proof {
                        assert(after =~= before.insert((i as int, j as int)));
                        lemma_relabel_insert(before, perm@, (i as int, j as int));
                    }
                } else {
                    proof {
                        assert(after =~= before);
                    }
                }
                j = j + 1;
            }
            proof {
                assert(self@.filter(|e: (int, int)| visited(e, i as int, n as int)) =~= self@.filter(|e: (int, int)| visited(e, i + 1, 0)));
            }
            i = i + 1;
        }
        proof {
            assert(self@.filter(|e: (int, int)| visited(e, n as int, 0)) =~= self@);
        }
        result
    }

    /// The packed bit string.
    pub fn packed_bits(&self) -> (r: &[u8])
        ensures
            r@ == self.packed(),
    {
        self.bits.as_slice()
    }

    /// Neighbour bitmasks: bit `w` of `masks[v]` is set iff `{v, w}` is an edge.
    pub fn neighbor_masks(&self) -> (masks: Vec<u64>)
        requires
            self.wf(),
            self.order() <= 64,
        ensures
            masks@.len() == self.order(),
            forall|v: int, w: int|
                0 <= v < self.order() && 0 <= w < 64 ==> (#[trigger] bit64(masks@[v], w) <==> (
                w < self.order() && v != w && self@.contains(ordered(v, w)))),
    {
        let n = self.n;
        let mut masks: Vec<u64> = vec![0u64; n as usize];
        proof {
            assert forall|v: int, w: int| 0 <= v < n && 0 <= w < 64 implies !bit64(masks@[v], w) by {
                let ww = w as u64;
                assert(ww < 64 ==> (0u64 >> ww) & 1u64 == 0u64) by (bit_vector);
            }
        }
        let mut i: u32 = 0;
        while i < n
            invariant
                self.wf(),
                n == self.order(),
                n <= 64,
                i <= n,
                masks@.len() == n,
                forall|v: int, w: int|
                    0 <= v < n && 0 <= w < 64 ==> (#[trigger] bit64(masks@[v], w) <==> (w < n && v != w
                        && self@.contains(ordered(v, w)) && visited(ordered(v, w), i as int, 0))),
            decreases n - i,
        {
            let mut j: u32 = i + 1;
            while j < n
                invariant
                    self.wf(),
                    n == self.order(),
                    n <= 64,
                    i < n,
                    i + 1 <= j <= n,
                    masks@.len() == n,
                    forall|v: int, w: int|
                        0 <= v < n && 0 <= w < 64 ==> (#[trigger] bit64(masks@[v], w) <==> (w < n && v
                            != w && self@.contains(ordered(v, w)) && visited(ordered(v, w), i as int, j as int))),
                decreases n - j,
            {
                if self.edge(i, j) {
                    let ghost before = masks@;
                    let mi = masks[i as usize] | (1u64 << j);
                    masks.set(i as usize, mi);
                    let mj = masks[j as usize] | (1u64 << i);
                    masks.set(j as usize, mj);
                    proof {
                        assert forall|v: int, w: int| 0 <= v < n && 0 <= w < 64 implies (#[trigger] bit64(masks@[v], w) <==> (w < n && v
                            != w && self@.contains(ordered(v, w)) && visited(ordered(v, w), i as int, j + 1))) by {
                            lemma_bit_or(before[v], j as int, w);
                            lemma_bit_or(before[v], i as int, w);
                        }
                    }
                }
                proof {
                    assert forall|v: int, w: int| 0 <= v < n && 0 <= w < 64 implies (#[trigger] bit64(masks@[v], w) <==> (w < n && v
                        != w && self@.contains(ordered(v, w)) && visited(ordered(v, w), i as int, j + 1))) by {
                    }
                }
                j = j + 1;
            }
            i = i + 1;
        }
        masks
    }
}

/// Setting bit `s` of a word adds exactly that bit.
pub proof fn lemma_bit_or(x: u64, s: int, t: int)
    requires
        0 <= s < 64,
        0 <= t < 64,
    ensures
        bit64(x | (1u64 << (s as u64)), t) == (s == t || bit64(x, t)),
{
    let ss = s as u64;
    let tt = t as u64;
    assert(ss < 64 && tt < 64 ==> (((x | (1u64 << ss)) >> tt) & 1u64 == 1u64 <==> (ss == tt || (x
        >> tt) & 1u64 == 1u64))) by (bit_vector);
}

/// Relabelling a set with one more edge adds that edge's image.
proof fn lemma_relabel_insert(edges: Set<(int, int)>, perm: Seq<u32>, e: (int, int))
    requires
        0 <= e.0 < perm.len(),
        0 <= e.1 < perm.len(),
    ensures
        relabel(edges.insert(e), perm) == (if perm[e.0] != perm[e.1] {
            relabel(edges, perm).insert(ordered(perm[e.0] as int, perm[e.1] as int))
        } else {
            relabel(edges, perm)
        }),
{
    let lhs = relabel(edges.insert(e), perm);
    let rhs = if perm[e.0] != perm[e.1] {
        relabel(edges, perm).insert(ordered(perm[e.0] as int, perm[e.1] as int))
    } else {
        relabel(edges, perm)
    };
    assert forall|p: (int, int)| lhs.contains(p) <==> rhs.contains(p) by {
        if lhs.contains(p) {
            let f = choose|f: (int, int)| #![trigger edges.insert(e).contains(f)] edges.insert(e).contains(f) && perm[f.0] != perm[f.1] && ordered(perm[f.0] as int, perm[f.1] as int) == p;
            if f != e {
                assert(edges.contains(f));
            }
        }
        if rhs.contains(p) {
            if relabel(edges, perm).contains(p) {
                let f = choose|f: (int, int)| #![trigger edges.contains(f)] edges.contains(f) && perm[f.0] != perm[f.1] && ordered(perm[f.0] as int, perm[f.1] as int) == p;
                assert(edges.insert(e).contains(f));
            } else {
                assert(edges.insert(e).contains(e));
            }
        }
    }
    assert(lhs =~= rhs);
}

} // verus!
