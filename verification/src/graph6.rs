//! graph6 encoding and decoding for graphs on at most 62 vertices.
//!
//! A graph6 string is the byte `n + 63` followed by the upper triangle of the
//! adjacency matrix in column-major order (for `j = 1..n`, for `i = 0..j`, the
//! bit of `{i, j}`), padded with zero bits to a multiple of six and cut into
//! six-bit groups, each written as the byte `group + 63`.

use vstd::prelude::*;

use crate::adjacency::{AdjacencyMatrix, is_vertex_pair, lemma_byte_update, num_pairs, size_fits};

verus! {

/// Column-major position of the first pair of column `j`.
pub open spec fn col_start(j: int) -> int
    decreases j,
{
    if j <= 0 {
        0
    } else {
        col_start(j - 1) + (j - 1)
    }
}

/// Column-major position of the pair `(i, j)`, `i < j`.
pub open spec fn col_index(i: int, j: int) -> int {
    col_start(j) + i
}

/// Number of six-bit groups that carry the pairs of an `n`-vertex graph.
pub open spec fn groups_for(n: int) -> int {
    (num_pairs(n) + 5) / 6
}

/// Bit `k` (0 = most significant of six) of the group written as byte `b`.
pub open spec fn sextet_bit(b: u8, k: int) -> bool {
    (((b - 63) as u8) >> ((5 - k) as u8)) & 1u8 == 1u8
}

/// Bit `t` of the body of the graph6 bytes `e` (the bytes after the first).
pub open spec fn body_bit(e: Seq<u8>, t: int) -> bool {
    sextet_bit(e[1 + t / 6], t % 6)
}

/// `e` is the graph6 encoding of the graph with `n` vertices and edge set `edges`.
pub open spec fn encodes(n: int, edges: Set<(int, int)>, e: Seq<u8>) -> bool {
    &&& e.len() == 1 + groups_for(n)
    &&& e[0] == n + 63
    &&& forall|q: int| 1 <= q < e.len() ==> 63 <= #[trigger] e[q] <= 126
    &&& forall|p: (int, int)|
        is_vertex_pair(n, p) ==> (#[trigger] body_bit(e, col_index(p.0, p.1)) == edges.contains(p))
    &&& forall|t: int| num_pairs(n) <= t < 6 * groups_for(n) ==> !#[trigger] body_bit(e, t)
}

/// Vertex count announced by graph6 bytes `e`.
pub open spec fn announced_n(e: Seq<u8>) -> int {
    e[0] - 63
}

/// Every byte of `e` is a graph6 character.
pub open spec fn all_graph6_chars(e: Seq<u8>) -> bool {
    forall|q: int| 0 <= q < e.len() ==> 63 <= #[trigger] e[q] <= 126
}

/// The bytes `e` decode: nonempty, graph6 characters only, a one-byte vertex
/// count, and exactly as many groups as that vertex count needs.
pub open spec fn decodable(e: Seq<u8>) -> bool {
    &&& e.len() > 0
    &&& all_graph6_chars(e)
    &&& e[0] != 126
    &&& e.len() - 1 == groups_for(announced_n(e))
}

/// The edges that the graph6 bytes `e` describe.
pub open spec fn decoded_edges(e: Seq<u8>) -> Set<(int, int)> {
    Set::new(
        |p: (int, int)| is_vertex_pair(announced_n(e), p) && body_bit(e, col_index(p.0, p.1)),
    )
}

/// The byte values of a sequence of ASCII characters.
pub open spec fn char_bytes(s: Seq<char>) -> Seq<u8> {
    s.map_values(|c: char| c as u8)
}

/// The error `err` is the one reported for the bytes `e`: the first check
/// that fails, in the order empty, characters, vertex-count form, length.
pub open spec fn graph6_error_for(e: Seq<u8>, err: Graph6Error) -> bool {
    match err {
        Graph6Error::Empty => e.len() == 0,
        Graph6Error::InvalidChar(b) => exists|q: int|
            0 <= q < e.len() && e[q] == b && !(63 <= b <= 126) && all_graph6_chars(e.take(q)),
        Graph6Error::TooLarge(x) => e.len() > 0 && all_graph6_chars(e) && e[0] == 126 && x == 0,
        Graph6Error::TooShort { n } => e.len() > 0 && all_graph6_chars(e) && e[0] != 126 && n
            == announced_n(e) && e.len() - 1 < groups_for(announced_n(e)),
        Graph6Error::ExtraBytes => e.len() > 0 && all_graph6_chars(e) && e[0] != 126 && e.len() - 1
            > groups_for(announced_n(e)),
    }
}

/// Reasons a string is not a graph6 graph this module reads.
#[derive(Debug)]
pub enum Graph6Error {
    /// The string is empty.
    Empty,
    /// A byte outside `63..=126`.
    InvalidChar(u8),
    /// The vertex count needs the multi-byte form, or exceeds 62.
    TooLarge(u64),
    /// Fewer groups than the vertex count needs.
    TooShort { n: u32 },
    /// More groups than the vertex count needs.
    ExtraBytes,
}

/// JSON transport form of a graph: vertex count and graph6 string.
#[derive(Clone, Debug)]
pub struct GraphJson {
    pub n: u32,
    pub graph6: String,
}

/// Column starts in closed form.
proof fn lemma_col_start_closed(j: int)
    requires
        0 <= j,
    ensures
        2 * col_start(j) == j * (j - 1),
    decreases j,
{
    if j > 0 {
        lemma_col_start_closed(j - 1);
        let a = col_start(j - 1);
        assert(2 * col_start(j) == j * (j - 1)) by (nonlinear_arith)
            requires
                col_start(j) == a + (j - 1),
                2 * a == (j - 1) * (j - 1 - 1),
        ;
    } else {
        assert(j * (j - 1) == 0) by (nonlinear_arith)
            requires
                j == 0,
        ;
    }
}

/// Columns follow each other: a pair's position lies inside its column and
/// below the number of pairs.
proof fn lemma_col_index_bounds(n: int, i: int, j: int)
    requires
        0 <= i < j < n,
    ensures
        col_start(j) <= col_index(i, j) < col_start(j + 1),
        col_start(j + 1) <= col_start(n),
        0 <= col_index(i, j) < num_pairs(n),
{
    lemma_col_start_mono(j + 1, n);
    lemma_col_start_closed(n);
    assert(col_start(j) >= 0) by {
        lemma_col_start_mono(0, j);
    }
}

proof fn lemma_col_start_mono(a: int, b: int)
    requires
        0 <= a <= b,
    ensures
        col_start(a) <= col_start(b),
    decreases b - a,
{
    if a < b {
        lemma_col_start_mono(a, b - 1);
    }
}

/// Wraps `String::from_utf8` on ASCII bytes: the resulting string has one
/// character per byte, equal to that byte.
#[verifier::external_body]
fn ascii_string(bytes: Vec<u8>) -> (s: String)
    requires
        forall|k: int| 0 <= k < bytes@.len() ==> #[trigger] bytes@[k] < 128,
    ensures
        s@ == bytes@.map_values(|b: u8| b as char),
        vstd::utf8::is_ascii_chars(s@),
{
    String::from_utf8(bytes).expect("graph6 bytes are ASCII")
}

/// Column-major bits of the upper triangle, padded with zeros to a multiple of six.
fn column_bits(matrix: &AdjacencyMatrix) -> (bits: Vec<bool>)
    requires
        matrix.wf(),
    ensures
        bits@.len() == 6 * groups_for(matrix.order() as int),
        forall|p: (int, int)|
            is_vertex_pair(matrix.order() as int, p) ==> bits@[col_index(p.0, p.1)]
                == matrix@.contains(p),
        forall|t: int|
            num_pairs(matrix.order() as int) <= t < bits@.len() ==> !#[trigger] bits@[t],
{
    let n = matrix.n();
    let mut bits: Vec<bool> = Vec::new();
    let mut j: u32 = 1;
    proof {
        lemma_col_start_closed(n as int);
        assert(col_start(0) == 0);
        assert(col_start(1) == 0);
    }
    while j < n
        invariant
            matrix.wf(),
            n == matrix.order(),
            1 <= j,
            j <= n || n == 0,
            n <= 1 ==> j == 1,
            bits@.len() == col_start(j as int),
            forall|p: (int, int)|
                is_vertex_pair(n as int, p) && p.1 < j ==> bits@[col_index(p.0, p.1)]
                    == matrix@.contains(p),
        decreases n - j,
    {
        let mut i: u32 = 0;
        while i < j
            invariant
                matrix.wf(),
                n == matrix.order(),
                1 <= j < n,
                i <= j,
                bits@.len() == col_start(j as int) + i,
                forall|p: (int, int)|
                    is_vertex_pair(n as int, p) && (p.1 < j || (p.1 == j && p.0 < i)) ==> bits@[col_index(p.0, p.1)]
                        == matrix@.contains(p),
            decreases j - i,
        {
            let e = matrix.edge(i, j);
            bits.push(e);
            proof {
                assert forall|p: (int, int)|
                    is_vertex_pair(n as int, p) && (p.1 < j || (p.1 == j && p.0 < i + 1)) implies bits@[col_index(p.0, p.1)]
                        == matrix@.contains(p) by {
                    lemma_col_index_bounds(n as int, p.0, p.1);
                    if p.1 < j {
                        lemma_col_start_mono(p.1 + 1, j as int);
                    }
                }
            }
            i = i + 1;
        }
        j = j + 1;
    }
    proof {
        if n <= 1 {
            assert(bits@.len() == 0);
        } else {
            assert(j == n);
            assert(2 * col_start(n as int) == n * (n - 1));
        }
        assert(bits@.len() == num_pairs(n as int));
    }
    let ghost unpadded = bits@.len();
    while bits.len() % 6 != 0
        invariant
            num_pairs(n as int) <= bits@.len() <= 6 * groups_for(n as int),
            forall|p: (int, int)|
                is_vertex_pair(n as int, p) ==> bits@[col_index(p.0, p.1)] == matrix@.contains(p),
            forall|t: int| num_pairs(n as int) <= t < bits@.len() ==> !#[trigger] bits@[t],
        decreases 6 * groups_for(n as int) - bits@.len(),
    {
        let ghost before = bits@;
        bits.push(false);
        proof {
            assert forall|p: (int, int)| is_vertex_pair(n as int, p) implies bits@[col_index(p.0, p.1)]
                == matrix@.contains(p) by {
                lemma_col_index_bounds(n as int, p.0, p.1);
                assert(before[col_index(p.0, p.1)] == bits@[col_index(p.0, p.1)]);
            }
        }
    }
    bits
}

/// Pack six bits (most significant first) into the value of one group.
fn pack_sextet(bits: &Vec<bool>, start: usize) -> (byte: u8)
    requires
        start + 6 <= bits@.len(),
    ensures
        byte < 64,
        forall|k: int| 0 <= k < 6 ==> (((byte >> ((5 - k) as u8)) & 1u8 == 1u8) == #[trigger] bits@[start + k]),
{
    let mut byte: u8 = 0;
    let mut k: usize = 0;
    let len = bits.len();
    assert forall|t: u8| t < 8 implies #[trigger] ((0u8 >> t) & 1u8) == 0u8 by {
        assert(t < 8 ==> (0u8 >> t) & 1u8 == 0u8) by (bit_vector);
    }
    while k < 6
        invariant
            k <= 6,
            start + 6 <= bits@.len(),
            len == bits@.len(),
            (byte >> 6u8) & 1u8 == 0u8,
            (byte >> 7u8) & 1u8 == 0u8,
            forall|kk: int| 0 <= kk < k ==> (((byte >> ((5 - kk) as u8)) & 1u8 == 1u8) == #[trigger] bits@[start + kk]),
            forall|kk: int| k <= kk < 6 ==> #[trigger] ((byte >> ((5 - kk) as u8)) & 1u8) == 0u8,
        decreases 6 - k,
    {
        let s = (5 - k) as u8;
        let old_byte = byte;
        if bits[start + k] {
            byte = byte | (1u8 << s);
        }
        proof {
            lemma_byte_update(old_byte, s, 6u8);
            lemma_byte_update(old_byte, s, 7u8);
            assert forall|kk: int| 0 <= kk < k + 1 implies (((byte >> ((5 - kk) as u8)) & 1u8 == 1u8) == #[trigger] bits@[start + kk]) by {
                lemma_byte_update(old_byte, s, (5 - kk) as u8);
            }
            assert forall|kk: int| k + 1 <= kk < 6 implies #[trigger] ((byte >> ((5 - kk) as u8)) & 1u8) == 0u8 by {
                lemma_byte_update(old_byte, s, (5 - kk) as u8);
            }
        }
        k = k + 1;
    }
    assert((byte >> 6u8) & 1u8 == 0u8 && (byte >> 7u8) & 1u8 == 0u8 ==> byte < 64) by (bit_vector);
    byte
}

/// Encode a graph on at most 62 vertices as a graph6 string.
pub fn encode(matrix: &AdjacencyMatrix) -> (s: String)
    requires
        matrix.wf(),
        matrix.order() <= 62,
    ensures
        vstd::utf8::is_ascii_chars(s@),
        encodes(matrix.order() as int, matrix@, char_bytes(s@)),
{
    let n = matrix.n();
    let bits = column_bits(matrix);
    let mut bytes: Vec<u8> = Vec::new();
    bytes.push(n as u8 + 63);
    let mut q: usize = 0;
    let len = bits.len();
    let groups = len / 6;
    while q < groups
        invariant
            bits@.len() == 6 * groups,
            len == bits@.len(),
            groups == groups_for(n as int),
            q <= groups,
            bytes@.len() == 1 + q,
            bytes@[0] == n + 63,
            n <= 62,
            forall|r: int| 1 <= r < bytes@.len() ==> 63 <= #[trigger] bytes@[r] <= 126,
            forall|t: int| 0 <= t < 6 * q ==> body_bit(bytes@, t) == #[trigger] bits@[t],
        decreases groups - q,
    {
        let v = pack_sextet(&bits, 6 * q);
        let ghost before = bytes@;
        bytes.push(v + 63);
        proof {
            assert forall|t: int| 0 <= t < 6 * (q + 1) implies body_bit(bytes@, t) == #[trigger] bits@[t] by {
                if t < 6 * q {
                    assert(bytes@[1 + t / 6] == before[1 + t / 6]);
                } else {
                    assert(t / 6 == q);
                    assert(t == 6 * q + t % 6);
                    assert(((((v + 63) as u8) - 63) as u8) == v);
                }
            }
        }
        q = q + 1;
    }
    let ghost e = bytes@;
    let s = ascii_string(bytes);
    proof {
        assert(char_bytes(s@) =~= e);
        assert forall|t: int| num_pairs(n as int) <= t < 6 * groups_for(n as int) implies !#[trigger] body_bit(e, t) by {
            assert(body_bit(e, t) == bits@[t]);
        }
        assert forall|p: (int, int)| is_vertex_pair(n as int, p) implies (#[trigger] body_bit(e, col_index(p.0, p.1)) == matrix@.contains(p)) by {
            lemma_col_index_bounds(n as int, p.0, p.1);
            assert(body_bit(e, col_index(p.0, p.1)) == bits@[col_index(p.0, p.1)]);
        }
    }
    s
}

/// Unpack the six bits (most significant first) of each group after the first byte.
fn unpack_groups(bytes: &[u8]) -> (bits: Vec<bool>)
    requires
        bytes@.len() >= 1,
        all_graph6_chars(bytes@),
        6 * (bytes@.len() - 1) <= usize::MAX,
    ensures
        bits@.len() == 6 * (bytes@.len() - 1),
        forall|t: int| 0 <= t < bits@.len() ==> #[trigger] bits@[t] == body_bit(bytes@, t),
{
    let len = bytes.len();
    let mut bits: Vec<bool> = Vec::new();
    let mut q: usize = 1;
    while q < len
        invariant
            len == bytes@.len(),
            1 <= q <= len,
            all_graph6_chars(bytes@),
            6 * (len - 1) <= usize::MAX,
            bits@.len() == 6 * (q - 1),
            forall|t: int| 0 <= t < bits@.len() ==> #[trigger] bits@[t] == body_bit(bytes@, t),
        decreases len - q,
    {
        let val = bytes[q] - 63;
        let mut k: u8 = 0;
        while k < 6
            invariant
                len == bytes@.len(),
                1 <= q < len,
                k <= 6,
                val == bytes@[q as int] - 63,
                bits@.len() == 6 * (q - 1) + k,
                forall|t: int| 0 <= t < bits@.len() ==> #[trigger] bits@[t] == body_bit(bytes@, t),
            decreases 6 - k,
        {
            bits.push((val >> (5 - k)) & 1 == 1);
            proof {
                assert forall|t: int| 0 <= t < bits@.len() implies #[trigger] bits@[t] == body_bit(bytes@, t) by {
                    if t == bits@.len() - 1 {
                        assert(t / 6 == q - 1);
                        assert(t % 6 == k);
                    }
                }
            }
            k = k + 1;
        }
        q = q + 1;
    }
    bits
}

/// Decode a graph6 string whose vertex count fits in one byte.
pub fn decode(s: &str) -> (r: Result<AdjacencyMatrix, Graph6Error>)
    ensures
        r is Ok <==> decodable(vstd::utf8::encode_utf8(s@)),
        r matches Ok(m) ==> m.wf() && m.order() == announced_n(vstd::utf8::encode_utf8(s@)) && m@ == decoded_edges(
            vstd::utf8::encode_utf8(s@),
        ),
        r matches Err(err) ==> graph6_error_for(vstd::utf8::encode_utf8(s@), err),
{
    let bytes = s.as_bytes();
    let ghost e = bytes@;
    let len = bytes.len();
    if len == 0 {
        return Err(Graph6Error::Empty);
    }
    let mut q: usize = 0;
    while q < len
        invariant
            len == e.len(),
            bytes@ == e,
            e == vstd::utf8::encode_utf8(s@),
            q <= len,
            all_graph6_chars(e.take(q as int)),
        decreases len - q,
    {
        let b = bytes[q];
        if !(63 <= b && b <= 126) {
            proof {
                assert(e[q as int] == b);
                assert(!all_graph6_chars(e));
                assert(graph6_error_for(e, Graph6Error::InvalidChar(b)));
            }
            return Err(Graph6Error::InvalidChar(b));
        }
        assert(e.take(q + 1) =~= e.take(q as int).push(b));
        q = q + 1;
    }
    assert(e.take(len as int) =~= e);
    if bytes[0] == 126 {
        return Err(Graph6Error::TooLarge(0));
    }
    let n = (bytes[0] - 63) as u32;
    if n > 62 {
        return Err(Graph6Error::TooLarge(n as u64));
    }
    assert(size_fits(n as int)) by (nonlinear_arith)
        requires
            n <= 62,
    ;
    let total_bits = AdjacencyMatrix::total_bits(n);
    let expected_groups = (total_bits + 5) / 6;
    let rest_len = len - 1;
    if rest_len < expected_groups {
        return Err(Graph6Error::TooShort { n });
    }
    if rest_len > expected_groups {
        return Err(Graph6Error::ExtraBytes);
    }
    assert(num_pairs(n as int) <= 1891) by (nonlinear_arith)
        requires
            n <= 62,
            num_pairs(n as int) == (if n < 2 { 0 } else { n * (n - 1) / 2 }),
    ;
    let bits = unpack_groups(bytes);
    let mut matrix = AdjacencyMatrix::new(n);
    let mut idx: usize = 0;
    let mut j: u32 = 1;
    proof {
        lemma_col_start_closed(n as int);
        assert(col_start(0) == 0);
        assert(col_start(1) == 0);
    }
    while j < n
        invariant
            matrix.wf(),
            matrix.order() == n,
            n <= 62,
            1 <= j,
            j <= n || n == 0,
            idx == col_start(j as int),
            bits@.len() == 6 * groups_for(n as int),
            e == bytes@,
            forall|t: int| 0 <= t < bits@.len() ==> #[trigger] bits@[t] == body_bit(e, t),
            n == announced_n(e),
            matrix@ == decoded_edges(e).filter(|p: (int, int)| p.1 < j),
        decreases n - j,
    {
        let mut i: u32 = 0;
        while i < j
            invariant
                matrix.wf(),
                matrix.order() == n,
                n <= 62,
                1 <= j < n,
                i <= j,
                idx == col_start(j as int) + i,
                bits@.len() == 6 * groups_for(n as int),
                forall|t: int| 0 <= t < bits@.len() ==> #[trigger] bits@[t] == body_bit(e, t),
                n == announced_n(e),
                matrix@ == decoded_edges(e).filter(|p: (int, int)| p.1 < j || (p.1 == j && p.0 < i)),
            decreases j - i,
        {
            proof {
                lemma_col_index_bounds(n as int, i as int, j as int);
                assert(num_pairs(n as int) <= 6 * groups_for(n as int));
            }
            let ghost before = matrix@;
            if idx < bits.len() && bits[idx] {
                matrix.set_edge(i, j, true);
            }
            proof {
                assert(matrix@ =~= decoded_edges(e).filter(|p: (int, int)| p.1 < j || (p.1 == j && p.0 < i + 1)));
            }
            idx = idx + 1;
            i = i + 1;
        }
        proof {
            assert(decoded_edges(e).filter(|p: (int, int)| p.1 < j || (p.1 == j && p.0 < j)) =~= decoded_edges(e).filter(|p: (int, int)| p.1 < j + 1));
        }
        j = j + 1;
    }
    proof {
        assert(matrix@ =~= decoded_edges(e)) by {
            assert forall|p: (int, int)| decoded_edges(e).contains(p) implies p.1 < j by {}
        }
    }
    Ok(matrix)
}

/// Read a [`GraphJson`]: decode its graph6 string and check the vertex count.
pub fn from_json(json: &GraphJson) -> (r: Result<AdjacencyMatrix, Graph6Error>)
    ensures
        r is Ok <==> decodable(vstd::utf8::encode_utf8(json.graph6@)) && announced_n(
            vstd::utf8::encode_utf8(json.graph6@),
        ) == json.n,
        r matches Ok(m) ==> m.wf() && m.order() == json.n && m@ == decoded_edges(
            vstd::utf8::encode_utf8(json.graph6@),
        ),
        r matches Err(err) ==> if decodable(vstd::utf8::encode_utf8(json.graph6@)) {
            err == Graph6Error::TooShort { n: json.n }
        } else {
            graph6_error_for(vstd::utf8::encode_utf8(json.graph6@), err)
        },
{
    let matrix = match decode(json.graph6.as_str()) {
        Ok(m) => m,
        Err(err) => return Err(err),
    };
    if matrix.n() != json.n {
        return Err(Graph6Error::TooShort { n: json.n });
    }
    Ok(matrix)
}

/// Write an [`AdjacencyMatrix`] as a [`GraphJson`].
pub fn to_json(matrix: &AdjacencyMatrix) -> (r: GraphJson)
    requires
        matrix.wf(),
        matrix.order() <= 62,
    ensures
        r.n == matrix.order(),
        vstd::utf8::is_ascii_chars(r.graph6@),
        encodes(matrix.order() as int, matrix@, char_bytes(r.graph6@)),
{
    GraphJson { n: matrix.n(), graph6: encode(matrix) }
}

/// Decoding what [`encode`] wrote gives back the same graph: the graph6
/// bytes of a graph decode, announce its vertex count and carry its edges.
pub proof fn lemma_decode_encoded(n: int, edges: Set<(int, int)>, e: Seq<u8>)
    requires
        0 <= n <= 62,
        forall|p: (int, int)| edges.contains(p) ==> is_vertex_pair(n, p),
        encodes(n, edges, e),
    ensures
        decodable(e),
        announced_n(e) == n,
        decoded_edges(e) == edges,
{
    assert(all_graph6_chars(e));
    assert(decoded_edges(e) =~= edges);
}

/// The string [`encode`] returns, read back as bytes by [`decode`], decodes
/// to the graph that was encoded.
pub proof fn lemma_graph6_roundtrip(g: AdjacencyMatrix, s: Seq<char>)
    requires
        g.wf(),
        g.order() <= 62,
        vstd::utf8::is_ascii_chars(s),
        encodes(g.order() as int, g@, char_bytes(s)),
    ensures
        decodable(vstd::utf8::encode_utf8(s)),
        announced_n(vstd::utf8::encode_utf8(s)) == g.order(),
        decoded_edges(vstd::utf8::encode_utf8(s)) == g@,
{
    g.lemma_edges_are_pairs();
    vstd::utf8::is_ascii_chars_encode_utf8(s);
    assert(vstd::utf8::encode_utf8(s) =~= char_bytes(s));
    lemma_decode_encoded(g.order() as int, g@, char_bytes(s));
}

/// Every position below `num_pairs(n)` is the column-major position of a pair.
proof fn lemma_col_index_onto(n: int, t: int)
    requires
        0 <= t < num_pairs(n),
        0 <= n,
    ensures
        exists|i: int, j: int| 0 <= i < j < n && #[trigger] col_index(i, j) == t,
    decreases n,
{
    lemma_col_start_closed(n);
    lemma_col_start_closed(n - 1);
    assert(col_start(n) == num_pairs(n));
    if n > 0 {
        if t >= col_start(n - 1) {
            let i = t - col_start(n - 1);
            assert(col_index(i, n - 1) == t);
        } else {
            lemma_col_start_closed(n - 1);
            assert(num_pairs(n - 1) == col_start(n - 1)) by {
                let m = n - 1;
                lemma_col_start_closed(m);
                let c = col_start(m);
                if m >= 2 {
                    assert(m * (m - 1) / 2 == c) by (nonlinear_arith)
                        requires
                            2 * c == m * (m - 1),
                    ;
                } else {
                    assert(m * (m - 1) == 0) by (nonlinear_arith)
                        requires
                            0 <= m < 2,
                    ;
                }
            }
            lemma_col_index_onto(n - 1, t);
            let (i, j) = choose|i: int, j: int| 0 <= i < j < n - 1 && #[trigger] col_index(i, j) == t;
            assert(col_index(i, j) == t);
        }
    }
}

/// Two graph6 characters with the same six bits are equal.
proof fn lemma_sextet_ext(a: u8, b: u8)
    requires
        63 <= a <= 126,
        63 <= b <= 126,
        forall|k: int| 0 <= k < 6 ==> #[trigger] sextet_bit(a, k) == sextet_bit(b, k),
    ensures
        a == b,
{
    assert(sextet_bit(a, 0) == sextet_bit(b, 0));
    assert(sextet_bit(a, 1) == sextet_bit(b, 1));
    assert(sextet_bit(a, 2) == sextet_bit(b, 2));
    assert(sextet_bit(a, 3) == sextet_bit(b, 3));
    assert(sextet_bit(a, 4) == sextet_bit(b, 4));
    assert(sextet_bit(a, 5) == sextet_bit(b, 5));
    assert(63 <= a <= 126 && 63 <= b <= 126 && ((((a - 63) as u8) >> 5u8) & 1u8 == 1u8) == ((((b
        - 63) as u8) >> 5u8) & 1u8 == 1u8) && ((((a - 63) as u8) >> 4u8) & 1u8 == 1u8) == ((((b
        - 63) as u8) >> 4u8) & 1u8 == 1u8) && ((((a - 63) as u8) >> 3u8) & 1u8 == 1u8) == ((((b
        - 63) as u8) >> 3u8) & 1u8 == 1u8) && ((((a - 63) as u8) >> 2u8) & 1u8 == 1u8) == ((((b
        - 63) as u8) >> 2u8) & 1u8 == 1u8) && ((((a - 63) as u8) >> 1u8) & 1u8 == 1u8) == ((((b
        - 63) as u8) >> 1u8) & 1u8 == 1u8) && ((((a - 63) as u8) >> 0u8) & 1u8 == 1u8) == ((((b
        - 63) as u8) >> 0u8) & 1u8 == 1u8) ==> a == b) by (bit_vector);
}

/// The graph6 bytes of the graph with `n` vertices and edge set `edges`.
pub open spec fn graph6_bytes(n: int, edges: Set<(int, int)>) -> Seq<u8> {
    choose|e: Seq<u8>| encodes(n, edges, e)
}

/// A graph has exactly one graph6 encoding.
pub proof fn lemma_encodes_unique(n: int, edges: Set<(int, int)>, e: Seq<u8>)
    requires
        0 <= n,
        encodes(n, edges, e),
    ensures
        e == graph6_bytes(n, edges),
{
    let f = graph6_bytes(n, edges);
    assert(encodes(n, edges, f));
    assert forall|q: int| 0 <= q < e.len() implies #[trigger] e[q] == f[q] by {
        if q > 0 {
            assert forall|k: int| 0 <= k < 6 implies #[trigger] sextet_bit(e[q], k) == sextet_bit(f[q], k) by {
                let t = 6 * (q - 1) + k;
                assert(t / 6 == q - 1 && t % 6 == k);
                assert(body_bit(e, t) == sextet_bit(e[q], k));
                assert(body_bit(f, t) == sextet_bit(f[q], k));
                if t < num_pairs(n) {
                    lemma_col_index_onto(n, t);
                    let (i, j) = choose|i: int, j: int| 0 <= i < j < n && #[trigger] col_index(i, j) == t;
                    assert(is_vertex_pair(n, (i, j)));
                    assert(body_bit(e, col_index((i, j).0, (i, j).1)) == edges.contains((i, j)));
                    assert(body_bit(f, col_index((i, j).0, (i, j).1)) == edges.contains((i, j)));
                } else {
                    assert(t < 6 * groups_for(n));
                }
            }
            lemma_sextet_ext(e[q], f[q]);
        }
    }
    assert(e =~= f);
}

} // verus!
