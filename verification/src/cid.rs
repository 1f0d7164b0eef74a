//! Content addressing: a graph's identifier is the BLAKE3 hash of its graph6
//! text (of its canonical relabelling, when isomorphic graphs are to share
//! it).

use vstd::prelude::*;
use vstd::string::StringSliceAdditionalSpecFns;

use crate::adjacency::AdjacencyMatrix;
use crate::digest::{blake3_digest, blake3_hash};
use crate::graph6::{char_bytes, encode, graph6_bytes, lemma_encodes_unique};
use crate::types::GraphCid;

verus! {

/// The bytes of an ASCII string are its characters.
pub proof fn lemma_ascii_bytes(s: Seq<char>)
    requires
        vstd::utf8::is_ascii_chars(s),
    ensures
        vstd::utf8::encode_utf8(s) == char_bytes(s),
{
    vstd::utf8::is_ascii_chars_encode_utf8(s);
    assert(vstd::utf8::encode_utf8(s) =~= char_bytes(s));
}

/// The content identifier of a graph: the BLAKE3 hash of its graph6 bytes.
pub fn compute_cid(matrix: &AdjacencyMatrix) -> (r: GraphCid)
    requires
        matrix.wf(),
        matrix.order() <= 62,
    ensures
        r.0@ == blake3_digest(graph6_bytes(matrix.order() as int, matrix@)),
{
    let g6 = encode(matrix);
    let bytes = g6.as_str().as_bytes();
    proof {
        lemma_ascii_bytes(g6@);
        lemma_encodes_unique(matrix.order() as int, matrix@, char_bytes(g6@));
    }
    GraphCid::from_bytes(blake3_hash(bytes))
}

} // verus!
