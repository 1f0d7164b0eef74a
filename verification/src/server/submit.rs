//! Graph submission and verification requests: the checks a request must
//! pass before its graph is scored, and the text the server signs in the
//! receipt of an accepted submission.

use vstd::prelude::*;

use crate::adjacency::AdjacencyMatrix;
use crate::graph6::{Graph6Error, announced_n, decodable, decode, decoded_edges, graph6_error_for};
use crate::identity::{IdentityError, canonical_payload, le_bytes, signature_check, verify_signature};
use crate::submission::{decimal, push_bytes, push_decimal};
use vstd::string::StringSliceAdditionalSpecFns;

verus! {

/// Score a graph without submitting it.
#[derive(Clone, Debug, PartialEq, Eq)]
pub struct VerifyRequest {
    pub n: u32,
    pub graph6: String,
}

/// Most bytes of serialized metadata a submission may carry.
pub const MAX_METADATA_BYTES: usize = 4096;

/// Why a submitted graph is refused before scoring (each answered with a
/// bad-request error).
#[derive(Debug)]
pub enum RequestRejection {
    /// The vertex count is not in `1..=max_n`.
    BadSize { max_n: u32 },
    /// The serialized metadata is longer than `MAX_METADATA_BYTES`.
    MetadataTooLarge,
    /// The graph6 text does not decode.
    BadGraph6(Graph6Error),
    /// The graph6 text decodes to another vertex count than the one given.
    SizeMismatch { decoded: u32, expected: u32 },
}

/// The vertex count is in `1..=max_n`.
pub open spec fn size_ok(n: u32, max_n: u32) -> bool {
    1 <= n <= max_n
}

/// No metadata, or at most `MAX_METADATA_BYTES` of it.
pub open spec fn metadata_ok(metadata_len: Option<usize>) -> bool {
    match metadata_len {
        Some(len) => len <= MAX_METADATA_BYTES,
        None => true,
    }
}

/// Check a graph request (a submission, or a verification request, which
/// carries no metadata: `metadata_len` is `None`) in the server's order:
/// the vertex count, then the metadata size, then the graph6 text, then
/// its vertex count. Gives back the decoded graph.
pub fn check_graph_request(n: u32, max_n: u32, metadata_len: Option<usize>, graph6: &str) -> (r: Result<
    AdjacencyMatrix,
    RequestRejection,
>)
    ensures
        ({
            let e = vstd::utf8::encode_utf8(graph6@);
            &&& !size_ok(n, max_n) ==> (r matches Err(RequestRejection::BadSize { max_n: m }) && m == max_n)
            &&& size_ok(n, max_n) && !metadata_ok(metadata_len) ==> (r matches Err(RequestRejection::MetadataTooLarge))
            &&& size_ok(n, max_n) && metadata_ok(metadata_len) && !decodable(e) ==> (r matches Err(
                RequestRejection::BadGraph6(err),
            ) && graph6_error_for(e, err))
            &&& size_ok(n, max_n) && metadata_ok(metadata_len) && decodable(e) && announced_n(e) != n ==> (r matches Err(
                RequestRejection::SizeMismatch { decoded: d, expected: x },
            ) && d == announced_n(e) && x == n)
            &&& size_ok(n, max_n) && metadata_ok(metadata_len) && decodable(e) && announced_n(e) == n ==> (r matches Ok(m)
                && m.wf() && m.order() == n && m@ == decoded_edges(e))
        }),
{
    if n == 0 || n > max_n {
        return Err(RequestRejection::BadSize { max_n });
    }
    if let Some(len) = metadata_len {
        if len > MAX_METADATA_BYTES {
            return Err(RequestRejection::MetadataTooLarge);
        }
    }
    match decode(graph6) {
        Ok(m) => {
            let decoded = m.n();
            if decoded != n {
                Err(RequestRejection::SizeMismatch { decoded, expected: n })
            } else {
                Ok(m)
            }
        },
        Err(err) => Err(RequestRejection::BadGraph6(err)),
    }
}

/// What a submission gets before anything is scored or stored: refused by
/// the request checks, refused for an unknown signer, refused for a
/// malformed key or signature, refused for a signature that does not
/// check, or let through with its decoded graph.
#[derive(Debug)]
pub enum SubmitGate {
    Refused(RequestRejection),
    UnregisteredIdentity,
    SignatureError(IdentityError),
    InvalidSignature,
    Accepted(AdjacencyMatrix),
}

/// The request passes every check of `check_graph_request`.
pub open spec fn request_ok(n: u32, max_n: u32, metadata_len: Option<usize>, graph6: Seq<u8>) -> bool {
    &&& size_ok(n, max_n)
    &&& metadata_ok(metadata_len)
    &&& decodable(graph6)
    &&& announced_n(graph6) == n
}

/// Check a submission in the server's order: the request checks, then that
/// the signer is registered (`public_key_hex` is the registered key of the
/// request's key id, `None` when there is none), then the signature over
/// `canonical_payload(n, graph6)`. Only `Accepted` lets the server score
/// and store the graph; on every other answer nothing is stored or sent.
pub fn gate_submission(
    n: u32,
    max_n: u32,
    metadata_len: Option<usize>,
    graph6: &str,
    public_key_hex: Option<&str>,
    signature_hex: &str,
) -> (r: SubmitGate)
    ensures
        ({
            let e = vstd::utf8::encode_utf8(graph6@);
            let payload = le_bytes(n) + graph6.spec_bytes();
            &&& !size_ok(n, max_n) ==> (r matches SubmitGate::Refused(RequestRejection::BadSize { max_n: m }) && m
                == max_n)
            &&& size_ok(n, max_n) && !metadata_ok(metadata_len) ==> (r matches SubmitGate::Refused(
                RequestRejection::MetadataTooLarge,
            ))
            &&& size_ok(n, max_n) && metadata_ok(metadata_len) && !decodable(e) ==> (r matches SubmitGate::Refused(
                RequestRejection::BadGraph6(err),
            ) && graph6_error_for(e, err))
            &&& size_ok(n, max_n) && metadata_ok(metadata_len) && decodable(e) && announced_n(e) != n ==> (r matches SubmitGate::Refused(
                RequestRejection::SizeMismatch { decoded: d, expected: x },
            ) && d == announced_n(e) && x == n)
            &&& request_ok(n, max_n, metadata_len, e) && public_key_hex is None ==> (r matches SubmitGate::UnregisteredIdentity)
            &&& request_ok(n, max_n, metadata_len, e) && public_key_hex is Some ==> match signature_check(
                public_key_hex->Some_0.spec_bytes(),
                payload,
                signature_hex.spec_bytes(),
            ) {
                Err(err) => r == SubmitGate::SignatureError(err),
                Ok(false) => r matches SubmitGate::InvalidSignature,
                Ok(true) => (r matches SubmitGate::Accepted(m) && m.wf() && m.order() == n && m@ == decoded_edges(e)),
            }
        }),
{
    let matrix = match check_graph_request(n, max_n, metadata_len, graph6) {
        Ok(m) => m,
        Err(rej) => return SubmitGate::Refused(rej),
    };
    let key = match public_key_hex {
        Some(k) => k,
        None => return SubmitGate::UnregisteredIdentity,
    };
    let payload = canonical_payload(n, graph6);
    match verify_signature(key, payload.as_slice(), signature_hex) {
        Err(err) => SubmitGate::SignatureError(err),
        Ok(false) => SubmitGate::InvalidSignature,
        Ok(true) => SubmitGate::Accepted(matrix),
    }
}

/// The text a receipt signs: `<cid hex>:<verdict>:<n>`.
pub open spec fn receipt_text(cid_hex: Seq<u8>, verdict: Seq<u8>, n: u32) -> Seq<u8> {
    cid_hex + seq![58u8] + verdict + seq![58u8] + decimal(n as nat)
}

/// The bytes a receipt for the graph with CID `cid_hex`, given `verdict`
/// on `n` vertices, signs.
pub fn receipt_payload(cid_hex: &str, verdict: &str, n: u32) -> (r: Vec<u8>)
    ensures
        r@ == receipt_text(cid_hex.spec_bytes(), verdict.spec_bytes(), n),
{
    let mut buf: Vec<u8> = Vec::new();
    push_bytes(&mut buf, cid_hex);
    buf.push(58u8);
    push_bytes(&mut buf, verdict);
    buf.push(58u8);
    push_decimal(&mut buf, n);
    assert(buf@ =~= receipt_text(cid_hex.spec_bytes(), verdict.spec_bytes(), n));
    buf
}

} // verus!
