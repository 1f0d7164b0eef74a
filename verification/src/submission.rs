//! Client-side signing of submissions: SHA-256 key IDs, the canonical JSON
//! payload a submission signs, signatures and their checks, and where the
//! client keeps its key.

use vstd::prelude::*;
use vstd::string::{StringExecFns, StringSliceAdditionalSpecFns};

use crate::digest::{
    ed25519_public_key_valid, ed25519_signature, ed25519_verifies, public_key_valid, sha256_digest,
    sha256_hash, sign_bytes, signature_verifies,
};
use crate::hexstr::{HexError, hex_decode, hex_decoded, hex_encode, hex_lower};

verus! {

/// Public information about a signing key.
#[derive(Clone, Debug, PartialEq, Eq)]
pub struct KeyInfo {
    pub key_id: String,
    pub public_key_hex: String,
    pub display_name: Option<String>,
}

/// A stored key pair, its keys in hex.
#[derive(Clone, Debug, PartialEq, Eq)]
pub struct KeyFile {
    pub key_id: String,
    pub public_key: String,
    pub secret_key: String,
    pub display_name: Option<String>,
}

/// Why a key or signature was refused.
#[derive(Clone, Copy, Debug, PartialEq, Eq)]
pub enum KeyError {
    /// The text is not hex.
    InvalidHex(HexError),
    /// A public key must be 32 bytes.
    PublicKeyLength,
    /// The bytes are no curve point.
    InvalidPublicKey,
    /// A signature must be 64 bytes.
    SignatureLength,
}

/// The key ID of a public key: the first 16 hex digits of its SHA-256 hash.
pub open spec fn sha_key_id(public_key: Seq<u8>) -> Seq<char> {
    hex_lower(sha256_digest(public_key).take(8))
}

/// The key ID of a 32-byte public key.
pub fn compute_key_id(public_key: &[u8; 32]) -> (r: String)
    ensures
        r@ == sha_key_id(public_key@),
{
    let hash = sha256_hash(public_key.as_slice());
    let mut head: Vec<u8> = Vec::new();
    let mut i: usize = 0;
    while i < 8
        invariant
            0 <= i <= 8,
            hash@.len() == 32,
            hash@ == sha256_digest(public_key@),
            head@ == hash@.take(i as int),
        decreases 8 - i,
    {
        head.push(hash[i]);
        proof {
            assert(head@ =~= hash@.take(i + 1));
        }
        i = i + 1;
    }
    hex_encode(head.as_slice())
}

/// What decoding hex text into `len` bytes gives.
pub open spec fn bytes_decoded(text: Seq<u8>, len: int, wrong_length: KeyError) -> Result<Seq<u8>, KeyError> {
    match hex_decoded(text) {
        Ok(v) => if v.len() == len {
            Ok(v)
        } else {
            Err(wrong_length)
        },
        Err(e) => Err(KeyError::InvalidHex(e)),
    }
}

/// Decode hex text into exactly `N` bytes.
fn decode_exact<const N: usize>(text: &str, wrong_length: KeyError) -> (r: Result<[u8; N], KeyError>)
    ensures
        match r {
            Ok(a) => bytes_decoded(text.spec_bytes(), N as int, wrong_length) == Ok::<Seq<u8>, KeyError>(a@),
            Err(e) => bytes_decoded(text.spec_bytes(), N as int, wrong_length) == Err::<Seq<u8>, KeyError>(e),
        },
{
    let v = match hex_decode(text) {
        Ok(v) => v,
        Err(e) => return Err(KeyError::InvalidHex(e)),
    };
    if v.len() != N {
        return Err(wrong_length);
    }
    let mut a = [0u8; N];
    let mut i: usize = 0;
    while i < N
        invariant
            v@.len() == N,
            0 <= i <= N,
            a@.len() == N,
            forall|j: int| 0 <= j < i ==> #[trigger] a@[j] == v@[j],
        decreases N - i,
    {
        a[i] = v[i];
        i = i + 1;
    }
    assert(a@ =~= v@);
    Ok(a)
}

/// The key ID of a public key given in hex.
pub fn compute_key_id_from_hex(public_key_hex: &str) -> (r: Result<String, KeyError>)
    ensures
        match bytes_decoded(public_key_hex.spec_bytes(), 32, KeyError::PublicKeyLength) {
            Err(e) => r == Err::<String, KeyError>(e),
            Ok(pk) => if ed25519_public_key_valid(pk) {
                r matches Ok(id) && id@ == sha_key_id(pk)
            } else {
                r == Err::<String, KeyError>(KeyError::InvalidPublicKey)
            },
        },
{
    let pk: [u8; 32] = decode_exact(public_key_hex, KeyError::PublicKeyLength)?;
    if !public_key_valid(&pk) {
        return Err(KeyError::InvalidPublicKey);
    }
    Ok(compute_key_id(&pk))
}

/// Sign a payload with the key of the given 32 secret bytes; the signature
/// in hex.
pub fn sign_payload(secret: &[u8; 32], payload: &[u8]) -> (r: String)
    ensures
        r@ == hex_lower(ed25519_signature(secret@, payload@)),
{
    let sig = sign_bytes(secret, payload);
    hex_encode(sig.as_slice())
}

/// Check a signature of `payload`, the key and the signature given in hex.
pub fn verify_signature(public_key_hex: &str, payload: &[u8], signature_hex: &str) -> (r: Result<bool, KeyError>)
    ensures
        match bytes_decoded(public_key_hex.spec_bytes(), 32, KeyError::PublicKeyLength) {
            Err(e) => r == Err::<bool, KeyError>(e),
            Ok(pk) => if !ed25519_public_key_valid(pk) {
                r == Err::<bool, KeyError>(KeyError::InvalidPublicKey)
            } else {
                match bytes_decoded(signature_hex.spec_bytes(), 64, KeyError::SignatureLength) {
                    Err(e) => r == Err::<bool, KeyError>(e),
                    Ok(sig) => r == Ok::<bool, KeyError>(ed25519_verifies(pk, payload@, sig)),
                }
            },
        },
{
    let pk: [u8; 32] = decode_exact(public_key_hex, KeyError::PublicKeyLength)?;
    if !public_key_valid(&pk) {
        return Err(KeyError::InvalidPublicKey);
    }
    let sig: [u8; 64] = decode_exact(signature_hex, KeyError::SignatureLength)?;
    Ok(signature_verifies(&pk, payload, &sig))
}

/// The decimal digits of `n`, as ASCII bytes.
pub open spec fn decimal(n: nat) -> Seq<u8>
    decreases n,
{
    if n < 10 {
        seq![(48 + n) as u8]
    } else {
        decimal(n / 10).push((48 + n % 10) as u8)
    }
}

/// Append the decimal digits of `n`.
pub(crate) fn push_decimal(buf: &mut Vec<u8>, n: u32)
    ensures
        final(buf)@ == old(buf)@ + decimal(n as nat),
    decreases n,
{
    if n >= 10 {
        push_decimal(buf, n / 10);
    }
    buf.push((48 + n % 10) as u8);
    proof {
        if n < 10 {
            assert(final(buf)@ =~= old(buf)@ + decimal(n as nat));
        }
    }
}

/// Append the bytes of `s`.
pub(crate) fn push_bytes(buf: &mut Vec<u8>, s: &str)
    ensures
        final(buf)@ == old(buf)@ + s.spec_bytes(),
{
    let b = s.as_bytes();
    let mut i: usize = 0;
    while i < b.len()
        invariant
            b@ == s.spec_bytes(),
            i <= b@.len(),
            buf@ == old(buf)@ + b@.take(i as int),
        decreases b@.len() - i,
    {
        buf.push(b[i]);
        proof {
            assert(buf@ =~= old(buf)@ + b@.take(i + 1));
        }
        i = i + 1;
    }
    assert(b@.take(i as int) =~= b@);
}

/// The canonical JSON a submission signs: sorted keys, no spaces.
pub open spec fn payload_json(k: u32, ell: u32, n: u32, bits_b64: Seq<u8>) -> Seq<u8> {
    "{\"bits_b64\":\""@.map_values(|c: char| c as u8) + bits_b64 + "\",\"ell\":"@.map_values(|c: char| c as u8)
        + decimal(ell as nat) + ",\"encoding\":\"utri_b64_v1\",\"k\":"@.map_values(|c: char| c as u8) + decimal(
        k as nat,
    ) + ",\"n\":"@.map_values(|c: char| c as u8) + decimal(n as nat) + "}"@.map_values(|c: char| c as u8)
}

/// The bytes of an ASCII literal are its characters.
proof fn lemma_literal_bytes(s: &str)
    requires
        vstd::utf8::is_ascii_chars(s@),
    ensures
        s.spec_bytes() == s@.map_values(|c: char| c as u8),
{
    vstd::utf8::is_ascii_chars_encode_utf8(s@);
    assert(s.spec_bytes() =~= s@.map_values(|c: char| c as u8));
}

/// The canonical bytes a submission signs, keys in sorted order and no
/// whitespace:
/// `{"bits_b64":"<bits>","ell":<ell>,"encoding":"utri_b64_v1","k":<k>,"n":<n>}`.
pub fn canonical_payload(k: u32, ell: u32, n: u32, bits_b64: &str) -> (r: Vec<u8>)
    ensures
        r@ == payload_json(k, ell, n, bits_b64.spec_bytes()),
{
    let p1 = "{\"bits_b64\":\"";
    let p2 = "\",\"ell\":";
    let p3 = ",\"encoding\":\"utri_b64_v1\",\"k\":";
    let p4 = ",\"n\":";
    let p5 = "}";
    proof {
        reveal_strlit("{\"bits_b64\":\"");
        reveal_strlit("\",\"ell\":");
        reveal_strlit(",\"encoding\":\"utri_b64_v1\",\"k\":");
        reveal_strlit(",\"n\":");
        reveal_strlit("}");
        lemma_literal_bytes(p1);
        lemma_literal_bytes(p2);
        lemma_literal_bytes(p3);
        lemma_literal_bytes(p4);
        lemma_literal_bytes(p5);
    }
    let mut buf: Vec<u8> = Vec::new();
    push_bytes(&mut buf, p1);
    push_bytes(&mut buf, bits_b64);
    push_bytes(&mut buf, p2);
    push_decimal(&mut buf, ell);
    push_bytes(&mut buf, p3);
    push_decimal(&mut buf, k);
    push_bytes(&mut buf, p4);
    push_decimal(&mut buf, n);
    push_bytes(&mut buf, p5);
    assert(buf@ =~= payload_json(k, ell, n, bits_b64.spec_bytes()));
    buf
}

/// The directory the client keeps its key in.
pub fn config_dir() -> (r: String)
    ensures
        r@ == ".config/minegraph"@,
{
    String::from_str(".config/minegraph")
}

/// The path of the client's key file.
pub fn key_path() -> (r: String)
    ensures
        r@ == ".config/minegraph"@ + "/"@ + "key.json"@,
{
    let mut p = config_dir();
    p.append("/");
    p.append("key.json");
    p
}

} // verus!
