//! Ed25519 identities: key IDs, signature checks and the canonical payload
//! that a graph submission signs.

use vstd::prelude::*;
use vstd::string::StringSliceAdditionalSpecFns;

use crate::digest::{
    blake3_digest, blake3_hash, ed25519_public_key_valid, ed25519_public_of, ed25519_signature,
    ed25519_verifies, public_key_of, public_key_valid, sign_bytes, signature_verifies,
};
use crate::hexstr::{HexError, hex_decode, hex_decoded, hex_encode, hex_lower, lemma_hex_roundtrip};
use vstd::utf8::encode_utf8;
use crate::types::KeyId;

verus! {

/// Why an identity operation failed.
#[derive(Clone, Copy, Debug, PartialEq, Eq)]
pub enum IdentityError {
    InvalidSecretKey,
    InvalidPublicKey,
    InvalidSignature,
    VerificationFailed,
    HexDecode(HexError),
}

/// A stored key pair, its fields in hex.
#[derive(Clone, Debug, PartialEq, Eq)]
pub struct KeyFile {
    pub key_id: String,
    pub public_key: String,
    pub secret_key: String,
    pub display_name: Option<String>,
}

/// The four little-endian bytes of `n`.
pub open spec fn le_bytes(n: u32) -> Seq<u8> {
    seq![
        (n % 256) as u8,
        ((n / 256) % 256) as u8,
        ((n / 65536) % 256) as u8,
        ((n / 16777216) % 256) as u8,
    ]
}

/// The key ID of a public key: the first 16 hex digits of its BLAKE3 hash.
pub open spec fn key_id_of(public_key: Seq<u8>) -> Seq<char> {
    hex_lower(blake3_digest(public_key)).take(16)
}

/// The first `2k` hex digits of a byte string are those of its first `k`
/// bytes.
pub proof fn lemma_hex_prefix(bytes: Seq<u8>, k: int)
    requires
        0 <= k <= bytes.len(),
    ensures
        hex_lower(bytes.take(k)) == hex_lower(bytes).take(2 * k),
{
    assert(hex_lower(bytes.take(k)) =~= hex_lower(bytes).take(2 * k));
}

/// The key ID of a 32-byte public key.
pub fn compute_key_id(public_key: &[u8; 32]) -> (r: KeyId)
    ensures
        r.0@ == key_id_of(public_key@),
{
    let hash = blake3_hash(public_key.as_slice());
    let mut head: Vec<u8> = Vec::new();
    let mut i: usize = 0;
    while i < 8
        invariant
            0 <= i <= 8,
            hash@.len() == 32,
            head@ == hash@.take(i as int),
        decreases 8 - i,
    {
        head.push(hash[i]);
        proof {
            assert(head@ =~= hash@.take(i + 1));
        }
        i = i + 1;
    }
    proof {
        lemma_hex_prefix(hash@, 8);
    }
    KeyId(hex_encode(head.as_slice()))
}

/// What decoding a public key from hex gives, before the curve check: the
/// hex error, or the bytes, which must number 32.
pub open spec fn key_bytes_decoded(text: Seq<u8>) -> Result<Seq<u8>, IdentityError> {
    match hex_decoded(text) {
        Ok(v) => if v.len() == 32 {
            Ok(v)
        } else {
            Err(IdentityError::InvalidPublicKey)
        },
        Err(e) => Err(IdentityError::HexDecode(e)),
    }
}

/// Copy 32 bytes into an array.
fn to_array32(v: &Vec<u8>) -> (a: [u8; 32])
    requires
        v@.len() == 32,
    ensures
        a@ == v@,
{
    let mut a = [0u8; 32];
    let mut i: usize = 0;
    while i < 32
        invariant
            v@.len() == 32,
            0 <= i <= 32,
            forall|j: int| 0 <= j < i ==> #[trigger] a@[j] == v@[j],
        decreases 32 - i,
    {
        a[i] = v[i];
        i = i + 1;
    }
    assert(a@ =~= v@);
    a
}

/// Copy 64 bytes into an array.
fn to_array64(v: &Vec<u8>) -> (a: [u8; 64])
    requires
        v@.len() == 64,
    ensures
        a@ == v@,
{
    let mut a = [0u8; 64];
    let mut i: usize = 0;
    while i < 64
        invariant
            v@.len() == 64,
            0 <= i <= 64,
            forall|j: int| 0 <= j < i ==> #[trigger] a@[j] == v@[j],
        decreases 64 - i,
    {
        a[i] = v[i];
        i = i + 1;
    }
    assert(a@ =~= v@);
    a
}

/// The key ID of a public key given in hex.
pub fn compute_key_id_from_hex(public_key_hex: &str) -> (r: Result<KeyId, IdentityError>)
    ensures
        match key_bytes_decoded(public_key_hex.spec_bytes()) {
            Err(e) => r == Err::<KeyId, IdentityError>(e),
            Ok(pk) => if ed25519_public_key_valid(pk) {
                r matches Ok(id) && id.0@ == key_id_of(pk)
            } else {
                r == Err::<KeyId, IdentityError>(IdentityError::InvalidPublicKey)
            },
        },
{
    let bytes = match hex_decode(public_key_hex) {
        Ok(v) => v,
        Err(e) => return Err(IdentityError::HexDecode(e)),
    };
    if bytes.len() != 32 {
        return Err(IdentityError::InvalidPublicKey);
    }
    let pk = to_array32(&bytes);
    if !public_key_valid(&pk) {
        return Err(IdentityError::InvalidPublicKey);
    }
    Ok(compute_key_id(&pk))
}

/// What decoding a signature from hex gives: the hex error, or the bytes,
/// which must number 64.
pub open spec fn signature_bytes_decoded(text: Seq<u8>) -> Result<Seq<u8>, IdentityError> {
    match hex_decoded(text) {
        Ok(v) => if v.len() == 64 {
            Ok(v)
        } else {
            Err(IdentityError::InvalidSignature)
        },
        Err(e) => Err(IdentityError::HexDecode(e)),
    }
}

/// The answer to a signature check with the key and the signature given
/// as hex text: the first decoding error, `InvalidPublicKey` for bytes that
/// are no curve point, else whether the signature checks.
pub open spec fn signature_check(key_text: Seq<u8>, payload: Seq<u8>, sig_text: Seq<u8>) -> Result<bool, IdentityError> {
    match key_bytes_decoded(key_text) {
        Err(e) => Err(e),
        Ok(pk) => if !ed25519_public_key_valid(pk) {
            Err(IdentityError::InvalidPublicKey)
        } else {
            match signature_bytes_decoded(sig_text) {
                Err(e) => Err(e),
                Ok(sig) => Ok(ed25519_verifies(pk, payload, sig)),
            }
        },
    }
}

/// Check an Ed25519 signature, the key and the signature given in hex.
/// Malformed inputs are errors; a well-formed signature that does not
/// check gives `Ok(false)`.
pub fn verify_signature(public_key_hex: &str, payload: &[u8], signature_hex: &str) -> (r: Result<
    bool,
    IdentityError,
>)
    ensures
        r == signature_check(public_key_hex.spec_bytes(), payload@, signature_hex.spec_bytes()),
{
    let pk_bytes = match hex_decode(public_key_hex) {
        Ok(v) => v,
        Err(e) => return Err(IdentityError::HexDecode(e)),
    };
    if pk_bytes.len() != 32 {
        return Err(IdentityError::InvalidPublicKey);
    }
    let pk = to_array32(&pk_bytes);
    if !public_key_valid(&pk) {
        return Err(IdentityError::InvalidPublicKey);
    }
    let sig_bytes = match hex_decode(signature_hex) {
        Ok(v) => v,
        Err(e) => return Err(IdentityError::HexDecode(e)),
    };
    if sig_bytes.len() != 64 {
        return Err(IdentityError::InvalidSignature);
    }
    let sig = to_array64(&sig_bytes);
    Ok(signature_verifies(&pk, payload, &sig))
}

/// The bytes a graph submission signs: `n` as four little-endian bytes,
/// then the graph6 text.
pub fn canonical_payload(n: u32, graph6: &str) -> (r: Vec<u8>)
    ensures
        r@ == le_bytes(n) + graph6.spec_bytes(),
{
    let text = graph6.as_bytes();
    let mut buf: Vec<u8> = Vec::new();
    buf.push((n % 256) as u8);
    buf.push(((n / 256) % 256) as u8);
    buf.push(((n / 65536) % 256) as u8);
    buf.push(((n / 16777216) % 256) as u8);
    let mut i: usize = 0;
    while i < text.len()
        invariant
            text@ == graph6.spec_bytes(),
            i <= text@.len(),
            buf@ == le_bytes(n) + text@.take(i as int),
        decreases text@.len() - i,
    {
        buf.push(text[i]);
        proof {
            assert(buf@ =~= le_bytes(n) + text@.take(i + 1));
        }
        i = i + 1;
    }
    assert(text@.take(i as int) =~= text@);
    buf
}

/// What decoding a secret key from hex gives: the hex error, or the bytes,
/// which must number 32.
pub open spec fn secret_bytes_decoded(text: Seq<u8>) -> Result<Seq<u8>, IdentityError> {
    match hex_decoded(text) {
        Ok(v) => if v.len() == 32 {
            Ok(v)
        } else {
            Err(IdentityError::InvalidSecretKey)
        },
        Err(e) => Err(IdentityError::HexDecode(e)),
    }
}

/// A signing identity: its key ID, its Ed25519 key pair and an optional
/// display name.
pub struct Identity {
    pub key_id: KeyId,
    pub secret_key: [u8; 32],
    pub public_key: [u8; 32],
    pub display_name: Option<String>,
}

/// Wraps `ed25519_dalek::SigningKey::generate` with the operating system's
/// random source, and gives the new key's secret bytes. They are random:
/// nothing is promised of them.
#[verifier::external_body]
fn fresh_secret_key() -> (secret: [u8; 32]) {
    ed25519_dalek::SigningKey::generate(&mut rand::rngs::OsRng).to_bytes()
}

impl Identity {
    /// The public key belongs to the secret key, and the key ID to the
    /// public key.
    pub open spec fn wf(&self) -> bool {
        &&& self.public_key@ == ed25519_public_of(self.secret_key@)
        &&& ed25519_public_key_valid(self.public_key@)
        &&& self.key_id.0@ == key_id_of(self.public_key@)
    }

    /// The identity of a secret key.
    pub fn from_secret(secret_key: [u8; 32], display_name: Option<String>) -> (r: Self)
        ensures
            r.wf(),
            r.secret_key == secret_key,
            r.display_name == display_name,
    {
        let public_key = public_key_of(&secret_key);
        let key_id = compute_key_id(&public_key);
        Identity { key_id, secret_key, public_key, display_name }
    }

    /// A fresh identity with a random key.
    pub fn generate(display_name: Option<String>) -> (r: Self)
        ensures
            r.wf(),
            r.display_name == display_name,
    {
        Self::from_secret(fresh_secret_key(), display_name)
    }

    /// The public key.
    pub fn verifying_key(&self) -> (r: [u8; 32])
        ensures
            r == self.public_key,
    {
        self.public_key
    }

    /// Sign a payload; the signature (64 bytes) in hex. It checks under the
    /// identity's public key.
    pub fn sign(&self, payload: &[u8]) -> (r: String)
        requires
            self.wf(),
        ensures
            r@ == hex_lower(ed25519_signature(self.secret_key@, payload@)) && ed25519_verifies(
                self.public_key@,
                payload@,
                ed25519_signature(self.secret_key@, payload@),
            ),
            ed25519_signature(self.secret_key@, payload@).len() == 64,
    {
        let sig = sign_bytes(&self.secret_key, payload);
        assert(sig@.len() == 64);
        hex_encode(sig.as_slice())
    }

    /// The key file of the identity: its key ID, and its keys in hex.
    pub fn to_key_file(&self) -> (r: KeyFile)
        ensures
            r.key_id@ == self.key_id.0@,
            r.public_key@ == hex_lower(self.public_key@),
            r.secret_key@ == hex_lower(self.secret_key@),
            r.display_name == self.display_name,
    {
        KeyFile {
            key_id: self.key_id.0.clone(),
            public_key: hex_encode(self.public_key.as_slice()),
            secret_key: hex_encode(self.secret_key.as_slice()),
            display_name: self.display_name.clone(),
        }
    }

    /// The identity a key file holds, from its secret key alone; refused
    /// when the secret key is not hex or not 32 bytes.
    pub fn from_key_file(kf: &KeyFile) -> (r: Result<Self, IdentityError>)
        ensures
            match secret_bytes_decoded(encode_utf8(kf.secret_key@)) {
                Err(e) => r == Err::<Self, IdentityError>(e),
                Ok(sk) => r matches Ok(id) && id.wf() && id.secret_key@ == sk && id.display_name
                    == kf.display_name,
            },
    {
        let bytes = match hex_decode(kf.secret_key.as_str()) {
            Ok(v) => v,
            Err(e) => return Err(IdentityError::HexDecode(e)),
        };
        if bytes.len() != 32 {
            return Err(IdentityError::InvalidSecretKey);
        }
        let secret = to_array32(&bytes);
        Ok(Self::from_secret(secret, kf.display_name.clone()))
    }
}

/// The key file an identity writes loads back to its secret key, so to an
/// identity with the same keys and key ID.
pub proof fn lemma_key_file_roundtrip(id: Identity, kf: KeyFile, loaded: Identity)
    requires
        id.wf(),
        loaded.wf(),
        kf.secret_key@ == hex_lower(id.secret_key@),
        secret_bytes_decoded(encode_utf8(kf.secret_key@)) == Ok::<Seq<u8>, IdentityError>(loaded.secret_key@),
    ensures
        secret_bytes_decoded(encode_utf8(kf.secret_key@)) == Ok::<Seq<u8>, IdentityError>(id.secret_key@),
        loaded.secret_key == id.secret_key,
        loaded.public_key == id.public_key,
        loaded.key_id.0@ == id.key_id.0@,
{
    lemma_hex_roundtrip(id.secret_key@);
    assert(loaded.secret_key@ == id.secret_key@);
    assert(loaded.secret_key =~= id.secret_key);
    assert(loaded.public_key@ == id.public_key@);
    assert(loaded.public_key =~= id.public_key);
}

/// A signature that checks, written in hex with its public key in hex, is
/// accepted by `verify_signature`.
pub proof fn lemma_signature_accepted(pk: Seq<u8>, payload: Seq<u8>, sig: Seq<u8>)
    requires
        pk.len() == 32,
        sig.len() == 64,
        ed25519_public_key_valid(pk),
        ed25519_verifies(pk, payload, sig),
    ensures
        signature_check(encode_utf8(hex_lower(pk)), payload, encode_utf8(hex_lower(sig))) == Ok::<
            bool,
            IdentityError,
        >(true),
{
    lemma_hex_roundtrip(pk);
    lemma_hex_roundtrip(sig);
}

} // verus!
