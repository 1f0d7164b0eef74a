//! Shared identifiers: graph content identifiers, key identifiers, verdicts
//! and the build version string.

use vstd::prelude::*;
use vstd::string::StringSliceAdditionalSpecFns;

use crate::hexstr::{HexError, hex_decode, hex_decoded, hex_encode, hex_lower, str_eq};

verus! {

/// Protocol version for API compatibility checks.
pub const PROTOCOL_VERSION: &'static str = "1.0.0";

/// What decoding a CID from the bytes of a hex string gives: the hex
/// decoding, which must be exactly 32 bytes long.
pub open spec fn cid_decoded(bytes: Seq<u8>) -> Result<Seq<u8>, HexError> {
    match hex_decoded(bytes) {
        Ok(v) => if v.len() == 32 {
            Ok(v)
        } else {
            Err(HexError::InvalidStringLength)
        },
        Err(e) => Err(e),
    }
}

/// A 32-byte content identifier for a graph: the hash of its canonical
/// graph6 text. Ordered bytewise.
#[derive(Clone, Copy, Debug, PartialEq, Eq, PartialOrd, Ord, Hash)]
pub struct GraphCid(pub [u8; 32]);

impl GraphCid {
    /// A CID with the given bytes.
    pub fn from_bytes(bytes: [u8; 32]) -> (r: Self)
        ensures
            r.0 == bytes,
    {
        Self(bytes)
    }

    /// Decode a CID from 64 hex digits (either case).
    pub fn from_hex(s: &str) -> (r: Result<Self, HexError>)
        ensures
            match r {
                Ok(c) => cid_decoded(s.spec_bytes()) == Ok::<Seq<u8>, HexError>(c.0@),
                Err(e) => cid_decoded(s.spec_bytes()) == Err::<Seq<u8>, HexError>(e),
            },
    {
        let bytes = match hex_decode(s) {
            Ok(v) => v,
            Err(e) => return Err(e),
        };
        if bytes.len() != 32 {
            return Err(HexError::InvalidStringLength);
        }
        let mut arr = [0u8; 32];
        let mut i: usize = 0;
        while i < 32
            invariant
                bytes@.len() == 32,
                0 <= i <= 32,
                forall|j: int| 0 <= j < i ==> #[trigger] arr@[j] == bytes@[j],
            decreases 32 - i,
        {
            arr[i] = bytes[i];
            i = i + 1;
        }
        assert(arr@ =~= bytes@);
        Ok(Self(arr))
    }

    /// The CID as 64 lowercase hex digits.
    pub fn to_hex(&self) -> (s: String)
        ensures
            s@ == hex_lower(self.0@),
    {
        hex_encode(self.0.as_slice())
    }

    /// The raw bytes.
    pub fn as_bytes(&self) -> (r: &[u8; 32])
        ensures
            *r == self.0,
    {
        &self.0
    }
}

/// Decoding the hex text of a CID gives the CID back.
pub proof fn lemma_cid_hex_roundtrip(c: GraphCid)
    ensures
        cid_decoded(vstd::utf8::encode_utf8(hex_lower(c.0@))) == Ok::<Seq<u8>, HexError>(c.0@),
{
    crate::hexstr::lemma_hex_roundtrip(c.0@);
}

/// An identity key ID: the first 16 hex digits of the hash of a public key.
#[derive(Clone, Debug, PartialEq, Eq, PartialOrd, Ord, Hash)]
pub struct KeyId(pub String);

impl KeyId {
    /// A key ID with the given text.
    pub fn new(s: &str) -> (r: Self)
        ensures
            r.0@ == s@,
    {
        Self(s.to_owned())
    }

    /// The text of the key ID.
    pub fn as_str(&self) -> (r: &str)
        ensures
            r@ == self.0@,
    {
        self.0.as_str()
    }

    /// The text of the key ID, owned.
    pub fn to_string(&self) -> (r: String)
        ensures
            r@ == self.0@,
    {
        self.0.clone()
    }
}

/// The outcome of a graph verification or scoring request.
#[derive(Clone, Copy, Debug, PartialEq, Eq)]
pub enum Verdict {
    Accepted,
    Rejected,
}

/// The version string for display: the version alone when the commit is
/// `"unknown"`, else `"<version> (<commit>)"`.
pub fn build_version(version: &str, commit: &str) -> (r: String)
    ensures
        r@ == if commit@ == "unknown"@ {
            version@
        } else {
            version@ + " ("@ + commit@ + ")"@
        },
{
    if str_eq(commit, "unknown") {
        version.to_owned()
    } else {
        let mut s = version.to_owned();
        s.append(" (");
        s.append(commit);
        s.append(")");
        s
    }
}

} // verus!
