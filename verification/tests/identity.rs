use ed25519_dalek::SigningKey;
use extremal::adjacency::AdjacencyMatrix;
use extremal::cid::compute_cid;
use extremal::graph6::encode;
use extremal::hexstr::HexError;
use extremal::identity::{Identity, IdentityError, KeyFile, canonical_payload, compute_key_id, compute_key_id_from_hex, verify_signature};
use extremal::submission;
use extremal::types::{GraphCid, KeyId, build_version};
use rand::rngs::OsRng;

#[test]
fn canonical_payload_deterministic() {
    let p1 = canonical_payload(25, "DcG?_");
    let p2 = canonical_payload(25, "DcG?_");
    assert_eq!(p1, p2);
    let p3 = canonical_payload(26, "DcG?_");
    assert_ne!(p1, p3);
}

#[test]
fn canonical_payload_layout() {
    assert_eq!(canonical_payload(258, "AB"), vec![2, 1, 0, 0, b'A', b'B']);
}

#[test]
fn generate_and_sign_verify() {
    let identity = Identity::generate(Some("test".into()));
    let payload = b"hello world";
    let sig_hex = identity.sign(payload);

    let pk_hex = hex::encode(identity.verifying_key());
    let valid = verify_signature(&pk_hex, payload, &sig_hex).unwrap();
    assert!(valid);

    let wrong = verify_signature(&pk_hex, b"wrong", &sig_hex).unwrap();
    assert!(!wrong);
}

#[test]
fn key_file_roundtrip() {
    let identity = Identity::generate(Some("test-name".into()));
    let kf = identity.to_key_file();
    let loaded = Identity::from_key_file(&kf).unwrap();
    assert_eq!(identity.key_id, loaded.key_id);
    assert_eq!(loaded.display_name.as_deref(), Some("test-name"));

    let payload = b"test payload";
    let sig1 = identity.sign(payload);
    let sig2 = loaded.sign(payload);
    assert_eq!(sig1, sig2);
}

#[test]
fn identity_matches_dalek_keys() {
    let identity = Identity::from_secret([7u8; 32], None);
    let sk = SigningKey::from_bytes(&[7u8; 32]);
    assert_eq!(identity.verifying_key(), sk.verifying_key().to_bytes());
    assert_eq!(identity.key_id, compute_key_id(sk.verifying_key().as_bytes()));
    let kf = identity.to_key_file();
    assert_eq!(kf.secret_key, hex::encode([7u8; 32]));
    assert_eq!(kf.public_key, hex::encode(sk.verifying_key().as_bytes()));
    assert_eq!(kf.key_id, identity.key_id.as_str());
}

#[test]
fn key_file_with_bad_secret_rejected() {
    let mut kf: KeyFile = Identity::from_secret([3u8; 32], None).to_key_file();
    kf.secret_key = "abcd".to_string();
    assert!(matches!(Identity::from_key_file(&kf), Err(IdentityError::InvalidSecretKey)));
    kf.secret_key = "xyz".to_string();
    assert!(matches!(Identity::from_key_file(&kf), Err(IdentityError::HexDecode(HexError::OddLength))));
}

#[test]
fn lib_key_id_is_deterministic() {
    let signing_key = SigningKey::generate(&mut OsRng);
    let pk = signing_key.verifying_key();
    let id1 = compute_key_id(pk.as_bytes());
    let id2 = compute_key_id(pk.as_bytes());
    assert_eq!(id1, id2);
    assert_eq!(id1.as_str().len(), 16);
}

#[test]
fn compute_key_id_from_hex_works() {
    let identity = Identity::generate(None);
    let pk_hex = hex::encode(identity.verifying_key());
    let kid = compute_key_id_from_hex(&pk_hex).unwrap();
    assert_eq!(kid, identity.key_id);
}

#[test]
fn key_id_is_blake3_prefix() {
    let pk = SigningKey::from_bytes(&[9u8; 32]).verifying_key();
    let expected = &hex::encode(blake3::hash(pk.as_bytes()).as_bytes())[..16];
    assert_eq!(compute_key_id(pk.as_bytes()).as_str(), expected);
}

#[test]
fn malformed_keys_and_signatures_rejected() {
    assert_eq!(compute_key_id_from_hex("abc"), Err(IdentityError::HexDecode(HexError::OddLength)));
    assert_eq!(
        compute_key_id_from_hex("zz"),
        Err(IdentityError::HexDecode(HexError::InvalidHexCharacter { c: 'z', index: 0 }))
    );
    assert_eq!(compute_key_id_from_hex("abcd"), Err(IdentityError::InvalidPublicKey));
    let pk_hex = hex::encode(SigningKey::from_bytes(&[1u8; 32]).verifying_key().as_bytes());
    assert_eq!(verify_signature(&pk_hex, b"x", "00"), Err(IdentityError::InvalidSignature));
}

#[test]
fn identity_key_id_is_deterministic() {
    let signing_key = SigningKey::generate(&mut OsRng);
    let pub_key = signing_key.verifying_key();
    let id1 = submission::compute_key_id(pub_key.as_bytes());
    let id2 = submission::compute_key_id(pub_key.as_bytes());
    assert_eq!(id1, id2);
    assert_eq!(id1.len(), 16);
}

#[test]
fn sign_and_verify() {
    let signing_key = SigningKey::generate(&mut OsRng);
    let pub_hex = hex::encode(signing_key.verifying_key().as_bytes());

    let payload = submission::canonical_payload(5, 5, 25, "dGVzdA==");
    let sig_hex = submission::sign_payload(&signing_key.to_bytes(), &payload);

    assert!(submission::verify_signature(&pub_hex, &payload, &sig_hex).unwrap());

    let wrong_payload = submission::canonical_payload(5, 5, 24, "dGVzdA==");
    assert!(!submission::verify_signature(&pub_hex, &wrong_payload, &sig_hex).unwrap());
}

#[test]
fn submission_payload_is_canonical_json() {
    let p = submission::canonical_payload(5, 4, 25, "dGVzdA==");
    assert_eq!(
        String::from_utf8(p).unwrap(),
        r#"{"bits_b64":"dGVzdA==","ell":4,"encoding":"utri_b64_v1","k":5,"n":25}"#
    );
    let p = submission::canonical_payload(0, 4294967295, 10, "");
    assert_eq!(
        String::from_utf8(p).unwrap(),
        r#"{"bits_b64":"","ell":4294967295,"encoding":"utri_b64_v1","k":0,"n":10}"#
    );
}

#[test]
fn sha_key_id_matches_sha256_prefix() {
    let pk = SigningKey::from_bytes(&[3u8; 32]).verifying_key();
    let expected = hex::encode(&<sha2::Sha256 as sha2::Digest>::digest(pk.as_bytes())[..8]);
    assert_eq!(submission::compute_key_id(pk.as_bytes()), expected);
    assert_eq!(submission::compute_key_id_from_hex(&hex::encode(pk.as_bytes())).unwrap(), expected);
}

#[test]
fn client_key_location() {
    assert_eq!(submission::config_dir(), ".config/minegraph");
    assert_eq!(submission::key_path(), ".config/minegraph/key.json");
}

#[test]
fn cid_ordering() {
    let a = GraphCid::from_bytes([0u8; 32]);
    let b = GraphCid::from_bytes([1u8; 32]);
    assert!(a < b);
}

#[test]
fn key_id_display() {
    let kid = KeyId::new("3f8a1b2c4d5e6f70");
    assert_eq!(kid.to_string(), "3f8a1b2c4d5e6f70");
}

#[test]
fn cid_hex_roundtrip() {
    let bytes = [42u8; 32];
    let cid = GraphCid::from_bytes(bytes);
    let hex_str = cid.to_hex();
    let decoded = GraphCid::from_hex(&hex_str).unwrap();
    assert_eq!(cid, decoded);
}

#[test]
fn cid_from_hex_errors() {
    assert_eq!(GraphCid::from_hex("abcd"), Err(HexError::InvalidStringLength));
    assert_eq!(GraphCid::from_hex("a"), Err(HexError::OddLength));
    assert_eq!(GraphCid::from_hex(&"AB".repeat(32)).unwrap().as_bytes(), &[0xab; 32]);
}

#[test]
fn cid_deterministic() {
    let mut g = AdjacencyMatrix::new(5);
    g.set_edge(0, 1, true);
    g.set_edge(2, 3, true);
    let cid1 = compute_cid(&g);
    let cid2 = compute_cid(&g);
    assert_eq!(cid1, cid2);
}

#[test]
fn different_graphs_different_cids() {
    let mut g1 = AdjacencyMatrix::new(5);
    g1.set_edge(0, 1, true);

    let mut g2 = AdjacencyMatrix::new(5);
    g2.set_edge(0, 2, true);

    assert_ne!(compute_cid(&g1), compute_cid(&g2));
}

#[test]
fn cid_is_blake3() {
    let g = AdjacencyMatrix::new(5);
    let g6 = encode(&g);
    let expected = blake3::hash(g6.as_bytes());
    let cid = compute_cid(&g);
    assert_eq!(cid.as_bytes(), expected.as_bytes());
}

#[test]
fn build_version_string() {
    assert_eq!(build_version("0.2.0", "unknown"), "0.2.0");
    assert_eq!(build_version("0.2.0", "abc12345"), "0.2.0 (abc12345)");
}

#[test]
fn submission_payload_keys_are_sorted() {
    let p = submission::canonical_payload(5, 5, 25, "dGVzdA==");
    assert_eq!(p, br#"{"bits_b64":"dGVzdA==","ell":5,"encoding":"utri_b64_v1","k":5,"n":25}"#.to_vec());
}
