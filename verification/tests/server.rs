use extremal::experiments::standard_problems;
use extremal::server::cache::{CacheEntry, LeaderboardCache};
use extremal::server::error::ApiError;
use extremal::identity::{Identity, canonical_payload};
use extremal::server::submit::{RequestRejection, SubmitGate, check_graph_request, gate_submission, receipt_payload};
use extremal::server::{history, keys, leaderboard};

#[test]
fn api_error_statuses_and_messages() {
    assert_eq!(
        ApiError::BadRequest("bad n".to_string()).status_and_message(),
        (400, "bad n".to_string())
    );
    assert_eq!(
        ApiError::NotFound("no such cid".to_string()).status_and_message(),
        (404, "no such cid".to_string())
    );
    assert_eq!(
        ApiError::InvalidSignature.status_and_message(),
        (400, "invalid signature".to_string())
    );
    assert_eq!(
        ApiError::UnregisteredIdentity("abcd".to_string()).status_and_message(),
        (400, "identity not registered: abcd".to_string())
    );
    assert_eq!(
        ApiError::Internal("disk on fire".to_string()).status_and_message(),
        (500, "internal server error".to_string())
    );
    assert_eq!(
        ApiError::Store("connection reset".to_string()).status_and_message(),
        (500, "internal server error".to_string())
    );
}

#[test]
fn cache_entry_expires_after_ttl() {
    let e = CacheEntry::new(vec![1u8, 2], 1000, 5000);
    assert_eq!(e.value, vec![1u8, 2]);
    assert!(!e.is_expired(5000));
    assert!(!e.is_expired(6000));
    assert!(e.is_expired(6001));
    // A clock reading before insertion is never expired.
    assert!(!e.is_expired(10));
}

#[test]
fn default_limits() {
    assert_eq!(leaderboard::default_limit(), 50);
    assert_eq!(history::default_limit(), 500);
    assert_eq!(keys::default_lb_limit(), 10);
    assert_eq!(keys::default_limit(), 50);
}

#[test]
fn standard_problem_set() {
    let p = standard_problems();
    assert_eq!(p.len(), 4);
    assert_eq!((p[0].name, p[0].n, p[0].k, p[0].ell), ("R(3,3)/n=5", 5, 3, 3));
    assert_eq!((p[1].name, p[1].n, p[1].k, p[1].ell), ("R(4,4)/n=17", 17, 4, 4));
    assert_eq!((p[2].name, p[2].n, p[2].k, p[2].ell), ("R(5,5)/n=25", 25, 5, 5));
    assert_eq!((p[3].name, p[3].n, p[3].k, p[3].ell), ("R(5,5)/n=43", 43, 5, 5));
}

#[test]
fn graph_requests_are_checked_in_order() {
    let c5 = extremal::graph6::encode(&extremal::paley::paley_graph(5));
    assert!(matches!(check_graph_request(0, 62, None, &c5), Err(RequestRejection::BadSize { max_n: 62 })));
    assert!(matches!(check_graph_request(70, 62, None, "!!"), Err(RequestRejection::BadSize { max_n: 62 })));
    assert!(matches!(check_graph_request(5, 62, Some(5000), &c5), Err(RequestRejection::MetadataTooLarge)));
    assert!(matches!(check_graph_request(5, 62, Some(10), "!!"), Err(RequestRejection::BadGraph6(_))));
    assert!(matches!(
        check_graph_request(6, 62, None, &c5),
        Err(RequestRejection::SizeMismatch { decoded: 5, expected: 6 })
    ));
    let m = check_graph_request(5, 62, Some(4096), &c5).ok().expect("a well-formed request passes");
    assert_eq!(m.n(), 5);
    assert_eq!(m.num_edges(), 5);
}

#[test]
fn receipt_payload_joins_cid_verdict_and_n() {
    assert_eq!(receipt_payload("abc123", "accepted", 25), b"abc123:accepted:25".to_vec());
    assert_eq!(receipt_payload("", "rejected", 0), b":rejected:0".to_vec());
}

fn hex_of(bytes: &[u8]) -> String {
    bytes.iter().map(|b| format!("{:02x}", b)).collect()
}

#[test]
fn gate_submission_follows_the_server_order() {
    let id = Identity::from_secret([7u8; 32], None);
    let pk = hex_of(&id.public_key);
    let graph6 = "Dhc"; // the 5-cycle
    let sig = id.sign(&canonical_payload(5, graph6));
    assert!(matches!(
        gate_submission(0, 64, None, graph6, Some(&pk), &sig),
        SubmitGate::Refused(RequestRejection::BadSize { max_n: 64 })
    ));
    assert!(matches!(
        gate_submission(5, 64, Some(5000), graph6, Some(&pk), &sig),
        SubmitGate::Refused(RequestRejection::MetadataTooLarge)
    ));
    assert!(matches!(gate_submission(5, 64, None, graph6, None, &sig), SubmitGate::UnregisteredIdentity));
    assert!(matches!(gate_submission(5, 64, None, graph6, Some(&pk), "zz"), SubmitGate::SignatureError(_)));
    let other = id.sign(&canonical_payload(6, graph6));
    assert!(matches!(gate_submission(5, 64, None, graph6, Some(&pk), &other), SubmitGate::InvalidSignature));
    match gate_submission(5, 64, None, graph6, Some(&pk), &sig) {
        SubmitGate::Accepted(g) => assert_eq!(g.num_edges(), 5),
        other => panic!("expected the submission to pass, got {:?}", other),
    }
}

#[test]
fn leaderboard_cache_expires_and_invalidates() {
    let mut cache = LeaderboardCache::new();
    assert!(cache.get_threshold(17, 0).is_none());
    cache.set_threshold(17, 5, Some(vec![1, 2]), 1_000);
    assert_eq!(cache.get_threshold(17, 1_000), Some((5, Some(vec![1, 2]))));
    assert_eq!(cache.get_threshold(17, 31_000), Some((5, Some(vec![1, 2]))), "exactly the lifetime is still fresh");
    assert!(cache.get_threshold(17, 31_001).is_none());
    cache.set_threshold(17, 6, None, 40_000);
    assert_eq!(cache.get_threshold(17, 40_000), Some((6, None)));

    cache.set_cids(17, vec!["aa".to_string(), "bb".to_string()], 0);
    cache.set_cids(25, vec!["cc".to_string()], 0);
    assert_eq!(cache.get_cids(17, 10), Some(vec!["aa".to_string(), "bb".to_string()]));

    cache.set_graphs(17, 10, 0, "[1]".to_string(), 0);
    cache.set_graphs(17, 10, 10, "[2]".to_string(), 0);
    cache.set_graphs(25, 10, 0, "[3]".to_string(), 0);
    assert_eq!(cache.get_graphs(17, 10, 10, 120_000), Some("[2]".to_string()));
    assert!(cache.get_graphs(17, 10, 10, 120_001).is_none());

    cache.invalidate(17);
    assert!(cache.get_threshold(17, 40_000).is_none());
    assert!(cache.get_cids(17, 10).is_none());
    assert!(cache.get_graphs(17, 10, 0, 10).is_none());
    assert!(cache.get_graphs(17, 10, 10, 10).is_none());
    assert_eq!(cache.get_cids(25, 10), Some(vec!["cc".to_string()]));
    assert_eq!(cache.get_graphs(25, 10, 0, 10), Some("[3]".to_string()));
}
