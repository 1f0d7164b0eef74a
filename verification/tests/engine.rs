use extremal::adjacency::AdjacencyMatrix;
use extremal::engine::{
    CommandKind, SubmitDecision, WorkerState, batch_size, buffer_excess, bytes_at_least, gate_round, keep_newest,
    leaderboard_full, round_batch, runs_round, scoring_limit, seed_graph, state_after, submit_decision,
};
use extremal::graph6::encode;
use extremal::paley::paley_graph;
use extremal::types::GraphCid;
use rand::SeedableRng;
use rand::rngs::SmallRng;

fn cid(b: u8) -> GraphCid {
    GraphCid::from_bytes([b; 32])
}

#[test]
fn commands_move_the_engine_state() {
    let s = WorkerState::Searching;
    assert_eq!(state_after(s, CommandKind::Pause), WorkerState::Paused);
    assert_eq!(state_after(WorkerState::Paused, CommandKind::Resume), WorkerState::Searching);
    assert_eq!(state_after(WorkerState::Paused, CommandKind::Pause), WorkerState::Paused);
    assert_eq!(state_after(s, CommandKind::Stop), WorkerState::Idle);
    assert_eq!(state_after(WorkerState::Paused, CommandKind::GetStatus), WorkerState::Paused);
    assert_eq!(state_after(s, CommandKind::UpdateConfig), WorkerState::Searching);
    assert!(runs_round(WorkerState::Searching));
    assert!(!runs_round(WorkerState::Paused));
    assert!(!runs_round(WorkerState::Idle));
}

#[test]
fn byte_order_is_lexicographic() {
    assert!(bytes_at_least(&[1, 2, 3], &[1, 2, 3]));
    assert!(bytes_at_least(&[1, 3], &[1, 2, 9]));
    assert!(!bytes_at_least(&[1, 2], &[1, 2, 0]), "a proper prefix comes first");
    assert!(bytes_at_least(&[1, 2, 0], &[1, 2]));
    assert!(!bytes_at_least(&[0, 255], &[1]));
    assert!(bytes_at_least(&[], &[]));
}

#[test]
fn submission_filters_in_order() {
    let known = vec![cid(1)];
    let server = vec![cid(1), cid(2)];
    let thr = Some(vec![5u8, 0]);
    assert_eq!(submit_decision(&cid(1), &[0], &known, &server, true, &thr), SubmitDecision::KnownLocally);
    assert_eq!(submit_decision(&cid(2), &[0], &known, &server, true, &thr), SubmitDecision::KnownToServer);
    assert_eq!(submit_decision(&cid(3), &[5, 0], &known, &server, true, &thr), SubmitDecision::BelowThreshold);
    assert_eq!(submit_decision(&cid(3), &[6], &known, &server, true, &thr), SubmitDecision::BelowThreshold);
    assert_eq!(submit_decision(&cid(3), &[4, 9], &known, &server, true, &thr), SubmitDecision::Queue);
    // the threshold gates only a full leaderboard
    assert_eq!(submit_decision(&cid(3), &[6], &known, &server, false, &thr), SubmitDecision::Queue);
    assert_eq!(submit_decision(&cid(3), &[6], &known, &server, true, &None), SubmitDecision::Queue);
}

#[test]
fn round_sizes() {
    assert!(leaderboard_full(50, 50));
    assert!(!leaderboard_full(49, 50));
    assert_eq!(batch_size(0), 20);
    assert_eq!(batch_size(7), 7);
    assert_eq!(scoring_limit(150), 150);
    assert_eq!(scoring_limit(1000), 200);
    assert_eq!(buffer_excess(500), 0);
    assert_eq!(buffer_excess(501), 301);
}

#[test]
fn known_cids_keep_the_newest() {
    let cids: Vec<GraphCid> = (0..10u8).map(cid).collect();
    let same = keep_newest(cids.clone(), 10, 5);
    assert_eq!(same.len(), 10);
    let kept = keep_newest(cids, 9, 4);
    assert_eq!(kept.len(), 4);
    assert_eq!(kept[0].as_bytes()[0], 6);
    assert_eq!(kept[3].as_bytes()[0], 9);
}

fn same_edges(a: &AdjacencyMatrix, b: &AdjacencyMatrix) -> bool {
    if a.n() != b.n() {
        return false;
    }
    for u in 0..a.n() {
        for v in (u + 1)..a.n() {
            if a.edge(u, v) != b.edge(u, v) {
                return false;
            }
        }
    }
    true
}

#[test]
fn seed_comes_from_the_pool_or_paley() {
    let mut rng = SmallRng::seed_from_u64(3);
    let c5 = paley_graph(5);
    let pool = vec![encode(&paley_graph(13)), encode(&c5)];
    let picked = seed_graph(&pool, 1, 5, 0, &mut rng);
    assert!(same_edges(&picked, &c5));
    // an undecodable entry falls back to the Paley graph on n vertices
    let bad = vec![String::from("")];
    let fallback = seed_graph(&bad, 0, 13, 0, &mut rng);
    assert!(same_edges(&fallback, &paley_graph(13)));
    let empty: Vec<String> = Vec::new();
    let noisy = seed_graph(&empty, 0, 13, 3, &mut rng);
    assert_eq!(noisy.n(), 13);
    let mut differing = 0;
    let p13 = paley_graph(13);
    for u in 0..13 {
        for v in (u + 1)..13 {
            if noisy.edge(u, v) != p13.edge(u, v) {
                differing += 1;
            }
        }
    }
    assert!(differing <= 3);
}

#[test]
fn gate_round_queues_new_cids_once() {
    let found = vec![
        (cid(1), vec![5u8]),
        (cid(2), vec![1u8]),
        (cid(1), vec![0u8]),
        (cid(3), vec![9u8]),
        (cid(4), vec![2u8]),
    ];
    let mut known = vec![cid(2)];
    let server = vec![cid(3)];
    let queued = gate_round(&found, &mut known, &server, true, &Some(vec![6u8]));
    // 2 is known locally, the second 1 was just queued, 3 is on the server.
    assert_eq!(queued, vec![0, 4]);
    assert_eq!(known, vec![cid(2), cid(1), cid(4)]);
    let mut known = Vec::new();
    let queued = gate_round(&found, &mut known, &server, true, &Some(vec![3u8]));
    assert_eq!(queued, vec![1, 2, 4], "while full, only scores below the threshold pass");
}

#[test]
fn gate_round_scores_at_most_the_limit() {
    let found: Vec<(GraphCid, Vec<u8>)> = (0..250u32).map(|i| {
        let mut b = [0u8; 32];
        b[0] = (i % 256) as u8;
        b[1] = (i / 256) as u8;
        (GraphCid::from_bytes(b), vec![0u8])
    }).collect();
    let mut known = Vec::new();
    let queued = gate_round(&found, &mut known, &Vec::new(), false, &None);
    assert_eq!(queued.len(), 200);
    assert_eq!(known.len(), 200);
}

#[test]
fn a_round_sends_at_most_one_batch() {
    assert_eq!(round_batch(3, 0), 3);
    assert_eq!(round_batch(30, 0), 20);
    assert_eq!(round_batch(30, 5), 5);
    assert_eq!(round_batch(0, 5), 0);
}
