use extremal::dashboard::{DashboardState, WorkerInfo};

fn worker(id: &str, key: &str) -> WorkerInfo {
    WorkerInfo {
        worker_id: id.to_string(),
        key_id: key.to_string(),
        n: 25,
        strategy: "tree2".to_string(),
        metadata: None,
        connected_at_ms: 0,
    }
}

#[test]
fn open_relay_admits_up_to_capacity() {
    let mut state = DashboardState::new(2, Vec::new());
    assert!(state.is_key_allowed("anyone"));
    assert!(state.register_worker(worker("w1", "k1")));
    assert!(state.register_worker(worker("w2", "k2")));
    assert!(!state.register_worker(worker("w3", "k3")), "full relay refuses a new worker");
    // a connected worker may re-register even when full
    let mut again = worker("w1", "k1");
    again.n = 17;
    assert!(state.register_worker(again));
    let listed = state.list_workers();
    assert_eq!(listed.len(), 2);
    assert_eq!(listed[0].worker_id, "w1");
    assert_eq!(listed[0].n, 17);
}

#[test]
fn allow_list_restricts_keys() {
    let mut state = DashboardState::new(10, vec!["good".to_string()]);
    assert!(state.is_key_allowed("good"));
    assert!(!state.is_key_allowed("bad"));
    assert!(!state.register_worker(worker("w1", "bad")));
    assert!(state.register_worker(worker("w1", "good")));
    assert_eq!(state.list_workers().len(), 1);
}

#[test]
fn unregister_removes_only_that_worker() {
    let mut state = DashboardState::new(10, Vec::new());
    state.register_worker(worker("a", "k"));
    state.register_worker(worker("b", "k"));
    state.register_worker(worker("c", "k"));
    state.unregister_worker("b");
    let ids: Vec<String> = state.list_workers().into_iter().map(|w| w.worker_id).collect();
    assert_eq!(ids, vec!["a".to_string(), "c".to_string()]);
    state.unregister_worker("nobody");
    assert_eq!(state.list_workers().len(), 2);
}

#[test]
fn register_then_unregister_restores_the_registry() {
    let mut state = DashboardState::new(10, Vec::new());
    state.register_worker(worker("a", "k"));
    let before: Vec<String> = state.list_workers().into_iter().map(|w| w.worker_id).collect();
    assert!(state.register_worker(worker("z", "k")));
    state.unregister_worker("z");
    let after: Vec<String> = state.list_workers().into_iter().map(|w| w.worker_id).collect();
    assert_eq!(before, after);
}
