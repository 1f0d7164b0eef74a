//! The dashboard relay's registry of connected workers: who may connect
//! (an allow-list of key IDs, open to all when empty), how many may be
//! connected at once, and which are connected, one entry per worker ID.

use vstd::prelude::*;

use crate::hexstr::str_eq;

verus! {

/// A connected worker (its metadata as JSON text, its connection time in
/// milliseconds since the Unix epoch).
pub struct WorkerInfo {
    pub worker_id: String,
    pub key_id: String,
    pub n: u32,
    pub strategy: String,
    pub metadata: Option<String>,
    pub connected_at_ms: i64,
}

impl WorkerInfo {
    /// A field-by-field copy.
    pub fn copy_of(&self) -> (r: Self)
        ensures
            r == *self,
    {
        WorkerInfo {
            worker_id: self.worker_id.clone(),
            key_id: self.key_id.clone(),
            n: self.n,
            strategy: self.strategy.clone(),
            metadata: match &self.metadata {
                Some(m) => Some(m.clone()),
                None => None,
            },
            connected_at_ms: self.connected_at_ms,
        }
    }
}

/// `key` may connect: the allow-list is empty or names it.
pub open spec fn key_allowed(allowed: Seq<String>, key: Seq<char>) -> bool {
    allowed.len() == 0 || exists|i: int| 0 <= i < allowed.len() && (#[trigger] allowed[i])@ == key
}

/// Some entry has the worker ID `id`.
pub open spec fn has_worker(ws: Seq<WorkerInfo>, id: Seq<char>) -> bool {
    exists|i: int| 0 <= i < ws.len() && (#[trigger] ws[i]).worker_id@ == id
}

/// No two entries share a worker ID.
pub open spec fn ids_distinct(ws: Seq<WorkerInfo>) -> bool {
    forall|i: int, j: int| 0 <= i < j < ws.len() ==> (#[trigger] ws[i]).worker_id@ != (#[trigger] ws[j]).worker_id@
}

/// The place of the entry with worker ID `id`.
pub open spec fn index_of(ws: Seq<WorkerInfo>, id: Seq<char>) -> int {
    choose|i: int| 0 <= i < ws.len() && (#[trigger] ws[i]).worker_id@ == id
}

/// The entries with `w` recorded: in place of the entry with its worker ID
/// when there is one, appended otherwise.
pub open spec fn with_worker(ws: Seq<WorkerInfo>, w: WorkerInfo) -> Seq<WorkerInfo> {
    if has_worker(ws, w.worker_id@) {
        ws.update(index_of(ws, w.worker_id@), w)
    } else {
        ws.push(w)
    }
}

/// The entries without the one with worker ID `id`.
pub open spec fn without_worker(ws: Seq<WorkerInfo>, id: Seq<char>) -> Seq<WorkerInfo> {
    if has_worker(ws, id) {
        ws.remove(index_of(ws, id))
    } else {
        ws
    }
}

/// The registry of a dashboard relay.
pub struct DashboardState {
    /// Connected workers, one entry per worker ID.
    pub workers: Vec<WorkerInfo>,
    /// Key IDs allowed to connect; empty: all are.
    pub allowed_keys: Vec<String>,
    /// Most workers connected at once.
    pub max_workers: usize,
}

/// The place of the entry with worker ID `id`, if any.
fn find_worker(ws: &Vec<WorkerInfo>, id: &str) -> (r: Option<usize>)
    requires
        ids_distinct(ws@),
    ensures
        r is None <==> !has_worker(ws@, id@),
        r matches Some(i) ==> i < ws@.len() && ws@[i as int].worker_id@ == id@ && i == index_of(ws@, id@),
{
    let mut i: usize = 0;
    while i < ws.len()
        invariant
            i <= ws@.len(),
            ids_distinct(ws@),
            forall|j: int| 0 <= j < i ==> (#[trigger] ws@[j]).worker_id@ != id@,
        decreases ws@.len() - i,
    {
        if str_eq(ws[i].worker_id.as_str(), id) {
            proof {
                assert(ws@[i as int].worker_id@ == id@);
                assert(has_worker(ws@, id@));
                let c = index_of(ws@, id@);
                if c != i as int {
                    if c < i {
                        assert(ws@[c].worker_id@ != id@);
                    } else {
                        assert(ws@[i as int].worker_id@ != ws@[c].worker_id@);
                    }
                }
            }
            return Some(i);
        }
        i = i + 1;
    }
    None
}

impl DashboardState {
    /// No two entries share a worker ID, and no more than `max_workers`
    /// are connected.
    pub open spec fn inv(&self) -> bool {
        &&& ids_distinct(self.workers@)
        &&& self.workers@.len() <= self.max_workers
    }

    /// No worker connected yet.
    pub fn new(max_workers: usize, allowed_keys: Vec<String>) -> (r: Self)
        ensures
            r.inv(),
            r.workers@.len() == 0,
            r.allowed_keys@ == allowed_keys@,
            r.max_workers == max_workers,
    {
        DashboardState { workers: Vec::new(), allowed_keys, max_workers }
    }

    /// Whether a key ID may connect (an empty allow-list lets all in).
    pub fn is_key_allowed(&self, key_id: &str) -> (r: bool)
        ensures
            r == key_allowed(self.allowed_keys@, key_id@),
    {
        if self.allowed_keys.len() == 0 {
            return true;
        }
        let mut i: usize = 0;
        while i < self.allowed_keys.len()
            invariant
                i <= self.allowed_keys@.len(),
                forall|j: int| 0 <= j < i ==> (#[trigger] self.allowed_keys@[j])@ != key_id@,
            decreases self.allowed_keys@.len() - i,
        {
            if str_eq(self.allowed_keys[i].as_str(), key_id) {
                return true;
            }
            i = i + 1;
        }
        false
    }

    /// Register a worker: refused when its key is not allowed, or when the
    /// relay is full and the worker is not already connected; otherwise
    /// its entry is recorded (replacing one with the same worker ID).
    pub fn register_worker(&mut self, info: WorkerInfo) -> (r: bool)
        requires
            old(self).inv(),
        ensures
            final(self).inv(),
            final(self).allowed_keys@ == old(self).allowed_keys@,
            final(self).max_workers == old(self).max_workers,
            r == (key_allowed(old(self).allowed_keys@, info.key_id@)
                && (old(self).workers@.len() < old(self).max_workers || has_worker(old(self).workers@, info.worker_id@))),
            r ==> final(self).workers@ == with_worker(old(self).workers@, info),
            !r ==> final(self).workers@ == old(self).workers@,
    {
        if !self.is_key_allowed(info.key_id.as_str()) {
            return false;
        }
        match find_worker(&self.workers, info.worker_id.as_str()) {
            Some(i) => {
                let ghost before = self.workers@;
                self.workers.set(i, info);
                proof {
                    assert forall|a: int, b: int| 0 <= a < b < self.workers@.len() implies (#[trigger] self.workers@[a]).worker_id@
                        != (#[trigger] self.workers@[b]).worker_id@ by {
                        assert(before[a].worker_id@ != before[b].worker_id@);
                    }
                }
                true
            },
            None => {
                if self.workers.len() >= self.max_workers {
                    return false;
                }
                let ghost before = self.workers@;
                let ghost id = info.worker_id@;
                self.workers.push(info);
                proof {
                    assert forall|a: int, b: int| 0 <= a < b < self.workers@.len() implies (#[trigger] self.workers@[a]).worker_id@
                        != (#[trigger] self.workers@[b]).worker_id@ by {
                        if b == before.len() {
                            assert(self.workers@[a] == before[a]);
                        } else {
                            assert(before[a].worker_id@ != before[b].worker_id@);
                        }
                    }
                }
                true
            },
        }
    }

    /// Remove the worker with this ID, if connected.
    pub fn unregister_worker(&mut self, worker_id: &str)
        requires
            old(self).inv(),
        ensures
            final(self).inv(),
            final(self).allowed_keys@ == old(self).allowed_keys@,
            final(self).max_workers == old(self).max_workers,
            final(self).workers@ == without_worker(old(self).workers@, worker_id@),
    {
        match find_worker(&self.workers, worker_id) {
            Some(i) => {
                let ghost before = self.workers@;
                self.workers.remove(i);
                proof {
                    assert forall|a: int, b: int| 0 <= a < b < self.workers@.len() implies (#[trigger] self.workers@[a]).worker_id@
                        != (#[trigger] self.workers@[b]).worker_id@ by {
                        let a0 = if a < i { a } else { a + 1 };
                        let b0 = if b < i { b } else { b + 1 };
                        assert(self.workers@[a] == before[a0]);
                        assert(self.workers@[b] == before[b0]);
                        assert(before[a0].worker_id@ != before[b0].worker_id@);
                    }
                }
            },
            None => {},
        }
    }

    /// The connected workers.
    pub fn list_workers(&self) -> (r: Vec<WorkerInfo>)
        ensures
            r@ == self.workers@,
    {
        let mut r: Vec<WorkerInfo> = Vec::new();
        let mut i: usize = 0;
        while i < self.workers.len()
            invariant
                i <= self.workers@.len(),
                r@ == self.workers@.take(i as int),
            decreases self.workers@.len() - i,
        {
            r.push(self.workers[i].copy_of());
            assert(r@ =~= self.workers@.take(i + 1));
            i = i + 1;
        }
        assert(r@ =~= self.workers@);
        r
    }
}

/// Registering a worker that is not connected and then unregistering its
/// ID gives back the registry as it was.
pub proof fn lemma_register_unregister(ws: Seq<WorkerInfo>, w: WorkerInfo)
    requires
        ids_distinct(ws),
        !has_worker(ws, w.worker_id@),
    ensures
        without_worker(with_worker(ws, w), w.worker_id@) == ws,
{
    let pushed = ws.push(w);
    assert(pushed[ws.len() as int].worker_id@ == w.worker_id@);
    assert(has_worker(pushed, w.worker_id@));
    let c = index_of(pushed, w.worker_id@);
    if c < ws.len() {
        assert(pushed[c] == ws[c]);
        assert(has_worker(ws, w.worker_id@));
    }
    assert(pushed.remove(ws.len() as int) =~= ws);
}

/// A registered worker is connected afterwards, under the information it
/// registered with.
pub proof fn lemma_registered_is_listed(ws: Seq<WorkerInfo>, w: WorkerInfo)
    requires
        ids_distinct(ws),
    ensures
        has_worker(with_worker(ws, w), w.worker_id@),
        with_worker(ws, w)[index_of(with_worker(ws, w), w.worker_id@)] == w,
{
    let after = with_worker(ws, w);
    if has_worker(ws, w.worker_id@) {
        let i = index_of(ws, w.worker_id@);
        assert(after[i] == w);
        assert(has_worker(after, w.worker_id@));
        let c = index_of(after, w.worker_id@);
        if c != i {
            assert(after[c] == ws[c]);
            if c < i {
                assert(ws[c].worker_id@ != ws[i].worker_id@);
            } else {
                assert(ws[i].worker_id@ != ws[c].worker_id@);
            }
        }
    } else {
        assert(after[ws.len() as int] == w);
        assert(has_worker(after, w.worker_id@));
        let c = index_of(after, w.worker_id@);
        if c < ws.len() {
            assert(after[c] == ws[c]);
            assert(has_worker(ws, w.worker_id@));
        }
    }
}

/// Unregistering a worker leaves no entry with its ID.
pub proof fn lemma_unregistered_is_gone(ws: Seq<WorkerInfo>, id: Seq<char>)
    requires
        ids_distinct(ws),
    ensures
        !has_worker(without_worker(ws, id), id),
{
    if has_worker(ws, id) {
        let i = index_of(ws, id);
        let after = ws.remove(i);
        if has_worker(after, id) {
            let c = choose|c: int| 0 <= c < after.len() && (#[trigger] after[c]).worker_id@ == id;
            let c0 = if c < i { c } else { c + 1 };
            assert(after[c] == ws[c0]);
            if c0 < i {
                assert(ws[c0].worker_id@ != ws[i].worker_id@);
            } else {
                assert(ws[i].worker_id@ != ws[c0].worker_id@);
            }
        }
    }
}

} // verus!
