//! The leaderboard cache: thresholds, CID lists and graph pages per
//! leaderboard, each entry expiring a fixed time after insertion, and
//! dropped for a leaderboard when it admits a graph. Times are
//! milliseconds on a monotonic clock read by the caller.

use vstd::prelude::*;

verus! {

/// A cached value, when it was inserted and how long it stays fresh.
pub struct CacheEntry<T> {
    pub value: T,
    pub inserted_at_ms: u64,
    pub ttl_ms: u64,
}

impl<T> CacheEntry<T> {
    /// An entry inserted at `now_ms`.
    pub fn new(value: T, ttl_ms: u64, now_ms: u64) -> (r: Self)
        ensures
            r.value == value,
            r.inserted_at_ms == now_ms,
            r.ttl_ms == ttl_ms,
    {
        Self { value, inserted_at_ms: now_ms, ttl_ms }
    }

    /// Whether more than the entry's lifetime has passed by `now_ms`.
    pub fn is_expired(&self, now_ms: u64) -> (r: bool)
        ensures
            r == (now_ms > self.inserted_at_ms && now_ms - self.inserted_at_ms > self.ttl_ms),
    {
        now_ms > self.inserted_at_ms && now_ms - self.inserted_at_ms > self.ttl_ms
    }
}

/// Lifetime of cached thresholds and CID lists.
pub const DEFAULT_TTL_MS: u64 = 30000;

/// Lifetime of cached graph pages, which change less often and cost more.
pub const GRAPH_TTL_MS: u64 = 120000;

/// A cached admission threshold: the leaderboard's size and its threshold
/// score bytes, if any.
pub struct ThresholdEntry {
    pub count: i64,
    pub threshold: Option<Vec<u8>>,
}

/// The entry is still fresh at `now_ms`.
pub open spec fn fresh<T>(e: CacheEntry<T>, now_ms: u64) -> bool {
    !(now_ms > e.inserted_at_ms && now_ms - e.inserted_at_ms > e.ttl_ms)
}

/// No key occurs twice.
pub open spec fn keys_unique<K, T>(s: Seq<(K, T)>) -> bool {
    forall|i: int, j: int| 0 <= i < j < s.len() ==> s[i].0 != s[j].0
}

/// The value stored under `k`, if any.
pub open spec fn lookup<K, T>(s: Seq<(K, T)>, k: K) -> Option<T> {
    if exists|i: int| 0 <= i < s.len() && #[trigger] s[i].0 == k {
        Some(s[choose|i: int| 0 <= i < s.len() && #[trigger] s[i].0 == k].1)
    } else {
        None
    }
}

/// With unique keys, the value at a position is the one stored under its
/// key.
proof fn lemma_lookup_at<K, T>(s: Seq<(K, T)>, i: int)
    requires
        keys_unique(s),
        0 <= i < s.len(),
    ensures
        lookup(s, s[i].0) == Some(s[i].1),
{
    let j = choose|j: int| 0 <= j < s.len() && #[trigger] s[j].0 == s[i].0;
    if j != i {
        if j < i {
            assert(s[j].0 != s[i].0);
        } else {
            assert(s[i].0 != s[j].0);
        }
    }
}

/// The bytes of an optional byte string.
pub open spec fn opt_bytes(v: Option<Vec<u8>>) -> Option<Seq<u8>> {
    match v {
        Some(b) => Some(b@),
        None => None,
    }
}

/// The texts of a list of strings.
pub open spec fn texts(v: Seq<String>) -> Seq<Seq<char>> {
    Seq::new(v.len(), |i: int| v[i]@)
}

/// The cache for every leaderboard.
pub struct LeaderboardCache {
    pub thresholds: Vec<(i32, CacheEntry<ThresholdEntry>)>,
    pub cids: Vec<(i32, CacheEntry<Vec<String>>)>,
    pub graphs: Vec<((i32, i64, i64), CacheEntry<String>)>,
}

/// A copy of a byte string.
fn copy_bytes(v: &Vec<u8>) -> (r: Vec<u8>)
    ensures
        r@ == v@,
{
    let r = v.clone();
    assert(r@ =~= v@);
    r
}

/// A copy of a list of strings.
fn copy_texts(v: &Vec<String>) -> (r: Vec<String>)
    ensures
        texts(r@) == texts(v@),
{
    let mut r: Vec<String> = Vec::new();
    let mut i: usize = 0;
    while i < v.len()
        invariant
            i <= v@.len(),
            r@.len() == i,
            forall|j: int| 0 <= j < i ==> r@[j]@ == v@[j]@,
        decreases v@.len() - i,
    {
        r.push(v[i].clone());
        i = i + 1;
    }
    assert(texts(r@) =~= texts(v@));
    r
}

/// Store `value` under the key `n`, replacing what was stored under it.
fn put_key<T>(v: &mut Vec<(i32, T)>, n: i32, value: T)
    requires
        keys_unique(old(v)@),
    ensures
        keys_unique(final(v)@),
        lookup(final(v)@, n) == Some(value),
        forall|m: i32| m != n ==> #[trigger] lookup(final(v)@, m) == lookup(old(v)@, m),
{
        let ghost s0 = v@;
        let mut i: usize = 0;
        while i < v.len()
            invariant
                v@ == s0,
                keys_unique(s0),
                i <= s0.len(),
                forall|j: int| 0 <= j < i ==> s0[j].0 != n,
            ensures
                v@ == s0,
                i <= s0.len(),
                forall|j: int| 0 <= j < i ==> s0[j].0 != n,
                i < s0.len() ==> s0[i as int].0 == n,
            decreases s0.len() - i,
        {
            if v[i].0 == n {
                break;
            }
            i = i + 1;
        }
        if i < v.len() {
            v.remove(i);
        }
        let ghost s1 = v@;
        proof {
            assert forall|j: int| 0 <= j < s1.len() implies s1[j].0 != n by {
                if i < s0.len() {
                    if j < i {
                        assert(s1[j] == s0[j]);
                    } else {
                        assert(s1[j] == s0[j + 1]);
                        assert(s0[i as int].0 != s0[j + 1].0);
                    }
                }
            }
            assert(keys_unique(s1)) by {
                assert forall|a: int, b: int| 0 <= a < b < s1.len() implies s1[a].0 != s1[b].0 by {
                    if i < s0.len() {
                        let a0 = if a < i { a } else { a + 1 };
                        let b0 = if b < i { b } else { b + 1 };
                        assert(s1[a] == s0[a0] && s1[b] == s0[b0]);
                    }
                }
            }
            assert forall|m: i32| m != n implies #[trigger] lookup(s1, m) == lookup(s0, m) by {
                if exists|j: int| 0 <= j < s0.len() && #[trigger] s0[j].0 == m {
                    let j = choose|j: int| 0 <= j < s0.len() && #[trigger] s0[j].0 == m;
                    lemma_lookup_at(s0, j);
                    let j1 = if i < s0.len() && j > i { j - 1 } else { j };
                    assert(s1[j1] == s0[j]);
                    lemma_lookup_at(s1, j1);
                } else {
                    assert forall|j: int| 0 <= j < s1.len() implies #[trigger] s1[j].0 != m by {
                        if i < s0.len() && j >= i {
                            assert(s1[j] == s0[j + 1]);
                        } else {
                            assert(s1[j] == s0[j]);
                        }
                    }
                }
            }
        }
        v.push((n, value));
        proof {
            let s2 = v@;
            assert(keys_unique(s2)) by {
                assert forall|a: int, b: int| 0 <= a < b < s2.len() implies s2[a].0 != s2[b].0 by {
                    if b == s2.len() - 1 {
                        assert(s2[a] == s1[a]);
                    } else {
                        assert(s2[a] == s1[a] && s2[b] == s1[b]);
                    }
                }
            }
            lemma_lookup_at(s2, s2.len() - 1);
            assert forall|m: i32| m != n implies #[trigger] lookup(s2, m) == lookup(s1, m) by {
                if exists|j: int| 0 <= j < s1.len() && #[trigger] s1[j].0 == m {
                    let j = choose|j: int| 0 <= j < s1.len() && #[trigger] s1[j].0 == m;
                    lemma_lookup_at(s1, j);
                    assert(s2[j] == s1[j]);
                    lemma_lookup_at(s2, j);
                } else {
                    assert forall|j: int| 0 <= j < s2.len() implies #[trigger] s2[j].0 != m by {
                        if j < s1.len() {
                            assert(s2[j] == s1[j]);
                        }
                    }
                }
            }
        }
}

/// Store `value` under the page key `n`, replacing what was stored under
/// it.
fn put_page<T>(v: &mut Vec<((i32, i64, i64), T)>, n: (i32, i64, i64), value: T)
    requires
        keys_unique(old(v)@),
    ensures
        keys_unique(final(v)@),
        lookup(final(v)@, n) == Some(value),
        forall|m: (i32, i64, i64)| m != n ==> #[trigger] lookup(final(v)@, m) == lookup(old(v)@, m),
{
        let ghost s0 = v@;
        let mut i: usize = 0;
        while i < v.len()
            invariant
                v@ == s0,
                keys_unique(s0),
                i <= s0.len(),
                forall|j: int| 0 <= j < i ==> s0[j].0 != n,
            ensures
                v@ == s0,
                i <= s0.len(),
                forall|j: int| 0 <= j < i ==> s0[j].0 != n,
                i < s0.len() ==> s0[i as int].0 == n,
            decreases s0.len() - i,
        {
            if v[i].0.0 == n.0 && v[i].0.1 == n.1 && v[i].0.2 == n.2 {
                break;
            }
            i = i + 1;
        }
        if i < v.len() {
            v.remove(i);
        }
        let ghost s1 = v@;
        proof {
            assert forall|j: int| 0 <= j < s1.len() implies s1[j].0 != n by {
                if i < s0.len() {
                    if j < i {
                        assert(s1[j] == s0[j]);
                    } else {
                        assert(s1[j] == s0[j + 1]);
                        assert(s0[i as int].0 != s0[j + 1].0);
                    }
                }
            }
            assert(keys_unique(s1)) by {
                assert forall|a: int, b: int| 0 <= a < b < s1.len() implies s1[a].0 != s1[b].0 by {
                    if i < s0.len() {
                        let a0 = if a < i { a } else { a + 1 };
                        let b0 = if b < i { b } else { b + 1 };
                        assert(s1[a] == s0[a0] && s1[b] == s0[b0]);
                    }
                }
            }
            assert forall|m: (i32, i64, i64)| m != n implies #[trigger] lookup(s1, m) == lookup(s0, m) by {
                if exists|j: int| 0 <= j < s0.len() && #[trigger] s0[j].0 == m {
                    let j = choose|j: int| 0 <= j < s0.len() && #[trigger] s0[j].0 == m;
                    lemma_lookup_at(s0, j);
                    let j1 = if i < s0.len() && j > i { j - 1 } else { j };
                    assert(s1[j1] == s0[j]);
                    lemma_lookup_at(s1, j1);
                } else {
                    assert forall|j: int| 0 <= j < s1.len() implies #[trigger] s1[j].0 != m by {
                        if i < s0.len() && j >= i {
                            assert(s1[j] == s0[j + 1]);
                        } else {
                            assert(s1[j] == s0[j]);
                        }
                    }
                }
            }
        }
        v.push((n, value));
        proof {
            let s2 = v@;
            assert(keys_unique(s2)) by {
                assert forall|a: int, b: int| 0 <= a < b < s2.len() implies s2[a].0 != s2[b].0 by {
                    if b == s2.len() - 1 {
                        assert(s2[a] == s1[a]);
                    } else {
                        assert(s2[a] == s1[a] && s2[b] == s1[b]);
                    }
                }
            }
            lemma_lookup_at(s2, s2.len() - 1);
            assert forall|m: (i32, i64, i64)| m != n implies #[trigger] lookup(s2, m) == lookup(s1, m) by {
                if exists|j: int| 0 <= j < s1.len() && #[trigger] s1[j].0 == m {
                    let j = choose|j: int| 0 <= j < s1.len() && #[trigger] s1[j].0 == m;
                    lemma_lookup_at(s1, j);
                    assert(s2[j] == s1[j]);
                    lemma_lookup_at(s2, j);
                } else {
                    assert forall|j: int| 0 <= j < s2.len() implies #[trigger] s2[j].0 != m by {
                        if j < s1.len() {
                            assert(s2[j] == s1[j]);
                        }
                    }
                }
            }
        }
}

/// Drop what is stored under the key `n`.
fn drop_key<T>(v: &mut Vec<(i32, T)>, n: i32)
    requires
        keys_unique(old(v)@),
    ensures
        keys_unique(final(v)@),
        lookup(final(v)@, n) is None,
        forall|m: i32| m != n ==> #[trigger] lookup(final(v)@, m) == lookup(old(v)@, m),
{
        let ghost s0 = v@;
        let mut i: usize = 0;
        while i < v.len()
            invariant
                v@ == s0,
                keys_unique(s0),
                i <= s0.len(),
                forall|j: int| 0 <= j < i ==> s0[j].0 != n,
            ensures
                v@ == s0,
                i <= s0.len(),
                forall|j: int| 0 <= j < i ==> s0[j].0 != n,
                i < s0.len() ==> s0[i as int].0 == n,
            decreases s0.len() - i,
        {
            if v[i].0 == n {
                break;
            }
            i = i + 1;
        }
        if i < v.len() {
            v.remove(i);
        }
        let ghost s1 = v@;
        proof {
            assert forall|j: int| 0 <= j < s1.len() implies s1[j].0 != n by {
                if i < s0.len() {
                    if j < i {
                        assert(s1[j] == s0[j]);
                    } else {
                        assert(s1[j] == s0[j + 1]);
                        assert(s0[i as int].0 != s0[j + 1].0);
                    }
                }
            }
            assert(keys_unique(s1)) by {
                assert forall|a: int, b: int| 0 <= a < b < s1.len() implies s1[a].0 != s1[b].0 by {
                    if i < s0.len() {
                        let a0 = if a < i { a } else { a + 1 };
                        let b0 = if b < i { b } else { b + 1 };
                        assert(s1[a] == s0[a0] && s1[b] == s0[b0]);
                    }
                }
            }
            assert forall|m: i32| m != n implies #[trigger] lookup(s1, m) == lookup(s0, m) by {
                if exists|j: int| 0 <= j < s0.len() && #[trigger] s0[j].0 == m {
                    let j = choose|j: int| 0 <= j < s0.len() && #[trigger] s0[j].0 == m;
                    lemma_lookup_at(s0, j);
                    let j1 = if i < s0.len() && j > i { j - 1 } else { j };
                    assert(s1[j1] == s0[j]);
                    lemma_lookup_at(s1, j1);
                } else {
                    assert forall|j: int| 0 <= j < s1.len() implies #[trigger] s1[j].0 != m by {
                        if i < s0.len() && j >= i {
                            assert(s1[j] == s0[j + 1]);
                        } else {
                            assert(s1[j] == s0[j]);
                        }
                    }
                }
            }
        }
    proof {
        let s1 = v@;
        assert(!exists|j: int| 0 <= j < s1.len() && #[trigger] s1[j].0 == n);
    }
}

/// Drop every graph page stored for leaderboard `n`.
fn drop_board<T>(v: &mut Vec<((i32, i64, i64), T)>, n: i32)
    requires
        keys_unique(old(v)@),
    ensures
        keys_unique(final(v)@),
        forall|m: (i32, i64, i64)| m.0 == n ==> #[trigger] lookup(final(v)@, m) is None,
        forall|m: (i32, i64, i64)| m.0 != n ==> #[trigger] lookup(final(v)@, m) == lookup(old(v)@, m),
{
    let ghost s0 = v@;
    let mut i: usize = 0;
    while i < v.len()
        invariant
            i <= v@.len(),
            keys_unique(v@),
            forall|j: int| 0 <= j < i ==> (#[trigger] v@[j]).0.0 != n,
            forall|j: int| 0 <= j < v@.len() ==> s0.contains(#[trigger] v@[j]),
            forall|j: int| 0 <= j < s0.len() && s0[j].0.0 != n ==> v@.contains(#[trigger] s0[j]),
        decreases v@.len() - i,
    {
        if v[i].0.0 == n {
            let ghost b = v@;
            v.remove(i);
            proof {
                let s1 = v@;
                assert forall|a: int, c: int| 0 <= a < c < s1.len() implies s1[a].0 != s1[c].0 by {
                    let a0 = if a < i { a } else { a + 1 };
                    let c0 = if c < i { c } else { c + 1 };
                    assert(s1[a] == b[a0] && s1[c] == b[c0]);
                }
                assert forall|j: int| 0 <= j < i implies (#[trigger] s1[j]).0.0 != n by {
                    assert(s1[j] == b[j]);
                }
                assert forall|j: int| 0 <= j < s1.len() implies s0.contains(#[trigger] s1[j]) by {
                    let j0 = if j < i { j } else { j + 1 };
                    assert(s1[j] == b[j0]);
                }
                assert forall|j: int| 0 <= j < s0.len() && s0[j].0.0 != n implies s1.contains(#[trigger] s0[j]) by {
                    let w = choose|w: int| 0 <= w < b.len() && b[w] == s0[j];
                    assert(w != i);
                    let w1 = if w < i { w } else { w - 1 };
                    assert(s1[w1] == b[w]);
                }
            }
        } else {
            i = i + 1;
        }
    }
    proof {
        let s1 = v@;
        assert forall|m: (i32, i64, i64)| m.0 == n implies #[trigger] lookup(s1, m) is None by {
            assert(!exists|j: int| 0 <= j < s1.len() && #[trigger] s1[j].0 == m);
        }
        assert forall|m: (i32, i64, i64)| m.0 != n implies #[trigger] lookup(s1, m) == lookup(s0, m) by {
            if exists|j: int| 0 <= j < s0.len() && #[trigger] s0[j].0 == m {
                let j = choose|j: int| 0 <= j < s0.len() && #[trigger] s0[j].0 == m;
                lemma_lookup_at(s0, j);
                assert(s1.contains(s0[j]));
                let w = choose|w: int| 0 <= w < s1.len() && s1[w] == s0[j];
                lemma_lookup_at(s1, w);
            } else {
                assert forall|j: int| 0 <= j < s1.len() implies #[trigger] s1[j].0 != m by {
                    assert(s0.contains(s1[j]));
                }
            }
        }
    }
}

impl LeaderboardCache {
    /// No leaderboard has an entry twice.
    pub open spec fn wf(&self) -> bool {
        &&& keys_unique(self.thresholds@)
        &&& keys_unique(self.cids@)
        &&& keys_unique(self.graphs@)
    }

    /// An empty cache.
    pub fn new() -> (r: Self)
        ensures
            r.wf(),
            r.thresholds@.len() == 0,
            r.cids@.len() == 0,
            r.graphs@.len() == 0,
    {
        LeaderboardCache { thresholds: Vec::new(), cids: Vec::new(), graphs: Vec::new() }
    }

    /// The cached size and threshold of leaderboard `n`, if cached and
    /// still fresh at `now_ms`.
    pub fn get_threshold(&self, n: i32, now_ms: u64) -> (r: Option<(i64, Option<Vec<u8>>)>)
        requires
            self.wf(),
        ensures
            r is Some <==> (lookup(self.thresholds@, n) matches Some(e) && fresh(e, now_ms)),
            r matches Some(v) ==> (lookup(self.thresholds@, n) matches Some(e) && v.0 == e.value.count
                && opt_bytes(v.1) == opt_bytes(e.value.threshold)),
    {
        let mut i: usize = 0;
        while i < self.thresholds.len()
            invariant
                self.wf(),
                i <= self.thresholds@.len(),
                forall|j: int| 0 <= j < i ==> self.thresholds@[j].0 != n,
            decreases self.thresholds@.len() - i,
        {
            if self.thresholds[i].0 == n {
                proof {
                    lemma_lookup_at(self.thresholds@, i as int);
                }
                let e = &self.thresholds[i].1;
                if e.is_expired(now_ms) {
                    return None;
                }
                let t = match &e.value.threshold {
                    Some(b) => Some(copy_bytes(b)),
                    None => None,
                };
                return Some((e.value.count, t));
            }
            i = i + 1;
        }
        None
    }

    /// Cache the size and threshold of leaderboard `n` at `now_ms`,
    /// replacing what was cached for it.
    pub fn set_threshold(&mut self, n: i32, count: i64, threshold: Option<Vec<u8>>, now_ms: u64)
        requires
            old(self).wf(),
        ensures
            final(self).wf(),
            final(self).cids@ == old(self).cids@,
            final(self).graphs@ == old(self).graphs@,
            lookup(final(self).thresholds@, n) matches Some(e) && e.value.count == count && opt_bytes(e.value.threshold)
                == opt_bytes(threshold) && e.inserted_at_ms == now_ms && e.ttl_ms == DEFAULT_TTL_MS,
            forall|m: i32| m != n ==> #[trigger] lookup(final(self).thresholds@, m) == lookup(old(self).thresholds@, m),
    {
        put_key(&mut self.thresholds, n, CacheEntry::new(ThresholdEntry { count, threshold }, DEFAULT_TTL_MS, now_ms));
    }

    /// The cached full CID list of leaderboard `n`, if cached and still
    /// fresh at `now_ms`.
    pub fn get_cids(&self, n: i32, now_ms: u64) -> (r: Option<Vec<String>>)
        requires
            self.wf(),
        ensures
            r is Some <==> (lookup(self.cids@, n) matches Some(e) && fresh(e, now_ms)),
            r matches Some(v) ==> (lookup(self.cids@, n) matches Some(e) && texts(v@) == texts(e.value@)),
    {
        let mut i: usize = 0;
        while i < self.cids.len()
            invariant
                self.wf(),
                i <= self.cids@.len(),
                forall|j: int| 0 <= j < i ==> self.cids@[j].0 != n,
            decreases self.cids@.len() - i,
        {
            if self.cids[i].0 == n {
                proof {
                    lemma_lookup_at(self.cids@, i as int);
                }
                let e = &self.cids[i].1;
                if e.is_expired(now_ms) {
                    return None;
                }
                return Some(copy_texts(&e.value));
            }
            i = i + 1;
        }
        None
    }

    /// Cache the full CID list of leaderboard `n` at `now_ms`, replacing
    /// what was cached for it.
    pub fn set_cids(&mut self, n: i32, cids: Vec<String>, now_ms: u64)
        requires
            old(self).wf(),
        ensures
            final(self).wf(),
            final(self).thresholds@ == old(self).thresholds@,
            final(self).graphs@ == old(self).graphs@,
            lookup(final(self).cids@, n) matches Some(e) && texts(e.value@) == texts(cids@) && e.inserted_at_ms == now_ms
                && e.ttl_ms == DEFAULT_TTL_MS,
            forall|m: i32| m != n ==> #[trigger] lookup(final(self).cids@, m) == lookup(old(self).cids@, m),
    {
        put_key(&mut self.cids, n, CacheEntry::new(cids, DEFAULT_TTL_MS, now_ms));
    }

    /// The cached graph page (`limit` graphs from `offset`) of leaderboard
    /// `n`, if cached and still fresh at `now_ms`.
    pub fn get_graphs(&self, n: i32, limit: i64, offset: i64, now_ms: u64) -> (r: Option<String>)
        requires
            self.wf(),
        ensures
            r is Some <==> (lookup(self.graphs@, (n, limit, offset)) matches Some(e) && fresh(e, now_ms)),
            r matches Some(v) ==> (lookup(self.graphs@, (n, limit, offset)) matches Some(e) && v@ == e.value@),
    {
        let mut i: usize = 0;
        while i < self.graphs.len()
            invariant
                self.wf(),
                i <= self.graphs@.len(),
                forall|j: int| 0 <= j < i ==> self.graphs@[j].0 != (n, limit, offset),
            decreases self.graphs@.len() - i,
        {
            if self.graphs[i].0.0 == n && self.graphs[i].0.1 == limit && self.graphs[i].0.2 == offset {
                proof {
                    lemma_lookup_at(self.graphs@, i as int);
                }
                let e = &self.graphs[i].1;
                if e.is_expired(now_ms) {
                    return None;
                }
                return Some(e.value.clone());
            }
            i = i + 1;
        }
        None
    }

    /// Cache a graph page of leaderboard `n` at `now_ms`, replacing what
    /// was cached for it.
    pub fn set_graphs(&mut self, n: i32, limit: i64, offset: i64, graphs: String, now_ms: u64)
        requires
            old(self).wf(),
        ensures
            final(self).wf(),
            final(self).thresholds@ == old(self).thresholds@,
            final(self).cids@ == old(self).cids@,
            lookup(final(self).graphs@, (n, limit, offset)) matches Some(e) && e.value@ == graphs@ && e.inserted_at_ms
                == now_ms && e.ttl_ms == GRAPH_TTL_MS,
            forall|m: (i32, i64, i64)| m != (n, limit, offset) ==> #[trigger] lookup(final(self).graphs@, m) == lookup(
                old(self).graphs@,
                m,
            ),
    {
        put_page(&mut self.graphs, (n, limit, offset), CacheEntry::new(graphs, GRAPH_TTL_MS, now_ms));
    }

    /// Drop everything cached for leaderboard `n` (called when it admits
    /// a graph); the other leaderboards keep theirs.
    pub fn invalidate(&mut self, n: i32)
        requires
            old(self).wf(),
        ensures
            final(self).wf(),
            lookup(final(self).thresholds@, n) is None,
            lookup(final(self).cids@, n) is None,
            forall|m: (i32, i64, i64)| m.0 == n ==> #[trigger] lookup(final(self).graphs@, m) is None,
            forall|m: i32| m != n ==> #[trigger] lookup(final(self).thresholds@, m) == lookup(old(self).thresholds@, m),
            forall|m: i32| m != n ==> #[trigger] lookup(final(self).cids@, m) == lookup(old(self).cids@, m),
            forall|m: (i32, i64, i64)| m.0 != n ==> #[trigger] lookup(final(self).graphs@, m) == lookup(old(self).graphs@, m),
    {
        drop_key(&mut self.thresholds, n);
        drop_key(&mut self.cids, n);
        drop_board(&mut self.graphs, n);
    }
}

} // verus!
