//! The worker engine's decisions between search rounds: how control
//! commands move its state, which scored discoveries are queued for
//! submission, how many are sent per round, how the buffers and CID sets
//! are kept bounded, and which seed graph a round starts from; and the
//! records it reports (configuration updates, runtime metrics, and the
//! challenge a dashboard sends on connect).

use rand::rngs::SmallRng;
use vstd::prelude::*;

use crate::adjacency::{AdjacencyMatrix, is_vertex_pair, size_fits};
use crate::graph6::{announced_n, decodable, decode, decoded_edges};
use crate::paley::{is_paley_prime, paley_candidate, paley_edges, paley_graph};
use crate::random::{perturb, toggle_all};
use crate::template::{cid_known, contains_cid};
use crate::types::GraphCid;

verus! {

/// Result of a configuration update: applied parameters, rejected ones
/// with their reasons, and the round from which the update holds.
#[derive(Clone, Debug, PartialEq, Eq)]
pub struct ConfigUpdateResult {
    pub applied: Vec<String>,
    pub errors: Vec<(String, String)>,
    pub effective_round: u64,
}

/// Engine runtime metrics.
#[derive(Clone, Debug, PartialEq, Eq)]
pub struct EngineMetrics {
    pub total_discoveries: u64,
    pub total_submitted: u64,
    pub total_admitted: u64,
    pub submit_buffer_size: usize,
    pub known_cids_count: usize,
    pub server_cids_count: usize,
    pub last_round_ms: u64,
}

/// Sent by the dashboard to a worker on connect: 32 random bytes in hex,
/// for the worker to sign.
#[derive(Clone, Debug, PartialEq, Eq)]
pub struct ServerChallenge {
    pub nonce: String,
}

/// What the engine is doing.
#[derive(Clone, Copy, Debug, PartialEq, Eq, Structural)]
pub enum WorkerState {
    /// Stopped: no more rounds.
    Idle,
    /// Running search rounds.
    Searching,
    /// Waiting for a command before the next round.
    Paused,
}

/// A control command, without the reply channel some of them carry.
#[derive(Clone, Copy, Debug, PartialEq, Eq, Structural)]
pub enum CommandKind {
    Pause,
    Resume,
    Stop,
    GetStatus,
    UpdateConfig,
}

/// The state a command leaves the engine in: pausing, resuming and
/// stopping set it; status queries and configuration updates keep it.
pub open spec fn state_after_spec(state: WorkerState, cmd: CommandKind) -> WorkerState {
    match cmd {
        CommandKind::Pause => WorkerState::Paused,
        CommandKind::Resume => WorkerState::Searching,
        CommandKind::Stop => WorkerState::Idle,
        _ => state,
    }
}

/// Apply a control command to the engine's state.
pub fn state_after(state: WorkerState, cmd: CommandKind) -> (r: WorkerState)
    ensures
        r == state_after_spec(state, cmd),
{
    match cmd {
        CommandKind::Pause => WorkerState::Paused,
        CommandKind::Resume => WorkerState::Searching,
        CommandKind::Stop => WorkerState::Idle,
        _ => state,
    }
}

/// Whether a round runs from this state: only a searching engine runs one
/// (a paused engine waits for a command first; an idle one stops).
pub fn runs_round(state: WorkerState) -> (r: bool)
    ensures
        r == (state == WorkerState::Searching),
{
    match state {
        WorkerState::Searching => true,
        _ => false,
    }
}

/// What becomes of a scored discovery.
#[derive(Clone, Copy, Debug, PartialEq, Eq, Structural)]
pub enum SubmitDecision {
    /// Its CID was already seen by this worker.
    KnownLocally,
    /// Its CID is already on the server.
    KnownToServer,
    /// The leaderboard is full and it does not beat the admission threshold.
    BelowThreshold,
    /// Queued for submission.
    Queue,
}

/// `a` comes strictly before `b` in the lexicographic order of byte strings
/// (a proper prefix comes first), the order in which lower scores are
/// better.
pub open spec fn bytes_less(a: Seq<u8>, b: Seq<u8>) -> bool
    decreases a.len(),
{
    if a.len() == 0 {
        b.len() > 0
    } else if b.len() == 0 {
        false
    } else if a[0] != b[0] {
        a[0] < b[0]
    } else {
        bytes_less(a.drop_first(), b.drop_first())
    }
}

/// The byte order is a strict total order: of two byte strings exactly
/// one comes first, unless they are equal; so a score passes the
/// threshold gate exactly when it is strictly better than the threshold.
pub proof fn lemma_bytes_trichotomy(a: Seq<u8>, b: Seq<u8>)
    ensures
        a == b ==> !bytes_less(a, b),
        a != b ==> (bytes_less(a, b) <==> !bytes_less(b, a)),
    decreases a.len(),
{
    if a.len() > 0 && b.len() > 0 && a[0] == b[0] {
        lemma_bytes_trichotomy(a.drop_first(), b.drop_first());
        if a.drop_first() == b.drop_first() {
            assert(a =~= seq![a[0]] + a.drop_first());
            assert(b =~= seq![b[0]] + b.drop_first());
        }
    } else if a.len() == 0 && b.len() == 0 {
        assert(a =~= b);
    }
}

/// The byte order is transitive.
pub proof fn lemma_bytes_transitive(a: Seq<u8>, b: Seq<u8>, c: Seq<u8>)
    requires
        bytes_less(a, b),
        bytes_less(b, c),
    ensures
        bytes_less(a, c),
    decreases a.len(),
{
    if a.len() > 0 && b.len() > 0 && c.len() > 0 && a[0] == b[0] && b[0] == c[0] {
        lemma_bytes_transitive(a.drop_first(), b.drop_first(), c.drop_first());
    }
}

/// `a` is no better than `b`: not strictly before it.
pub fn bytes_at_least(a: &[u8], b: &[u8]) -> (r: bool)
    ensures
        r == !bytes_less(a@, b@),
{
    let mut i: usize = 0;
    assert(a@.skip(0) =~= a@ && b@.skip(0) =~= b@);
    while i < a.len() && i < b.len()
        invariant
            i <= a@.len(),
            i <= b@.len(),
            a@.take(i as int) == b@.take(i as int),
            bytes_less(a@, b@) == bytes_less(a@.skip(i as int), b@.skip(i as int)),
        decreases a@.len() - i,
    {
        if a[i] != b[i] {
            proof {
                assert(a@.skip(i as int)[0] == a@[i as int]);
                assert(b@.skip(i as int)[0] == b@[i as int]);
            }
            return a[i] > b[i];
        }
        proof {
            assert(a@.skip(i as int).drop_first() =~= a@.skip(i + 1));
            assert(b@.skip(i as int).drop_first() =~= b@.skip(i + 1));
            assert(a@.take(i + 1) =~= a@.take(i as int).push(a@[i as int]));
            assert(b@.take(i + 1) =~= b@.take(i as int).push(b@[i as int]));
        }
        i = i + 1;
    }
    b.len() <= a.len()
}

/// The decision for a discovery with CID `cid` and score bytes `score`:
/// CIDs seen locally, then CIDs known to the server, are skipped; while the
/// leaderboard is full, a score no better than the threshold is skipped;
/// anything else is queued.
pub open spec fn submit_decision_spec(
    cid: GraphCid,
    score: Seq<u8>,
    known: Seq<GraphCid>,
    server: Seq<GraphCid>,
    leaderboard_full: bool,
    threshold: Option<Seq<u8>>,
) -> SubmitDecision {
    if cid_known(known, cid) {
        SubmitDecision::KnownLocally
    } else if cid_known(server, cid) {
        SubmitDecision::KnownToServer
    } else if leaderboard_full && threshold is Some && !bytes_less(score, threshold->Some_0) {
        SubmitDecision::BelowThreshold
    } else {
        SubmitDecision::Queue
    }
}

/// Decide what becomes of a scored discovery.
pub fn submit_decision(
    cid: &GraphCid,
    score: &[u8],
    known: &Vec<GraphCid>,
    server: &Vec<GraphCid>,
    leaderboard_full: bool,
    threshold: &Option<Vec<u8>>,
) -> (r: SubmitDecision)
    ensures
        r == submit_decision_spec(
            *cid,
            score@,
            known@,
            server@,
            leaderboard_full,
            match threshold {
                Some(t) => Some(t@),
                None => None,
            },
        ),
{
    if contains_cid(known, cid) {
        return SubmitDecision::KnownLocally;
    }
    if contains_cid(server, cid) {
        return SubmitDecision::KnownToServer;
    }
    if leaderboard_full {
        if let Some(t) = threshold {
            if bytes_at_least(score, t.as_slice()) {
                return SubmitDecision::BelowThreshold;
            }
        }
    }
    SubmitDecision::Queue
}

/// The leaderboard is full when it holds at least its capacity.
pub fn leaderboard_full(count: i64, capacity: i64) -> (r: bool)
    ensures
        r == (count >= capacity),
{
    count >= capacity
}

/// Submissions sent per round when the configuration sets no limit.
pub const DEFAULT_BATCH: usize = 20;

/// Submissions sent per round: the configured limit, or `DEFAULT_BATCH`
/// when it is zero.
pub fn batch_size(max_submissions_per_round: usize) -> (r: usize)
    ensures
        r == if max_submissions_per_round > 0 {
            max_submissions_per_round
        } else {
            DEFAULT_BATCH
        },
{
    if max_submissions_per_round > 0 {
        max_submissions_per_round
    } else {
        DEFAULT_BATCH
    }
}

/// Most discoveries scored per round.
pub const MAX_SCORE_PER_ROUND: usize = 200;

/// The number of a round's discoveries that are scored.
pub fn scoring_limit(found: usize) -> (r: usize)
    ensures
        r == if found <= MAX_SCORE_PER_ROUND {
            found
        } else {
            MAX_SCORE_PER_ROUND
        },
{
    if found <= MAX_SCORE_PER_ROUND {
        found
    } else {
        MAX_SCORE_PER_ROUND
    }
}

/// The round's gate over the first `i` of its scored discoveries `found`
/// (CID and score bytes), from the known CIDs `known`: the positions it
/// queues and the known CIDs after them. Each discovery is judged by
/// `submit_decision_spec` against the known CIDs as they stand then, and a
/// queued CID becomes known.
pub open spec fn gate_upto(
    found: Seq<(GraphCid, Seq<u8>)>,
    i: int,
    known: Seq<GraphCid>,
    server: Seq<GraphCid>,
    leaderboard_full: bool,
    threshold: Option<Seq<u8>>,
) -> (Seq<int>, Seq<GraphCid>)
    decreases i,
{
    if i <= 0 {
        (Seq::empty(), known)
    } else {
        let prev = gate_upto(found, i - 1, known, server, leaderboard_full, threshold);
        if submit_decision_spec(found[i - 1].0, found[i - 1].1, prev.1, server, leaderboard_full, threshold)
            == SubmitDecision::Queue {
            (prev.0.push(i - 1), prev.1.push(found[i - 1].0))
        } else {
            prev
        }
    }
}

/// How many of `found` discoveries a round scores.
pub open spec fn scored_count(found: int) -> int {
    if found <= MAX_SCORE_PER_ROUND {
        found
    } else {
        MAX_SCORE_PER_ROUND as int
    }
}

/// The CIDs and score bytes of scored discoveries, as plain values.
pub open spec fn scored_view(found: Seq<(GraphCid, Vec<u8>)>) -> Seq<(GraphCid, Seq<u8>)> {
    Seq::new(found.len(), |i: int| (found[i].0, found[i].1@))
}

/// The threshold as plain bytes.
pub open spec fn threshold_view(threshold: Option<Vec<u8>>) -> Option<Seq<u8>> {
    match threshold {
        Some(t) => Some(t@),
        None => None,
    }
}

/// Gate a round's scored discoveries: of the first `scoring_limit` of
/// them, queue for submission, in order, each that `submit_decision` lets
/// through against the known CIDs as they stand, adding its CID to
/// `known`. Gives back the positions queued.
pub fn gate_round(
    found: &Vec<(GraphCid, Vec<u8>)>,
    known: &mut Vec<GraphCid>,
    server: &Vec<GraphCid>,
    leaderboard_full: bool,
    threshold: &Option<Vec<u8>>,
) -> (r: Vec<usize>)
    ensures
        ({
            let g = gate_upto(
                scored_view(found@),
                scored_count(found@.len() as int),
                old(known)@,
                server@,
                leaderboard_full,
                threshold_view(*threshold),
            );
            &&& r@.len() == g.0.len()
            &&& forall|j: int| 0 <= j < r@.len() ==> r@[j] as int == #[trigger] g.0[j]
            &&& final(known)@ == g.1
        }),
{
    let limit = scoring_limit(found.len());
    let ghost fv = scored_view(found@);
    let ghost k0 = known@;
    let ghost tv = threshold_view(*threshold);
    let mut r: Vec<usize> = Vec::new();
    let mut i: usize = 0;
    while i < limit
        invariant
            i <= limit,
            limit <= found@.len(),
            fv == scored_view(found@),
            tv == threshold_view(*threshold),
            ({
                let g = gate_upto(fv, i as int, k0, server@, leaderboard_full, tv);
                &&& r@.len() == g.0.len()
                &&& forall|j: int| 0 <= j < r@.len() ==> r@[j] as int == #[trigger] g.0[j]
                &&& known@ == g.1
            }),
        decreases limit - i,
    {
        let ghost prev = gate_upto(fv, i as int, k0, server@, leaderboard_full, tv);
        let d = submit_decision(&found[i].0, found[i].1.as_slice(), known, server, leaderboard_full, threshold);
        proof {
            assert(fv[i as int] == (found@[i as int].0, found@[i as int].1@));
            assert(tv == match threshold {
                Some(t) => Some(t@),
                None => None,
            });
        }
        if d == SubmitDecision::Queue {
            r.push(i);
            known.push(found[i].0);
        }
        proof {
            let g = gate_upto(fv, i + 1, k0, server@, leaderboard_full, tv);
            assert(g == if submit_decision_spec(fv[i as int].0, fv[i as int].1, prev.1, server@, leaderboard_full, tv)
                == SubmitDecision::Queue {
                (prev.0.push(i as int), prev.1.push(fv[i as int].0))
            } else {
                prev
            });
        }
        i = i + 1;
    }
    r
}

/// Every discovery a round queues was unknown both to this worker before
/// the round and to the server, and, while the leaderboard is full, scores
/// below the threshold; no CID is queued twice.
pub proof fn lemma_gate_queues_only_new(
    found: Seq<(GraphCid, Seq<u8>)>,
    i: int,
    known: Seq<GraphCid>,
    server: Seq<GraphCid>,
    leaderboard_full: bool,
    threshold: Option<Seq<u8>>,
)
    requires
        0 <= i <= found.len(),
    ensures
        ({
            let g = gate_upto(found, i, known, server, leaderboard_full, threshold);
            &&& g.1.len() == known.len() + g.0.len()
            &&& g.1.take(known.len() as int) == known
            &&& forall|j: int|
                0 <= j < g.0.len() ==> {
                    let at = #[trigger] g.0[j];
                    &&& 0 <= at < i
                    &&& g.1[known.len() + j] == found[at].0
                    &&& !cid_known(known, found[at].0)
                    &&& !cid_known(server, found[at].0)
                    &&& (leaderboard_full && threshold is Some ==> bytes_less(found[at].1, threshold->Some_0))
                    &&& forall|j2: int| 0 <= j2 < j ==> found[g.0[j2]].0.0@ != found[at].0.0@
                }
        }),
    decreases i,
{
    if i > 0 {
        lemma_gate_queues_only_new(found, i - 1, known, server, leaderboard_full, threshold);
        let prev = gate_upto(found, i - 1, known, server, leaderboard_full, threshold);
        let g = gate_upto(found, i, known, server, leaderboard_full, threshold);
        if submit_decision_spec(found[i - 1].0, found[i - 1].1, prev.1, server, leaderboard_full, threshold)
            == SubmitDecision::Queue {
            let c = found[i - 1].0;
            assert(!cid_known(prev.1, c));
            assert(g.1.take(known.len() as int) =~= prev.1.take(known.len() as int));
            assert forall|j: int| 0 <= j < g.0.len() implies {
                let at = #[trigger] g.0[j];
                &&& 0 <= at < i
                &&& g.1[known.len() + j] == found[at].0
                &&& !cid_known(known, found[at].0)
                &&& !cid_known(server, found[at].0)
                &&& (leaderboard_full && threshold is Some ==> bytes_less(found[at].1, threshold->Some_0))
                &&& forall|j2: int| 0 <= j2 < j ==> found[g.0[j2]].0.0@ != found[at].0.0@
            } by {
                if j < prev.0.len() {
                    assert(g.0[j] == prev.0[j]);
                    assert(g.1[known.len() + j] == prev.1[known.len() + j]);
                    assert forall|j2: int| 0 <= j2 < j implies found[g.0[j2]].0.0@ != found[g.0[j]].0.0@ by {
                        assert(g.0[j2] == prev.0[j2]);
                    }
                } else {
                    assert(g.0[j] == i - 1);
                    lemma_not_known_prefix(prev.1, known, c);
                    assert forall|j2: int| 0 <= j2 < j implies found[g.0[j2]].0.0@ != found[g.0[j]].0.0@ by {
                        assert(g.0[j2] == prev.0[j2]);
                        lemma_known_member(prev.1, known.len() + j2, c);
                    }
                }
            }
        }
    }
}

/// A CID not among a list is not among any prefix of it.
proof fn lemma_not_known_prefix(all: Seq<GraphCid>, prefix: Seq<GraphCid>, c: GraphCid)
    requires
        !cid_known(all, c),
        prefix.len() <= all.len(),
        all.take(prefix.len() as int) == prefix,
    ensures
        !cid_known(prefix, c),
{
    if cid_known(prefix, c) {
        let j = choose|j: int| 0 <= j < prefix.len() && #[trigger] prefix[j].0@ == c.0@;
        assert(all[j] == prefix[j]);
    }
}

/// A CID not among a list differs from each of its entries.
proof fn lemma_known_member(all: Seq<GraphCid>, j: int, c: GraphCid)
    requires
        !cid_known(all, c),
        0 <= j < all.len(),
    ensures
        all[j].0@ != c.0@,
{
}

/// The number of buffered submissions sent in a round: the batch size,
/// or all that wait when fewer do.
pub fn round_batch(buffered: usize, max_submissions_per_round: usize) -> (r: usize)
    ensures
        r == if buffered < batch_size_spec(max_submissions_per_round) {
            buffered
        } else {
            batch_size_spec(max_submissions_per_round)
        },
        r <= buffered,
        r <= batch_size_spec(max_submissions_per_round),
{
    let b = batch_size(max_submissions_per_round);
    if buffered < b {
        buffered
    } else {
        b
    }
}

/// Submissions sent per round, as a value.
pub open spec fn batch_size_spec(max_submissions_per_round: usize) -> usize {
    if max_submissions_per_round > 0 {
        max_submissions_per_round
    } else {
        DEFAULT_BATCH
    }
}

/// Buffered submissions beyond this many are cut ...
pub const MAX_BUFFERED: usize = 500;

/// ... down to this many: the last ones of the buffer are kept.
pub const KEPT_BUFFERED: usize = 200;

/// The number of buffered submissions to drop after a round's batch,
/// taken from the front of the buffer (which is sorted best first, so the
/// best-scoring ones go and the last `KEPT_BUFFERED` stay; the dropped
/// CIDs are forgotten so that they can be found again): none while at most
/// `MAX_BUFFERED` wait; otherwise all but `KEPT_BUFFERED`.
pub fn buffer_excess(buffered: usize) -> (r: usize)
    ensures
        r == if buffered > MAX_BUFFERED {
            buffered - KEPT_BUFFERED
        } else {
            0
        },
{
    if buffered > MAX_BUFFERED {
        buffered - KEPT_BUFFERED
    } else {
        0
    }
}

/// Thin a set of CIDs kept in arrival order: once there are more than
/// `limit`, keep only the newest `keep`.
pub fn keep_newest(cids: Vec<GraphCid>, limit: usize, keep: usize) -> (r: Vec<GraphCid>)
    requires
        keep <= limit,
    ensures
        cids@.len() <= limit ==> r@ == cids@,
        cids@.len() > limit ==> r@ == cids@.subrange(cids@.len() - keep, cids@.len() as int),
{
    if cids.len() <= limit {
        return cids;
    }
    let start = cids.len() - keep;
    let mut kept: Vec<GraphCid> = Vec::new();
    let mut i: usize = start;
    while i < cids.len()
        invariant
            start <= i <= cids@.len(),
            start == cids@.len() - keep,
            kept@ == cids@.subrange(start as int, i as int),
        decreases cids@.len() - i,
    {
        kept.push(cids[i]);
        i = i + 1;
    }
    kept
}

/// The seed of a round: the leaderboard graph at `index` when the pool is
/// not empty and that graph decodes, else the Paley graph on `n` vertices;
/// either way with up to `noise_flips` random pairs flipped. (Which index
/// is drawn, biased towards the top, is decided by the caller.)
pub fn seed_graph(server_graphs: &Vec<String>, index: usize, n: u32, noise_flips: u32, rng: &mut SmallRng) -> (r:
    AdjacencyMatrix)
    requires
        server_graphs@.len() > 0 ==> index < server_graphs@.len(),
        size_fits(n as int),
        exists|q: int| (if n >= 5 { n as int } else { 5 }) <= q <= u32::MAX && #[trigger] paley_candidate(q),
        noise_flips > 0 ==> n > 0,
    ensures
        r.wf(),
        exists|base: Set<(int, int)>, flips: Seq<(int, int)>|
            #![trigger toggle_all(base, flips)]
            flips.len() <= noise_flips && r@ == toggle_all(base, flips) && (forall|j: int|
                0 <= j < flips.len() ==> is_vertex_pair(r.order() as int, #[trigger] flips[j])) && if server_graphs@.len()
                > 0 && decodable(vstd::utf8::encode_utf8(server_graphs@[index as int]@)) {
                let e = vstd::utf8::encode_utf8(server_graphs@[index as int]@);
                r.order() == announced_n(e) && base == decoded_edges(e)
            } else {
                r.order() == n && exists|p: int| is_paley_prime(n as int, p) && base == paley_edges(n as int, p)
            },
{
    if server_graphs.len() > 0 {
        match decode(server_graphs[index].as_str()) {
            Ok(m) => {
                let mut g = m;
                let ghost base = g@;
                if noise_flips > 0 && g.n() > 0 {
                    perturb(&mut g, noise_flips, rng);
                    let ghost flips = choose|s: Seq<(int, int)>|
                        s.len() <= noise_flips && (forall|k: int| 0 <= k < s.len() ==> is_vertex_pair(
                            g.order() as int,
                            #[trigger] s[k],
                        )) && g@ == toggle_all(base, s);
                    assert(g@ == toggle_all(base, flips));
                } else {
                    assert(g@ == toggle_all(base, Seq::<(int, int)>::empty()));
                }
                return g;
            },
            Err(_) => {},
        }
    }
    let mut g = paley_graph(n);
    let ghost base = g@;
    if noise_flips > 0 {
        perturb(&mut g, noise_flips, rng);
        let ghost flips = choose|s: Seq<(int, int)>|
            s.len() <= noise_flips && (forall|k: int| 0 <= k < s.len() ==> is_vertex_pair(g.order() as int, #[trigger] s[k]))
                && g@ == toggle_all(base, s);
        assert(g@ == toggle_all(base, flips));
    } else {
        assert(g@ == toggle_all(base, Seq::<(int, int)>::empty()));
    }
    g
}

} // verus!
