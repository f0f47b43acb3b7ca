//! Concurrently running iterative lookups, each converging on the peers
//! closest to one target identifier. The pool is single-threaded and
//! cooperative: one state transition per peer at a time.

use vstd::prelude::*;
use crate::NodeId;
use crate::PeerRecord;
use crate::distance;
use crate::xor_distance;
use crate::rpc::RequestBody;

verus! {

/// Identifies one running iterative lookup.
#[derive(Debug, Clone, Copy, PartialEq, Eq, Structural)]
pub struct QueryId(pub usize);

/// Where one candidate peer stands within a query.
#[derive(Debug, Clone, Copy, PartialEq, Eq, Structural)]
pub enum QueryPeerStatus {
    /// Known but not yet asked.
    NotQueried,
    /// A request to it is in flight.
    InFlight,
    /// It answered.
    Queried,
    /// It failed twice; it is excluded from the lookup.
    Failed,
}

/// One candidate peer of a query.
#[derive(Debug, Clone, Copy, PartialEq, Eq, Structural)]
pub struct QueryPeer {
    /// The peer's record.
    pub record: PeerRecord,
    /// Its lookup status.
    pub status: QueryPeerStatus,
    /// Whether its one allowed retry was already spent.
    pub retried: bool,
}

/// One iterative lookup.
pub struct Query {
    /// The pool's handle for this lookup.
    pub id: QueryId,
    /// The identifier the lookup converges on.
    pub target: NodeId,
    /// Candidates: seeds plus peers discovered mid-query.
    pub peers: Vec<QueryPeer>,
    /// How many closest answered candidates the lookup converges on.
    pub num_results: usize,
    /// Absolute time at which the lookup stops and returns what it has.
    pub deadline: u64,
}

/// What a poll of the pool yields.
pub enum QueryEvent {
    /// Ask `peer` the given request on behalf of query `query_id`.
    PendingRequest { query_id: QueryId, peer: PeerRecord, body: RequestBody },
    /// The query is done; these are the closest answered peers it found.
    Finished { query_id: QueryId, closest: Vec<PeerRecord> },
}

/// How many peers of `s` pass the status test and lie strictly closer than
/// `d` to `target`. With `only_queried`, answered peers count; otherwise
/// every non-failed peer counts.
pub open spec fn spec_count_closer(
    s: Seq<QueryPeer>,
    target: NodeId,
    d: u64,
    only_queried: bool,
) -> nat
    decreases s.len(),
{
    if s.len() == 0 {
        0
    } else {
        spec_count_closer(s.drop_last(), target, d, only_queried) + if peer_counts(
            s.last(),
            only_queried,
        ) && distance(target, s.last().record.node_id) < d {
            1nat
        } else {
            0nat
        }
    }
}

/// Whether `p` counts for a closeness tally.
pub open spec fn peer_counts(p: QueryPeer, only_queried: bool) -> bool {
    if only_queried {
        p.status == QueryPeerStatus::Queried
    } else {
        p.status != QueryPeerStatus::Failed
    }
}

impl Query {
    /// Candidates are unique by identifier, and the lookup asks for at
    /// least one result.
    pub open spec fn wf(&self) -> bool {
        &&& forall|i: int, j: int|
            0 <= i < self.peers@.len() && 0 <= j < self.peers@.len() && i != j
                ==> (#[trigger] self.peers@[i]).record.node_id
                    != (#[trigger] self.peers@[j]).record.node_id
        &&& self.num_results >= 1
    }

    /// Whether the candidate at `i` is among the `num_results` closest
    /// non-failed candidates.
    pub open spec fn spec_shortlisted(&self, i: int) -> bool {
        peer_counts(self.peers@[i], false) && spec_count_closer(
            self.peers@,
            self.target,
            distance(self.target, self.peers@[i].record.node_id),
            false,
        ) < self.num_results
    }

    /// Whether the lookup is done at `now`: its deadline has elapsed, or it
    /// has candidates and every shortlisted one has answered. A lookup with
    /// no candidates at all waits for its deadline.
    pub open spec fn spec_finished(&self, now: u64) -> bool {
        ||| now >= self.deadline
        ||| (self.peers@.len() > 0 && forall|i: int|
            0 <= i < self.peers@.len() && #[trigger] self.spec_shortlisted(i)
                ==> self.peers@[i].status == QueryPeerStatus::Queried)
    }

    /// Whether the candidate at `i` belongs to the result set: answered,
    /// and among the `num_results` closest answered candidates.
    pub open spec fn spec_result_at(&self, i: int) -> bool {
        self.peers@[i].status == QueryPeerStatus::Queried && spec_count_closer(
            self.peers@,
            self.target,
            distance(self.target, self.peers@[i].record.node_id),
            true,
        ) < self.num_results
    }

    /// Whether `rec` is one of the query's results.
    pub open spec fn spec_result_member(&self, rec: PeerRecord) -> bool {
        exists|i: int|
            0 <= i < self.peers@.len() && rec == (#[trigger] self.peers@[i]).record
                && self.spec_result_at(i)
    }

    /// A lookup with no candidates finishes exactly at its deadline, with
    /// nothing to return: an empty result set, not an error.
    pub proof fn lemma_empty_finishes_at_deadline(&self, now: u64)
        requires
            self.peers@.len() == 0,
        ensures
            self.spec_finished(now) == (now >= self.deadline),
            forall|rec: PeerRecord| !self.spec_result_member(rec),
    {
    }

    /// Once every candidate has answered, the lookup is finished without
    /// waiting for its deadline.
    pub proof fn lemma_all_queried_finishes(&self, now: u64)
        requires
            self.peers@.len() > 0,
            forall|i: int|
                0 <= i < self.peers@.len()
                    ==> (#[trigger] self.peers@[i]).status == QueryPeerStatus::Queried,
        ensures
            self.spec_finished(now),
    {
    }
}

/// Whether some candidate of `peers` carries the identifier `id`.
pub open spec fn spec_has_candidate(peers: Seq<QueryPeer>, id: NodeId) -> bool {
    exists|m: int| 0 <= m < peers.len() && (#[trigger] peers[m]).record.node_id == id
}

proof fn lemma_has_candidate_push(pre: Seq<QueryPeer>, x: QueryPeer, id: NodeId)
    requires
        spec_has_candidate(pre, id),
    ensures
        spec_has_candidate(pre.push(x), id),
{
    let m = choose|m: int| 0 <= m < pre.len() && (#[trigger] pre[m]).record.node_id == id;
    assert(pre.push(x)[m].record.node_id == id);
}

fn count_closer(peers: &Vec<QueryPeer>, target: NodeId, d: u64, only_queried: bool) -> (n: usize)
    ensures
        n == spec_count_closer(peers@, target, d, only_queried),
{
    let mut i: usize = 0;
    let mut n: usize = 0;
    while i < peers.len()
        invariant
            i <= peers@.len(),
            n <= i,
            n == spec_count_closer(peers@.subrange(0, i as int), target, d, only_queried),
        decreases peers@.len() - i,
    {
        let p = peers[i];
        let ghost prefix = peers@.subrange(0, i as int);
        let ghost next = peers@.subrange(0, i + 1);
        proof {
            assert(next.drop_last() =~= prefix);
            assert(next.last() == peers@[i as int]);
        }
        let counts = if only_queried {
            p.status == QueryPeerStatus::Queried
        } else {
            p.status != QueryPeerStatus::Failed
        };
        if counts && xor_distance(target, p.record.node_id) < d {
            n += 1;
        }
        i += 1;
    }
    proof {
        assert(peers@.subrange(0, peers@.len() as int) =~= peers@);
    }
    n
}

fn query_finished(q: &Query, now: u64) -> (r: bool)
    ensures
        r == q.spec_finished(now),
{
    if now >= q.deadline {
        return true;
    }
    if q.peers.len() == 0 {
        return false;
    }
    let mut i: usize = 0;
    while i < q.peers.len()
        invariant
            i <= q.peers@.len(),
            now < q.deadline,
            q.peers@.len() > 0,
            forall|k: int| 0 <= k < i && #[trigger] q.spec_shortlisted(k)
                ==> q.peers@[k].status == QueryPeerStatus::Queried,
        decreases q.peers@.len() - i,
    {
        let p = q.peers[i];
        if p.status != QueryPeerStatus::Failed && p.status != QueryPeerStatus::Queried {
            let closer = count_closer(
                &q.peers,
                q.target,
                xor_distance(q.target, p.record.node_id),
                false,
            );
            if closer < q.num_results {
                proof {
                    assert(q.spec_shortlisted(i as int));
                }
                return false;
            }
        }
        proof {
            assert(!q.spec_shortlisted(i as int)
                || q.peers@[i as int].status == QueryPeerStatus::Queried);
        }
        i += 1;
    }
    true
}

fn query_results(q: &Query) -> (out: Vec<PeerRecord>)
    ensures
        forall|j: int| 0 <= j < out@.len() ==> q.spec_result_member(#[trigger] out@[j]),
        forall|i: int| 0 <= i < q.peers@.len() && #[trigger] q.spec_result_at(i)
            ==> out@.contains(q.peers@[i].record),
{
    let mut out: Vec<PeerRecord> = Vec::new();
    let mut i: usize = 0;
    while i < q.peers.len()
        invariant
            i <= q.peers@.len(),
            forall|j: int| 0 <= j < out@.len() ==> q.spec_result_member(#[trigger] out@[j]),
            forall|k: int| 0 <= k < i && #[trigger] q.spec_result_at(k)
                ==> out@.contains(q.peers@[k].record),
        decreases q.peers@.len() - i,
    {
        let p = q.peers[i];
        let ghost pre = out@;
        if p.status == QueryPeerStatus::Queried {
            let closer = count_closer(
                &q.peers,
                q.target,
                xor_distance(q.target, p.record.node_id),
                true,
            );
            if closer < q.num_results {
                out.push(p.record);
                proof {
                    assert(q.spec_result_at(i as int));
                    assert(out@[pre.len() as int] == q.peers@[i as int].record);
                    assert forall|k: int| 0 <= k < i + 1 && #[trigger] q.spec_result_at(k)
                        implies out@.contains(q.peers@[k].record) by {
                        if k < i {
                            let j = choose|j: int|
                                0 <= j < pre.len() && pre[j] == q.peers@[k].record;
                            assert(out@[j] == q.peers@[k].record);
                        } else {
                            assert(out@[pre.len() as int] == q.peers@[k].record);
                        }
                    }
                }
            }
        }
        i += 1;
    }
    out
}

/// How feeding one response to the pool relates the pool before (`pre`)
/// and after (`post`): a handle no lookup carries changes nothing; in the
/// owning lookup the responding candidate (if in flight) becomes answered,
/// every other lookup and candidate is untouched, and exactly the
/// discovered peers not yet known join the candidate set unqueried.
pub open spec fn spec_advanced(
    pre: Seq<Query>,
    post: Seq<Query>,
    query_id: QueryId,
    peer: NodeId,
    discovered: Seq<PeerRecord>,
) -> bool {
    &&& ((forall|i: int| 0 <= i < pre.len() ==> (#[trigger] pre[i]).id != query_id)
        ==> post == pre)
    &&& ((exists|i: int| 0 <= i < pre.len() && (#[trigger] pre[i]).id == query_id)
        ==> exists|i: int| {
            let oldq = pre[i];
            let newq = post[i];
            &&& 0 <= i < pre.len()
            &&& (#[trigger] pre[i]).id == query_id
            &&& post.len() == pre.len()
            &&& (forall|m: int| 0 <= m < pre.len() && m != i ==> #[trigger] post[m] == pre[m])
            &&& newq.id == oldq.id && newq.target == oldq.target
                && newq.num_results == oldq.num_results && newq.deadline == oldq.deadline
            &&& newq.peers@.len() >= oldq.peers@.len()
            &&& (forall|k: int| 0 <= k < oldq.peers@.len()
                ==> #[trigger] newq.peers@[k] == (
                    if oldq.peers@[k].record.node_id == peer
                        && oldq.peers@[k].status == QueryPeerStatus::InFlight {
                        QueryPeer {
                            record: oldq.peers@[k].record,
                            status: QueryPeerStatus::Queried,
                            retried: oldq.peers@[k].retried,
                        }
                    } else {
                        oldq.peers@[k]
                    }))
            &&& (forall|k: int| oldq.peers@.len() <= k < newq.peers@.len()
                ==> (#[trigger] newq.peers@[k]).status == QueryPeerStatus::NotQueried
                    && !newq.peers@[k].retried
                    && discovered.contains(newq.peers@[k].record)
                    && !spec_has_candidate(oldq.peers@, newq.peers@[k].record.node_id))
        })
}

/// The set of lookups currently running.
pub struct QueryPool {
    queries: Vec<Query>,
    next_id: usize,
}

impl QueryPool {
    /// Every query is well formed and carries a handle the pool has issued
    /// exactly once.
    pub closed spec fn wf(&self) -> bool {
        &&& forall|i: int| 0 <= i < self.queries@.len() ==> (#[trigger] self.queries@[i]).wf()
        &&& forall|i: int| 0 <= i < self.queries@.len()
            ==> (#[trigger] self.queries@[i]).id.0 < self.next_id
        &&& forall|i: int, j: int|
            0 <= i < self.queries@.len() && 0 <= j < self.queries@.len() && i != j
                ==> (#[trigger] self.queries@[i]).id != (#[trigger] self.queries@[j]).id
    }

    /// The running queries, in pool order.
    pub closed spec fn view(&self) -> Seq<Query> {
        self.queries@
    }

    /// The next lookup handle the pool will issue.
    pub closed spec fn spec_next_id(&self) -> usize {
        self.next_id
    }

    /// An empty pool.
    pub fn new() -> (p: QueryPool)
        ensures
            p.wf(),
            p@ =~= Seq::<Query>::empty(),
    {
        QueryPool { queries: Vec::new(), next_id: 0 }
    }

    /// How many lookups are running.
    pub fn len(&self) -> (n: usize)
        ensures
            n == self@.len(),
    {
        self.queries.len()
    }

    /// Starts a lookup toward `target` from the given seed peers (duplicate
    /// identifiers are folded), asking for the `num_results` closest
    /// answered peers, stopping at `deadline` at the latest.
    pub fn add_query(
        &mut self,
        target: NodeId,
        seeds: &Vec<PeerRecord>,
        num_results: usize,
        deadline: u64,
    ) -> (qid: QueryId)
        requires
            old(self).wf(),
            num_results >= 1,
            old(self).spec_next_id() < usize::MAX,
        ensures
            final(self).wf(),
            final(self)@.len() == old(self)@.len() + 1,
            forall|i: int| 0 <= i < old(self)@.len()
                ==> #[trigger] final(self)@[i] == old(self)@[i],
            final(self)@.last().id == qid,
            final(self)@.last().target == target,
            final(self)@.last().num_results == num_results,
            final(self)@.last().deadline == deadline,
            final(self)@.last().wf(),
            // every new candidate is an unqueried seed; no seed identifier
            // is lost; an empty seed set starts an empty candidate set
            forall|k: int| 0 <= k < final(self)@.last().peers@.len()
                ==> (#[trigger] final(self)@.last().peers@[k]).status
                    == QueryPeerStatus::NotQueried
                    && !final(self)@.last().peers@[k].retried
                    && seeds@.contains(final(self)@.last().peers@[k].record),
            forall|k: int| 0 <= k < seeds@.len()
                ==> spec_has_candidate(final(self)@.last().peers@, (#[trigger] seeds@[k]).node_id),
            seeds@.len() == 0 ==> final(self)@.last().peers@.len() == 0,
    {
        let id = QueryId(self.next_id);
        let mut peers: Vec<QueryPeer> = Vec::new();
        let mut i: usize = 0;
        while i < seeds.len()
            invariant
                i <= seeds@.len(),
                peers@.len() <= i,
                forall|a: int, b: int|
                    0 <= a < peers@.len() && 0 <= b < peers@.len() && a != b
                        ==> (#[trigger] peers@[a]).record.node_id
                            != (#[trigger] peers@[b]).record.node_id,
                forall|k: int| 0 <= k < peers@.len()
                    ==> (#[trigger] peers@[k]).status == QueryPeerStatus::NotQueried
                        && !peers@[k].retried && seeds@.contains(peers@[k].record),
                forall|k: int| 0 <= k < i
                    ==> spec_has_candidate(peers@, (#[trigger] seeds@[k]).node_id),
            decreases seeds@.len() - i,
        {
            let s = seeds[i];
            let mut present = false;
            let mut j: usize = 0;
            while j < peers.len()
                invariant
                    j <= peers@.len(),
                    present ==> spec_has_candidate(peers@, s.node_id),
                    !present ==> forall|m: int|
                        0 <= m < j ==> (#[trigger] peers@[m]).record.node_id != s.node_id,
                decreases peers@.len() - j,
            {
                if peers[j].record.node_id == s.node_id {
                    proof {
                        assert(spec_has_candidate(peers@, s.node_id));
                    }
                    present = true;
                }
                j += 1;
            }
            let ghost pre = peers@;
            if !present {
                proof {
                    assert(seeds@.contains(seeds@[i as int]));
                }
                peers.push(QueryPeer {
                    record: s,
                    status: QueryPeerStatus::NotQueried,
                    retried: false,
                });
                proof {
                    assert(peers@[pre.len() as int].record.node_id == s.node_id);
                }
            }
            proof {
                assert forall|k: int| 0 <= k < i + 1
                    implies spec_has_candidate(peers@, (#[trigger] seeds@[k]).node_id) by {
                    if k < i {
                        if !present {
                            lemma_has_candidate_push(pre, peers@.last(), seeds@[k].node_id);
                        }
                    } else {
                        if present {
                            assert(spec_has_candidate(pre, s.node_id));
                        } else {
                            assert(spec_has_candidate(peers@, s.node_id));
                        }
                    }
                }
            }
            i += 1;
        }
        let query = Query { id, target, peers, num_results, deadline };
        let ghost oldq = self.queries@;
        proof {
            assert(query.wf());
        }
        self.queries.push(query);
        self.next_id = self.next_id + 1;
        proof {
            let n = oldq.len() as int;
            assert forall|a: int| 0 <= a < self.queries@.len()
                implies (#[trigger] self.queries@[a]).wf() by {
                if a < n {
                    assert(oldq[a].wf());
                }
            }
            assert forall|a: int| 0 <= a < self.queries@.len()
                implies (#[trigger] self.queries@[a]).id.0 < self.next_id by {
                if a < n {
                    assert(oldq[a].id.0 < id.0);
                }
            }
            assert forall|a: int, b: int|
                0 <= a < self.queries@.len() && 0 <= b < self.queries@.len() && a != b
                    implies (#[trigger] self.queries@[a]).id
                        != (#[trigger] self.queries@[b]).id by {
                if a < n && b < n {
                    assert(oldq[a].id != oldq[b].id);
                } else if a == n {
                    assert(oldq[b].id.0 < id.0);
                } else {
                    assert(oldq[a].id.0 < id.0);
                }
            }
        }
        id
    }

    /// Advances at most one lookup by one step: the first finished lookup
    /// leaves the pool and reports its closest answered peers; otherwise the
    /// first lookup with an unqueried candidate marks it in flight and asks
    /// for a request to it. `None` means no lookup finished and none has a
    /// candidate left to start.
    pub fn poll(&mut self, now: u64) -> (r: Option<QueryEvent>)
        requires
            old(self).wf(),
        ensures
            final(self).wf(),
            r is None ==> final(self)@ == old(self)@
                && final(self).spec_next_id() == old(self).spec_next_id() && forall|i: int|
                0 <= i < old(self)@.len() ==> !(#[trigger] old(self)@[i]).spec_finished(now)
                    && forall|k: int| 0 <= k < old(self)@[i].peers@.len()
                        ==> (#[trigger] old(self)@[i].peers@[k]).status
                            != QueryPeerStatus::NotQueried,
            r matches Some(QueryEvent::Finished { query_id, closest }) ==> exists|i: int|
                0 <= i < old(self)@.len() && (#[trigger] old(self)@[i]).id == query_id
                    && old(self)@[i].spec_finished(now)
                    && final(self)@ == old(self)@.remove(i)
                    && (forall|j: int| 0 <= j < closest@.len()
                        ==> old(self)@[i].spec_result_member(#[trigger] closest@[j]))
                    && (forall|k: int|
                        0 <= k < old(self)@[i].peers@.len()
                            && #[trigger] old(self)@[i].spec_result_at(k)
                            ==> closest@.contains(old(self)@[i].peers@[k].record)),
            r matches Some(QueryEvent::PendingRequest { query_id, peer, body }) ==> exists|i: int, k: int|
                0 <= i < old(self)@.len() && (#[trigger] old(self)@[i]).id == query_id
                    && !old(self)@[i].spec_finished(now)
                    && 0 <= k < old(self)@[i].peers@.len()
                    && (#[trigger] old(self)@[i].peers@[k]).status == QueryPeerStatus::NotQueried
                    && peer == old(self)@[i].peers@[k].record
                    && body == (RequestBody::FindNode { target: old(self)@[i].target })
                    && final(self)@.len() == old(self)@.len()
                    && (forall|m: int| 0 <= m < old(self)@.len() && m != i
                        ==> #[trigger] final(self)@[m] == old(self)@[m])
                    && final(self)@[i].id == old(self)@[i].id
                    && final(self)@[i].target == old(self)@[i].target
                    && final(self)@[i].num_results == old(self)@[i].num_results
                    && final(self)@[i].deadline == old(self)@[i].deadline
                    && final(self)@[i].peers@ == old(self)@[i].peers@.update(
                        k,
                        QueryPeer {
                            record: old(self)@[i].peers@[k].record,
                            status: QueryPeerStatus::InFlight,
                            retried: old(self)@[i].peers@[k].retried,
                        },
                    ),
    {
        let ghost orig = self.queries@;
        let mut qi: usize = 0;
        while qi < self.queries.len()
            invariant
                self.queries@ == orig,
                orig == old(self)@,
                self.spec_next_id() == old(self).spec_next_id(),
                self.wf(),
                qi <= orig.len(),
                forall|i: int| 0 <= i < qi ==> !(#[trigger] orig[i]).spec_finished(now)
                    && forall|k: int| 0 <= k < orig[i].peers@.len()
                        ==> (#[trigger] orig[i].peers@[k]).status != QueryPeerStatus::NotQueried,
            decreases orig.len() - qi,
        {
            let q = self.queries.remove(qi);
            let ghost mid = self.queries@;
            if query_finished(&q, now) {
                let closest = query_results(&q);
                proof {
                    assert(mid == orig.remove(qi as int));
                    lemma_pool_unique_remove(orig, mid, qi as int);
                    let i = qi as int;
                    assert(old(self)@[i] == orig[i]);
                    assert(orig[i].id == q.id);
                    assert(orig[i].spec_finished(now));
                    assert(self.queries@ == old(self)@.remove(i));
                    assert(forall|j: int| 0 <= j < closest@.len()
                        ==> old(self)@[i].spec_result_member(#[trigger] closest@[j]));
                    assert(forall|k: int|
                        0 <= k < old(self)@[i].peers@.len()
                            && #[trigger] old(self)@[i].spec_result_at(k)
                            ==> closest@.contains(old(self)@[i].peers@[k].record));
                }
                return Some(QueryEvent::Finished { query_id: q.id, closest });
            }
            let mut j: usize = 0;
            let mut found: Option<usize> = None;
            while j < q.peers.len()
                invariant
                    j <= q.peers@.len(),
                    match found {
                        Some(f) => f < q.peers@.len()
                            && q.peers@[f as int].status == QueryPeerStatus::NotQueried,
                        None => forall|m: int| 0 <= m < j
                            ==> (#[trigger] q.peers@[m]).status != QueryPeerStatus::NotQueried,
                    },
                decreases q.peers@.len() - j,
            {
                if q.peers[j].status == QueryPeerStatus::NotQueried && found.is_none() {
                    found = Some(j);
                }
                j += 1;
            }
            match found {
                Some(f) => {
                    let mut q = q;
                    let p = q.peers[f];
                    let ghost oldpeers = q.peers@;
                    q.peers.set(f, QueryPeer {
                        record: p.record,
                        status: QueryPeerStatus::InFlight,
                        retried: p.retried,
                    });
                    let id = q.id;
                    let target = q.target;
                    let ghost qprime = q;
                    self.queries.insert(qi, q);
                    proof {
                        lemma_remove_insert(orig, mid, self.queries@, qi as int, qprime);
                        assert forall|a: int, b: int|
                            0 <= a < qprime.peers@.len() && 0 <= b < qprime.peers@.len() && a != b
                                implies (#[trigger] qprime.peers@[a]).record.node_id
                                    != (#[trigger] qprime.peers@[b]).record.node_id by {
                            assert(oldpeers[a].record.node_id != oldpeers[b].record.node_id);
                            assert(qprime.peers@[a].record.node_id == oldpeers[a].record.node_id);
                            assert(qprime.peers@[b].record.node_id == oldpeers[b].record.node_id);
                        }
                        assert(qprime.wf());
                        assert forall|m: int| 0 <= m < self.queries@.len()
                            implies (#[trigger] self.queries@[m]).wf()
                                && self.queries@[m].id.0 < self.spec_next_id() by {
                            if m != qi as int {
                                assert(self.queries@[m] == orig[m]);
                            }
                        }
                        assert forall|a: int, b: int|
                            0 <= a < self.queries@.len() && 0 <= b < self.queries@.len() && a != b
                                implies (#[trigger] self.queries@[a]).id
                                    != (#[trigger] self.queries@[b]).id by {
                            assert(orig[a].id != orig[b].id);
                            assert(self.queries@[a].id == orig[a].id);
                            assert(self.queries@[b].id == orig[b].id);
                        }
                    }
                    proof {
                        let i = qi as int;
                        let k = f as int;
                        assert(old(self)@[i] == orig[i]);
                        assert(orig[i].id == id);
                        assert(!orig[i].spec_finished(now));
                        assert(orig[i].peers@[k].status == QueryPeerStatus::NotQueried);
                        assert(p.record == orig[i].peers@[k].record);
                        assert(self.queries@ == orig.update(i, qprime));
                        assert(self.queries@[i].peers@ == orig[i].peers@.update(
                            k,
                            QueryPeer {
                                record: orig[i].peers@[k].record,
                                status: QueryPeerStatus::InFlight,
                                retried: orig[i].peers@[k].retried,
                            },
                        ));
                        assert(forall|m: int| 0 <= m < old(self)@.len() && m != i
                            ==> #[trigger] self.queries@[m] == old(self)@[m]);
                    }
                    return Some(QueryEvent::PendingRequest {
                        query_id: id,
                        peer: p.record,
                        body: RequestBody::FindNode { target },
                    });
                },
                None => {
                    self.queries.insert(qi, q);
                    proof {
                        assert(self.queries@ =~= orig);
                    }
                },
            }
            qi += 1;
        }
        proof {
            assert forall|i: int| 0 <= i < old(self)@.len()
                implies !(#[trigger] old(self)@[i]).spec_finished(now)
                    && forall|k: int| 0 <= k < old(self)@[i].peers@.len()
                        ==> (#[trigger] old(self)@[i].peers@[k]).status
                            != QueryPeerStatus::NotQueried by {
                assert(old(self)@[i] == orig[i]);
                assert(!orig[i].spec_finished(now));
                assert forall|k: int| 0 <= k < old(self)@[i].peers@.len()
                    implies (#[trigger] old(self)@[i].peers@[k]).status
                        != QueryPeerStatus::NotQueried by {
                    assert(orig[i].peers@[k].status != QueryPeerStatus::NotQueried);
                }
            }
        }
        None
    }

    /// Feeds a response to the lookup that owns `query_id`: the responding
    /// candidate (if in flight) becomes answered, and each discovered peer
    /// not yet known joins the candidate set unqueried. A handle no lookup
    /// carries — a finished one included — changes nothing: terminal state
    /// is irreversible.
    pub fn on_success(&mut self, query_id: QueryId, peer: NodeId, discovered: &Vec<PeerRecord>)
        requires
            old(self).wf(),
        ensures
            final(self).wf(),
            final(self).spec_next_id() == old(self).spec_next_id(),
            spec_advanced(old(self)@, final(self)@, query_id, peer, discovered@),
    {
        let ghost orig = self.queries@;
        let found = self.find_query(query_id);
        match found {
            None => {},
            Some(qi) => {
                let mut q = self.queries.remove(qi);
                let ghost mid = self.queries@;
                let ghost oldq = orig[qi as int];
                let mut j: usize = 0;
                while j < q.peers.len()
                    invariant
                        j <= q.peers@.len(),
                        q.peers@.len() == oldq.peers@.len(),
                        q.id == oldq.id && q.target == oldq.target
                            && q.num_results == oldq.num_results && q.deadline == oldq.deadline,
                        forall|k: int| 0 <= k < q.peers@.len()
                            ==> #[trigger] q.peers@[k] == (
                                if 0 <= k < j && oldq.peers@[k].record.node_id == peer
                                    && oldq.peers@[k].status == QueryPeerStatus::InFlight {
                                    QueryPeer {
                                        record: oldq.peers@[k].record,
                                        status: QueryPeerStatus::Queried,
                                        retried: oldq.peers@[k].retried,
                                    }
                                } else {
                                    oldq.peers@[k]
                                }),
                    decreases q.peers@.len() - j,
                {
                    let p = q.peers[j];
                    if p.record.node_id == peer && p.status == QueryPeerStatus::InFlight {
                        q.peers.set(j, QueryPeer {
                            record: p.record,
                            status: QueryPeerStatus::Queried,
                            retried: p.retried,
                        });
                    }
                    j += 1;
                }
                let ghost marked = q.peers@;
                proof {
                    assert(oldq.wf());
                    assert forall|a: int, b: int|
                        0 <= a < q.peers@.len() && 0 <= b < q.peers@.len() && a != b
                            implies (#[trigger] q.peers@[a]).record.node_id
                                != (#[trigger] q.peers@[b]).record.node_id by {
                        assert(oldq.peers@[a].record.node_id != oldq.peers@[b].record.node_id);
                        assert(q.peers@[a].record.node_id == oldq.peers@[a].record.node_id);
                        assert(q.peers@[b].record.node_id == oldq.peers@[b].record.node_id);
                    }
                }
                let mut d: usize = 0;
                while d < discovered.len()
                    invariant
                        d <= discovered@.len(),
                        q.peers@.len() >= marked.len(),
                        q.id == oldq.id && q.target == oldq.target
                            && q.num_results == oldq.num_results && q.deadline == oldq.deadline,
                        forall|k: int| 0 <= k < marked.len()
                            ==> #[trigger] q.peers@[k] == marked[k],
                        forall|k: int| marked.len() <= k < q.peers@.len()
                            ==> (#[trigger] q.peers@[k]).status == QueryPeerStatus::NotQueried
                                && !q.peers@[k].retried
                                && discovered@.contains(q.peers@[k].record)
                                && !spec_has_candidate(marked, q.peers@[k].record.node_id),
                        forall|a: int, b: int|
                            0 <= a < q.peers@.len() && 0 <= b < q.peers@.len() && a != b
                                ==> (#[trigger] q.peers@[a]).record.node_id
                                    != (#[trigger] q.peers@[b]).record.node_id,
                    decreases discovered@.len() - d,
                {
                    let rec = discovered[d];
                    let mut seen = false;
                    let mut m: usize = 0;
                    while m < q.peers.len()
                        invariant
                            m <= q.peers@.len(),
                            seen ==> spec_has_candidate(q.peers@, rec.node_id),
                            !seen ==> forall|t: int| 0 <= t < m
                                ==> (#[trigger] q.peers@[t]).record.node_id != rec.node_id,
                        decreases q.peers@.len() - m,
                    {
                        if q.peers[m].record.node_id == rec.node_id {
                            proof {
                                assert(spec_has_candidate(q.peers@, rec.node_id));
                            }
                            seen = true;
                        }
                        m += 1;
                    }
                    let ghost pre = q.peers@;
                    if !seen {
                        proof {
                            assert(discovered@.contains(discovered@[d as int]));
                        }
                        q.peers.push(QueryPeer {
                            record: rec,
                            status: QueryPeerStatus::NotQueried,
                            retried: false,
                        });
                        proof {
                            assert forall|k: int| marked.len() <= k < q.peers@.len()
                                implies (#[trigger] q.peers@[k]).status == QueryPeerStatus::NotQueried
                                    && !q.peers@[k].retried
                                    && discovered@.contains(q.peers@[k].record)
                                    && !spec_has_candidate(marked, q.peers@[k].record.node_id) by {
                                if k < pre.len() {
                                    assert(q.peers@[k] == pre[k]);
                                } else {
                                    assert(q.peers@[k].record == rec);
                                    if spec_has_candidate(marked, rec.node_id) {
                                        let t = choose|t: int|
                                            0 <= t < marked.len()
                                                && (#[trigger] marked[t]).record.node_id == rec.node_id;
                                        assert(pre[t].record.node_id == rec.node_id);
                                        assert(false);
                                    }
                                }
                            }
                            assert forall|a: int, b: int|
                                0 <= a < q.peers@.len() && 0 <= b < q.peers@.len() && a != b
                                    implies (#[trigger] q.peers@[a]).record.node_id
                                        != (#[trigger] q.peers@[b]).record.node_id by {
                                if a < pre.len() && b < pre.len() {
                                    assert(pre[a].record.node_id != pre[b].record.node_id);
                                } else if a == pre.len() {
                                    assert(pre[b].record.node_id != rec.node_id);
                                } else {
                                    assert(pre[a].record.node_id != rec.node_id);
                                }
                            }
                        }
                    }
                    d += 1;
                }
                let ghost qprime = q;
                self.queries.insert(qi, q);
                proof {
                    lemma_remove_insert(orig, mid, self.queries@, qi as int, qprime);
                    assert(qprime.wf());
                    assert forall|m: int| 0 <= m < self.queries@.len()
                        implies (#[trigger] self.queries@[m]).wf()
                            && self.queries@[m].id.0 < self.spec_next_id() by {
                        if m != qi as int {
                            assert(self.queries@[m] == orig[m]);
                        }
                    }
                    assert forall|a: int, b: int|
                        0 <= a < self.queries@.len() && 0 <= b < self.queries@.len() && a != b
                            implies (#[trigger] self.queries@[a]).id
                                != (#[trigger] self.queries@[b]).id by {
                        assert(orig[a].id != orig[b].id);
                        assert(self.queries@[a].id == orig[a].id);
                        assert(self.queries@[b].id == orig[b].id);
                    }
                    assert((qi as int) < orig.len() && orig[qi as int].id == query_id
                        && self.queries@.len() == orig.len());
                    assert forall|k: int| marked.len() <= k < qprime.peers@.len()
                        implies !spec_has_candidate(
                            oldq.peers@,
                            (#[trigger] qprime.peers@[k]).record.node_id,
                        ) by {
                        let idk = qprime.peers@[k].record.node_id;
                        if spec_has_candidate(oldq.peers@, idk) {
                            let t = choose|t: int|
                                0 <= t < oldq.peers@.len()
                                    && (#[trigger] oldq.peers@[t]).record.node_id == idk;
                            assert(marked[t].record.node_id == idk);
                            assert(spec_has_candidate(marked, idk));
                            assert(false);
                        }
                    }
                }
            },
        }
    }

    /// Reports that the in-flight request to `peer` on behalf of the lookup
    /// failed: a candidate with its retry left returns to the unqueried
    /// state and spends it; one that already retried is excluded. A handle
    /// no lookup carries changes nothing.
    pub fn on_failure(&mut self, query_id: QueryId, peer: NodeId)
        requires
            old(self).wf(),
        ensures
            final(self).wf(),
            (forall|i: int| 0 <= i < old(self)@.len() ==> (#[trigger] old(self)@[i]).id != query_id)
                ==> *final(self) == *old(self),
            (exists|i: int| 0 <= i < old(self)@.len() && (#[trigger] old(self)@[i]).id == query_id)
                ==> exists|i: int| {
                    let oldq = old(self)@[i];
                    let newq = final(self)@[i];
                    &&& 0 <= i < old(self)@.len()
                    &&& (#[trigger] old(self)@[i]).id == query_id
                    &&& final(self)@.len() == old(self)@.len()
                    &&& (forall|m: int| 0 <= m < old(self)@.len() && m != i
                        ==> #[trigger] final(self)@[m] == old(self)@[m])
                    &&& newq.id == oldq.id && newq.target == oldq.target
                        && newq.num_results == oldq.num_results && newq.deadline == oldq.deadline
                    &&& newq.peers@.len() == oldq.peers@.len()
                    &&& (forall|k: int| 0 <= k < oldq.peers@.len()
                        ==> #[trigger] newq.peers@[k] == (
                            if oldq.peers@[k].record.node_id == peer
                                && oldq.peers@[k].status == QueryPeerStatus::InFlight {
                                if !oldq.peers@[k].retried {
                                    QueryPeer {
                                        record: oldq.peers@[k].record,
                                        status: QueryPeerStatus::NotQueried,
                                        retried: true,
                                    }
                                } else {
                                    QueryPeer {
                                        record: oldq.peers@[k].record,
                                        status: QueryPeerStatus::Failed,
                                        retried: oldq.peers@[k].retried,
                                    }
                                }
                            } else {
                                oldq.peers@[k]
                            }))
                },
    {
        let ghost orig = self.queries@;
        let found = self.find_query(query_id);
        match found {
            None => {},
            Some(qi) => {
                let mut q = self.queries.remove(qi);
                let ghost mid = self.queries@;
                let ghost oldq = orig[qi as int];
                let mut j: usize = 0;
                while j < q.peers.len()
                    invariant
                        j <= q.peers@.len(),
                        q.peers@.len() == oldq.peers@.len(),
                        q.id == oldq.id && q.target == oldq.target
                            && q.num_results == oldq.num_results && q.deadline == oldq.deadline,
                        forall|k: int| 0 <= k < q.peers@.len()
                            ==> #[trigger] q.peers@[k] == (
                                if 0 <= k < j && oldq.peers@[k].record.node_id == peer
                                    && oldq.peers@[k].status == QueryPeerStatus::InFlight {
                                    if !oldq.peers@[k].retried {
                                        QueryPeer {
                                            record: oldq.peers@[k].record,
                                            status: QueryPeerStatus::NotQueried,
                                            retried: true,
                                        }
                                    } else {
                                        QueryPeer {
                                            record: oldq.peers@[k].record,
                                            status: QueryPeerStatus::Failed,
                                            retried: oldq.peers@[k].retried,
                                        }
                                    }
                                } else {
                                    oldq.peers@[k]
                                }),
                    decreases q.peers@.len() - j,
                {
                    let p = q.peers[j];
                    if p.record.node_id == peer && p.status == QueryPeerStatus::InFlight {
                        if !p.retried {
                            q.peers.set(j, QueryPeer {
                                record: p.record,
                                status: QueryPeerStatus::NotQueried,
                                retried: true,
                            });
                        } else {
                            q.peers.set(j, QueryPeer {
                                record: p.record,
                                status: QueryPeerStatus::Failed,
                                retried: p.retried,
                            });
                        }
                    }
                    j += 1;
                }
                let ghost qprime = q;
                self.queries.insert(qi, q);
                proof {
                    lemma_remove_insert(orig, mid, self.queries@, qi as int, qprime);
                    assert forall|a: int, b: int|
                        0 <= a < qprime.peers@.len() && 0 <= b < qprime.peers@.len() && a != b
                            implies (#[trigger] qprime.peers@[a]).record.node_id
                                != (#[trigger] qprime.peers@[b]).record.node_id by {
                        assert(oldq.peers@[a].record.node_id != oldq.peers@[b].record.node_id);
                        assert(qprime.peers@[a].record.node_id == oldq.peers@[a].record.node_id);
                        assert(qprime.peers@[b].record.node_id == oldq.peers@[b].record.node_id);
                    }
                    assert(qprime.wf());
                    assert forall|m: int| 0 <= m < self.queries@.len()
                        implies (#[trigger] self.queries@[m]).wf()
                            && self.queries@[m].id.0 < self.spec_next_id() by {
                        if m != qi as int {
                            assert(self.queries@[m] == orig[m]);
                        }
                    }
                    assert forall|a: int, b: int|
                        0 <= a < self.queries@.len() && 0 <= b < self.queries@.len() && a != b
                            implies (#[trigger] self.queries@[a]).id
                                != (#[trigger] self.queries@[b]).id by {
                        assert(orig[a].id != orig[b].id);
                        assert(self.queries@[a].id == orig[a].id);
                        assert(self.queries@[b].id == orig[b].id);
                    }
                }
            },
        }
    }

    fn find_query(&self, query_id: QueryId) -> (r: Option<usize>)
        ensures
            match r {
                Some(i) => i < self@.len() && self@[i as int].id == query_id,
                None => forall|i: int| 0 <= i < self@.len()
                    ==> (#[trigger] self@[i]).id != query_id,
            },
    {
        let mut i: usize = 0;
        while i < self.queries.len()
            invariant
                i <= self.queries@.len(),
                forall|k: int| 0 <= k < i ==> (#[trigger] self.queries@[k]).id != query_id,
            decreases self.queries@.len() - i,
        {
            if self.queries[i].id == query_id {
                return Some(i);
            }
            i += 1;
        }
        None
    }
}

proof fn lemma_pool_unique_remove(orig: Seq<Query>, mid: Seq<Query>, i: int)
    requires
        0 <= i < orig.len(),
        mid == orig.remove(i),
        forall|a: int| 0 <= a < orig.len() ==> (#[trigger] orig[a]).wf(),
        forall|a: int, b: int|
            0 <= a < orig.len() && 0 <= b < orig.len() && a != b
                ==> (#[trigger] orig[a]).id != (#[trigger] orig[b]).id,
    ensures
        forall|a: int| 0 <= a < mid.len() ==> (#[trigger] mid[a]).wf(),
        forall|a: int, b: int|
            0 <= a < mid.len() && 0 <= b < mid.len() && a != b
                ==> (#[trigger] mid[a]).id != (#[trigger] mid[b]).id,
{
    assert forall|a: int| 0 <= a < mid.len() implies (#[trigger] mid[a]).wf() by {
        let oa: int = if a < i { a } else { a + 1 };
        assert(orig[oa].wf());
        assert(mid[a] == orig[oa]);
    }
    assert forall|a: int, b: int|
        0 <= a < mid.len() && 0 <= b < mid.len() && a != b
            implies (#[trigger] mid[a]).id != (#[trigger] mid[b]).id by {
        let oa: int = if a < i { a } else { a + 1 };
        let ob: int = if b < i { b } else { b + 1 };
        assert(orig[oa].id != orig[ob].id);
        assert(mid[a] == orig[oa]);
        assert(mid[b] == orig[ob]);
    }
}

proof fn lemma_remove_insert(orig: Seq<Query>, mid: Seq<Query>, fin: Seq<Query>, i: int, x: Query)
    requires
        0 <= i < orig.len(),
        mid == orig.remove(i),
        fin == mid.insert(i, x),
    ensures
        fin == orig.update(i, x),
{
    assert forall|j: int| 0 <= j < fin.len()
        implies #[trigger] fin[j] == orig.update(i, x)[j] by {
        if j < i {
            assert(fin[j] == mid[j]);
            assert(mid[j] == orig[j]);
        } else if j == i {
            assert(fin[j] == x);
        } else {
            assert(fin[j] == mid[j - 1]);
            assert(mid[j - 1] == orig[j]);
        }
    }
    assert(fin =~= orig.update(i, x));
}

} // verus!
