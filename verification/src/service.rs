//! The request tracker and the service loop's dispatch logic.
//!
//! The tracker owns every in-flight outbound request, keyed by a locally
//! unique identifier. An inbound response is matched purely by that
//! identifier: the identifier is the trust boundary, not the source address.

use vstd::prelude::*;
use crate::NodeId;
use crate::PeerRecord;
use crate::SourceAddress;
use crate::error::RequestError;
use crate::expected::ExpectedResponseTable;
use crate::kbucket::BucketEntry;
use crate::kbucket::Entry;
use crate::kbucket::KBucketsTable;
use crate::kbucket::MAX_NODES_PER_BUCKET;
use crate::kbucket::NodeStatus;
use crate::query_pool::QueryId;
use crate::query_pool::QueryPool;
use crate::rpc::Request;
use crate::rpc::RequestBody;
use crate::rpc::Response;
use crate::rpc::ResponseBody;

verus! {

/// A sequencing error of the tracker itself, surfaced immediately to the
/// caller and never retried.
#[derive(Debug, Clone, Copy, PartialEq, Eq, Structural)]
pub enum TrackerError {
    /// The identifier is already tracked by an outstanding request.
    DuplicateId,
}

/// One in-flight outbound request: where it went, what was asked, which
/// query (if any) owns it, the caller's one-shot completion notifier (an
/// opaque handle the embedding resolves), and its absolute deadline.
#[derive(Debug, Clone, Copy, PartialEq, Eq, Structural)]
pub struct ActiveRequest {
    /// The peer the request was sent to.
    pub contact: PeerRecord,
    /// The request body that was sent.
    pub request_body: RequestBody,
    /// The iterative lookup this request belongs to, if any.
    pub query_id: Option<QueryId>,
    /// Handle of the caller's one-shot completion notifier, if any.
    pub callback: Option<u64>,
    /// Absolute time after which the request counts as expired.
    pub deadline: u64,
}

/// The table of in-flight requests. Identifiers are unique among currently
/// outstanding requests; an identifier may be reused only after its request
/// was resolved or swept.
pub struct ActiveRequests {
    requests: Vec<(u64, ActiveRequest)>,
}

impl ActiveRequests {
    /// A tracked identifier appears exactly once.
    pub closed spec fn wf(&self) -> bool {
        forall|i: int, j: int|
            0 <= i < self.requests@.len() && 0 <= j < self.requests@.len() && i != j
                ==> (#[trigger] self.requests@[i]).0 != (#[trigger] self.requests@[j]).0
    }

    /// The request currently tracked under `id`, if any.
    pub closed spec fn spec_get(&self, id: u64) -> Option<ActiveRequest> {
        if exists|i: int|
            0 <= i < self.requests@.len() && (#[trigger] self.requests@[i]).0 == id {
            let i = choose|i: int|
                0 <= i < self.requests@.len() && (#[trigger] self.requests@[i]).0 == id;
            Some(self.requests@[i].1)
        } else {
            None
        }
    }

    /// Whether some outstanding request is tracked under `id`.
    pub open spec fn tracks(&self, id: u64) -> bool {
        self.spec_get(id) is Some
    }

    proof fn lemma_get_at(&self, i: int)
        requires
            self.wf(),
            0 <= i < self.requests@.len(),
        ensures
            self.spec_get(self.requests@[i].0) == Some(self.requests@[i].1),
    {
        let id = self.requests@[i].0;
        let j = choose|k: int|
            0 <= k < self.requests@.len() && (#[trigger] self.requests@[k]).0 == id;
        if j != i {
            assert(self.requests@[i].0 != self.requests@[j].0);
            assert(false);
        }
    }

    proof fn lemma_get_none(&self, id: u64)
        requires
            forall|i: int|
                0 <= i < self.requests@.len() ==> (#[trigger] self.requests@[i]).0 != id,
        ensures
            self.spec_get(id) is None,
    {
    }

    /// Creates an empty tracker.
    pub fn new() -> (t: ActiveRequests)
        ensures
            t.wf(),
            forall|id: u64| t.spec_get(id) is None,
    {
        ActiveRequests { requests: Vec::new() }
    }

    fn find_index(&self, id: u64) -> (r: Option<usize>)
        ensures
            match r {
                Some(i) => i < self.requests@.len() && self.requests@[i as int].0 == id,
                None => forall|i: int|
                    0 <= i < self.requests@.len() ==> (#[trigger] self.requests@[i]).0 != id,
            },
    {
        let mut i: usize = 0;
        while i < self.requests.len()
            invariant
                i <= self.requests@.len(),
                forall|k: int| 0 <= k < i ==> (#[trigger] self.requests@[k]).0 != id,
            decreases self.requests@.len() - i,
        {
            if self.requests[i].0 == id {
                return Some(i);
            }
            i += 1;
        }
        None
    }

    /// Whether `id` is currently tracked.
    pub fn contains(&self, id: u64) -> (r: bool)
        requires
            self.wf(),
        ensures
            r == self.tracks(id),
    {
        match self.find_index(id) {
            Some(i) => {
                proof { self.lemma_get_at(i as int); }
                true
            },
            None => {
                proof { self.lemma_get_none(id); }
                false
            },
        }
    }

    /// Starts tracking `request` under `id`. Fails, changing nothing, if
    /// `id` is already tracked.
    pub fn insert(&mut self, id: u64, request: ActiveRequest) -> (r: Result<(), TrackerError>)
        requires
            old(self).wf(),
        ensures
            final(self).wf(),
            old(self).tracks(id) ==> r == Err::<(), TrackerError>(TrackerError::DuplicateId)
                && *final(self) == *old(self),
            !old(self).tracks(id) ==> r == Ok::<(), TrackerError>(())
                && final(self).spec_get(id) == Some(request),
            forall|k: u64| k != id ==> final(self).spec_get(k) == old(self).spec_get(k),
    {
        match self.find_index(id) {
            Some(i) => {
                proof { self.lemma_get_at(i as int); }
                Err(TrackerError::DuplicateId)
            },
            None => {
                proof { self.lemma_get_none(id); }
                self.requests.push((id, request));
                proof {
                    let oldseq = old(self).requests@;
                    let n = oldseq.len() as int;
                    assert forall|i: int, j: int|
                        0 <= i < self.requests@.len() && 0 <= j < self.requests@.len() && i != j
                            implies (#[trigger] self.requests@[i]).0
                                != (#[trigger] self.requests@[j]).0 by {
                        if i < n && j < n {
                            assert(oldseq[i].0 != oldseq[j].0);
                        } else if i == n {
                            assert(oldseq[j].0 != id);
                        } else {
                            assert(oldseq[i].0 != id);
                        }
                    }
                    self.lemma_get_at(n);
                    assert forall|k: u64| k != id
                        implies self.spec_get(k) == old(self).spec_get(k) by {
                        if exists|i: int| 0 <= i < n && (#[trigger] oldseq[i]).0 == k {
                            let i = choose|i: int| 0 <= i < n && (#[trigger] oldseq[i]).0 == k;
                            assert(self.requests@[i].0 == k);
                            self.lemma_get_at(i);
                            old(self).lemma_get_at(i);
                        } else {
                            assert forall|i: int| 0 <= i < self.requests@.len()
                                implies (#[trigger] self.requests@[i]).0 != k by {
                                if i < n {
                                    assert(oldseq[i].0 != k);
                                }
                            }
                            self.lemma_get_none(k);
                            old(self).lemma_get_none(k);
                        }
                    }
                }
                Ok(())
            },
        }
    }

    /// Stops tracking `id`, returning exactly the request that was
    /// registered under it, if one was.
    pub fn remove(&mut self, id: u64) -> (r: Option<ActiveRequest>)
        requires
            old(self).wf(),
        ensures
            final(self).wf(),
            r == old(self).spec_get(id),
            final(self).spec_get(id) is None,
            old(self).spec_get(id) is None ==> *final(self) == *old(self),
            forall|k: u64| k != id ==> final(self).spec_get(k) == old(self).spec_get(k),
    {
        match self.find_index(id) {
            None => {
                proof { self.lemma_get_none(id); }
                None
            },
            Some(i) => {
                proof { self.lemma_get_at(i as int); }
                let pair = self.requests.remove(i);
                proof {
                    let oldseq = old(self).requests@;
                    let n = oldseq.len() as int;
                    let ii = i as int;
                    assert(self.requests@ == oldseq.remove(ii));
                    assert forall|j: int| 0 <= j < n - 1
                        implies #[trigger] self.requests@[j]
                            == (if j < ii { oldseq[j] } else { oldseq[j + 1] }) by {
                    }
                    assert forall|a: int, b: int|
                        0 <= a < self.requests@.len() && 0 <= b < self.requests@.len() && a != b
                            implies (#[trigger] self.requests@[a]).0
                                != (#[trigger] self.requests@[b]).0 by {
                        let oa: int = if a < ii { a } else { a + 1 };
                        let ob: int = if b < ii { b } else { b + 1 };
                        assert(oldseq[oa].0 != oldseq[ob].0);
                    }
                    assert forall|j: int| 0 <= j < self.requests@.len()
                        implies (#[trigger] self.requests@[j]).0 != id by {
                        let oj: int = if j < ii { j } else { j + 1 };
                        assert(oldseq[oj].0 != oldseq[ii].0);
                    }
                    self.lemma_get_none(id);
                    assert forall|k: u64| k != id
                        implies self.spec_get(k) == old(self).spec_get(k) by {
                        if exists|m: int| 0 <= m < n && (#[trigger] oldseq[m]).0 == k {
                            let m = choose|m: int| 0 <= m < n && (#[trigger] oldseq[m]).0 == k;
                            old(self).lemma_get_at(m);
                            let nm: int = if m < ii { m } else { m - 1 };
                            assert(self.requests@[nm] == oldseq[m]);
                            self.lemma_get_at(nm);
                        } else {
                            assert forall|j: int| 0 <= j < self.requests@.len()
                                implies (#[trigger] self.requests@[j]).0 != k by {
                                let oj: int = if j < ii { j } else { j + 1 };
                                assert(oldseq[oj].0 != k);
                            }
                            self.lemma_get_none(k);
                            old(self).lemma_get_none(k);
                        }
                    }
                }
                Some(pair.1)
            },
        }
    }

    /// How one identifier fares in an expired-request sweep at time `now`:
    /// an expired request is gone from the tracker and reported exactly as
    /// it was registered; an unexpired one is untouched.
    pub open spec fn sweep_ok(
        pre: ActiveRequests,
        post: ActiveRequests,
        expired: Seq<(u64, ActiveRequest)>,
        now: u64,
        k: u64,
    ) -> bool {
        match pre.spec_get(k) {
            Some(r) => if r.deadline <= now {
                post.spec_get(k) is None && exists|j: int|
                    0 <= j < expired.len() && expired[j] == (k, r)
            } else {
                post.spec_get(k) == Some(r)
            },
            None => post.spec_get(k) is None,
        }
    }

    /// Removes and returns every request whose deadline has passed. A
    /// request swept here is gone: a late response can no longer match it.
    pub fn remove_expired(&mut self, now: u64) -> (expired: Vec<(u64, ActiveRequest)>)
        requires
            old(self).wf(),
        ensures
            final(self).wf(),
            forall|k: u64| #[trigger]
                Self::sweep_ok(*old(self), *final(self), expired@, now, k),
            forall|j: int| 0 <= j < expired@.len()
                ==> old(self).spec_get((#[trigger] expired@[j]).0) == Some(expired@[j].1)
                    && expired@[j].1.deadline <= now,
    {
        let ghost oldseq = self.requests@;
        let mut kept: Vec<(u64, ActiveRequest)> = Vec::new();
        let mut expired: Vec<(u64, ActiveRequest)> = Vec::new();
        let n = self.requests.len();
        let mut idx: usize = 0;
        while idx < n
            invariant
                n == oldseq.len(),
                oldseq == self.requests@,
                idx <= n,
                forall|a: int, b: int|
                    0 <= a < n && 0 <= b < n && a != b
                        ==> (#[trigger] oldseq[a]).0 != (#[trigger] oldseq[b]).0,
                forall|j: int| 0 <= j < expired@.len()
                    ==> exists|m: int| 0 <= m < idx && oldseq[m] == #[trigger] expired@[j],
                forall|j: int| 0 <= j < expired@.len()
                    ==> (#[trigger] expired@[j]).1.deadline <= now,
                forall|j: int| 0 <= j < kept@.len()
                    ==> exists|m: int| 0 <= m < idx && oldseq[m] == #[trigger] kept@[j],
                forall|j: int| 0 <= j < kept@.len()
                    ==> (#[trigger] kept@[j]).1.deadline > now,
                forall|m: int| 0 <= m < idx && (#[trigger] oldseq[m]).1.deadline <= now
                    ==> exists|j: int| 0 <= j < expired@.len() && expired@[j] == oldseq[m],
                forall|m: int| 0 <= m < idx && (#[trigger] oldseq[m]).1.deadline > now
                    ==> exists|j: int| 0 <= j < kept@.len() && kept@[j] == oldseq[m],
                forall|j1: int, j2: int|
                    0 <= j1 < kept@.len() && 0 <= j2 < kept@.len() && j1 != j2
                        ==> (#[trigger] kept@[j1]).0 != (#[trigger] kept@[j2]).0,
            decreases n - idx,
        {
            let ghost pre_exp = expired@;
            let ghost pre_kept = kept@;
            let pair = self.requests[idx];
            if pair.1.deadline <= now {
                expired.push(pair);
                proof {
                    assert(expired@[pre_exp.len() as int] == oldseq[idx as int]);
                    assert forall|m: int|
                        0 <= m < idx + 1 && (#[trigger] oldseq[m]).1.deadline <= now
                            implies exists|j: int|
                                0 <= j < expired@.len() && expired@[j] == oldseq[m] by {
                        if m < idx {
                            let j = choose|j: int|
                                0 <= j < pre_exp.len() && pre_exp[j] == oldseq[m];
                            assert(expired@[j] == oldseq[m]);
                        } else {
                            assert(expired@[pre_exp.len() as int] == oldseq[m]);
                        }
                    }
                    assert forall|m: int|
                        0 <= m < idx + 1 && (#[trigger] oldseq[m]).1.deadline > now
                            implies exists|j: int|
                                0 <= j < kept@.len() && kept@[j] == oldseq[m] by {
                        let j = choose|j: int|
                            0 <= j < pre_kept.len() && pre_kept[j] == oldseq[m];
                        assert(kept@[j] == oldseq[m]);
                    }
                }
            } else {
                proof {
                    assert forall|j: int| 0 <= j < kept@.len()
                        implies (#[trigger] kept@[j]).0 != pair.0 by {
                        let m = choose|m: int| 0 <= m < idx && oldseq[m] == kept@[j];
                        assert(oldseq[m].0 != oldseq[idx as int].0);
                    }
                }
                kept.push(pair);
                proof {
                    assert(kept@[pre_kept.len() as int] == oldseq[idx as int]);
                    assert forall|m: int|
                        0 <= m < idx + 1 && (#[trigger] oldseq[m]).1.deadline > now
                            implies exists|j: int|
                                0 <= j < kept@.len() && kept@[j] == oldseq[m] by {
                        if m < idx {
                            let j = choose|j: int|
                                0 <= j < pre_kept.len() && pre_kept[j] == oldseq[m];
                            assert(kept@[j] == oldseq[m]);
                        } else {
                            assert(kept@[pre_kept.len() as int] == oldseq[m]);
                        }
                    }
                    assert forall|m: int|
                        0 <= m < idx + 1 && (#[trigger] oldseq[m]).1.deadline <= now
                            implies exists|j: int|
                                0 <= j < expired@.len() && expired@[j] == oldseq[m] by {
                        let j = choose|j: int|
                            0 <= j < pre_exp.len() && pre_exp[j] == oldseq[m];
                        assert(expired@[j] == oldseq[m]);
                    }
                }
            }
            idx += 1;
        }
        self.requests = kept;
        proof {
            let newseq = self.requests@;
            assert forall|k: u64| #[trigger]
                Self::sweep_ok(*old(self), *self, expired@, now, k) by {
                if exists|m: int| 0 <= m < n && (#[trigger] oldseq[m]).0 == k {
                    let m = choose|m: int| 0 <= m < n && (#[trigger] oldseq[m]).0 == k;
                    old(self).lemma_get_at(m);
                    let r = oldseq[m].1;
                    if r.deadline <= now {
                        assert(exists|j: int|
                            0 <= j < expired@.len() && expired@[j] == oldseq[m]);
                        assert(oldseq[m] == (k, r));
                        // no kept slot carries key k
                        assert forall|j: int| 0 <= j < newseq.len()
                            implies (#[trigger] newseq[j]).0 != k by {
                            let m2 = choose|m2: int| 0 <= m2 < n && oldseq[m2] == newseq[j];
                            if oldseq[m2].0 == k {
                                if m2 != m {
                                    assert(oldseq[m2].0 != oldseq[m].0);
                                }
                                assert(false);
                            }
                        }
                        self.lemma_get_none(k);
                    } else {
                        let j = choose|j: int|
                            0 <= j < newseq.len() && newseq[j] == oldseq[m];
                        self.lemma_get_at(j);
                    }
                } else {
                    old(self).lemma_get_none(k);
                    assert forall|j: int| 0 <= j < newseq.len()
                        implies (#[trigger] newseq[j]).0 != k by {
                        let m2 = choose|m2: int| 0 <= m2 < n && oldseq[m2] == newseq[j];
                        assert(oldseq[m2].0 != k);
                    }
                    self.lemma_get_none(k);
                }
            }
            assert forall|j: int| 0 <= j < expired@.len()
                implies old(self).spec_get((#[trigger] expired@[j]).0) == Some(expired@[j].1)
                    && expired@[j].1.deadline <= now by {
                let m = choose|m: int| 0 <= m < n && oldseq[m] == expired@[j];
                old(self).lemma_get_at(m);
            }
        }
        expired
    }
}

/// Round trip: once a request `r` stands registered under identifier `x`,
/// and nothing resolves `x` in between, a response carrying `x` resolves
/// exactly `r` — the very request that was dispatched — and no other.
/// `dispatched` is the tracker after the dispatch, whose contract pins
/// `spec_get(x)` to `Some(r)`; `arrived` is the tracker when the response
/// lands, with `x` still untouched; `matched` is what resolving `x` yields,
/// which the handler's contract pins to `arrived.spec_get(x)`.
pub proof fn lemma_response_resolves_dispatched_request(
    dispatched: ActiveRequests,
    arrived: ActiveRequests,
    x: u64,
    r: ActiveRequest,
    matched: Option<ActiveRequest>,
)
    requires
        dispatched.spec_get(x) == Some(r),
        arrived.spec_get(x) == dispatched.spec_get(x),
        matched == arrived.spec_get(x),
    ensures
        matched == Some(r),
{
}

/// What handling one inbound response produced: the request it resolved (if
/// any), a peer whose record should be refreshed because the response
/// reported a newer sequence number, and the caller's notifier to fulfill.
pub struct ResponseOutcome {
    /// The resolved request, exactly as it was registered; `None` for a
    /// late or unsolicited response, which changes nothing.
    pub matched: Option<ActiveRequest>,
    /// Schedule a record refresh for this peer.
    pub refresh: Option<NodeId>,
    /// Fulfill this one-shot notifier with the response.
    pub callback: Option<u64>,
}

/// The coordinating core: the routing table, the request tracker, the query
/// pool and the expected-response table, advanced one event at a time. The
/// embedding owns the channels and timers and hands each event in here.
pub struct Service {
    /// Our own identifier.
    pub local_id: NodeId,
    /// The sequence number of our own record, echoed in liveness replies.
    pub local_seq: u64,
    /// The routing table.
    pub kbuckets: KBucketsTable,
    /// The running iterative lookups.
    pub queries: QueryPool,
    /// The in-flight outbound requests.
    pub active_requests: ActiveRequests,
    /// How many replies we await per source address.
    pub expected_responses: ExpectedResponseTable,
    /// The identifier the next outbound request will carry.
    pub next_request_id: u64,
}

impl Service {
    /// Every component is well formed, and every identifier the service has
    /// not yet issued is untracked, so issuing the next one cannot collide.
    pub open spec fn wf(&self) -> bool {
        &&& self.kbuckets.wf()
        &&& self.queries.wf()
        &&& self.active_requests.wf()
        &&& self.expected_responses.wf()
        &&& forall|id: u64| id >= self.spec_next_request_id()
            ==> !(#[trigger] self.active_requests.tracks(id))
    }

    /// The identifier the next outbound request will carry.
    pub open spec fn spec_next_request_id(&self) -> u64 {
        self.next_request_id
    }

    /// A fresh service around the local identifier: empty tables, no
    /// requests, no queries.
    pub fn new(local_id: NodeId, local_seq: u64) -> (s: Service)
        ensures
            s.wf(),
            s.local_id == local_id,
            s.local_seq == local_seq,
            s.kbuckets.spec_local() == local_id,
            s.kbuckets@ =~= Seq::<BucketEntry>::empty(),
            forall|id: u64| s.active_requests.spec_get(id) is None,
            forall|src: SourceAddress| s.expected_responses.count_of(src) == 0,
    {
        Service {
            local_id,
            local_seq,
            kbuckets: KBucketsTable::new(local_id),
            queries: QueryPool::new(),
            active_requests: ActiveRequests::new(),
            expected_responses: ExpectedResponseTable::new(),
            next_request_id: 0,
        }
    }

    /// Dispatches one outbound request to `contact`: allocates a fresh
    /// identifier, registers the in-flight request with its deadline, and
    /// notes that a response is now expected from the contact's address. A
    /// request addressed to ourselves is refused.
    pub fn send_request(
        &mut self,
        contact: PeerRecord,
        body: RequestBody,
        query_id: Option<QueryId>,
        callback: Option<u64>,
        now: u64,
        timeout: u64,
    ) -> (r: Result<u64, RequestError>)
        requires
            old(self).wf(),
            old(self).spec_next_request_id() < u64::MAX,
        ensures
            final(self).wf(),
            final(self).local_id == old(self).local_id,
            final(self).local_seq == old(self).local_seq,
            contact.node_id == old(self).local_id ==> r == Err::<u64, RequestError>(
                RequestError::SelfRequest,
            ) && *final(self) == *old(self),
            contact.node_id != old(self).local_id ==> {
                let id = old(self).spec_next_request_id();
                let deadline = if timeout <= u64::MAX - now { (now + timeout) as u64 } else { u64::MAX };
                &&& r == Ok::<u64, RequestError>(id)
                &&& final(self).spec_next_request_id() == id + 1
                &&& final(self).active_requests.spec_get(id) == Some(ActiveRequest {
                    contact,
                    request_body: body,
                    query_id,
                    callback,
                    deadline,
                })
                &&& forall|k: u64| k != id
                    ==> final(self).active_requests.spec_get(k)
                        == old(self).active_requests.spec_get(k)
                &&& final(self).expected_responses.count_of(contact.spec_address()) == (
                    if old(self).expected_responses.count_of(contact.spec_address()) < usize::MAX {
                        old(self).expected_responses.count_of(contact.spec_address()) + 1
                    } else {
                        old(self).expected_responses.count_of(contact.spec_address())
                    })
                &&& forall|s: SourceAddress| s != contact.spec_address()
                    ==> final(self).expected_responses.count_of(s)
                        == old(self).expected_responses.count_of(s)
                &&& final(self).kbuckets == old(self).kbuckets
                &&& final(self).queries == old(self).queries
            },
    {
        if contact.node_id == self.local_id {
            return Err(RequestError::SelfRequest);
        }
        let id = self.next_request_id;
        let deadline = if timeout <= u64::MAX - now {
            now + timeout
        } else {
            u64::MAX
        };
        let request = ActiveRequest { contact, request_body: body, query_id, callback, deadline };
        proof {
            assert(!self.active_requests.tracks(id));
        }
        let inserted = self.active_requests.insert(id, request);
        proof {
            assert(inserted is Ok);
        }
        self.expected_responses.increment(contact.address());
        self.next_request_id = id + 1;
        proof {
            assert forall|k: u64| k >= self.spec_next_request_id()
                implies !(#[trigger] self.active_requests.tracks(k)) by {
                assert(k != id);
                assert(self.active_requests.spec_get(k) == old(self).active_requests.spec_get(k));
                assert(!old(self).active_requests.tracks(k));
            }
        }
        Ok(id)
    }

    /// Handles one inbound response, matched purely by its identifier. A
    /// response matching no tracked request changes nothing. A matched one
    /// resolves that request exactly once, marks the responding peer
    /// Connected in the routing table (inserting it if absent and its
    /// bucket admits it), notes the awaited reply as arrived, feeds reported
    /// peers to the owning lookup, and asks for a record refresh when the
    /// response carries a newer sequence number.
    pub fn handle_rpc_response(&mut self, response: &Response, now: u64) -> (out: ResponseOutcome)
        requires
            old(self).wf(),
        ensures
            final(self).wf(),
            final(self).local_id == old(self).local_id,
            final(self).local_seq == old(self).local_seq,
            final(self).spec_next_request_id() == old(self).spec_next_request_id(),
            // the resolved request is exactly the one registered under the
            // response's identifier
            out.matched == old(self).active_requests.spec_get(response.id),
            // an unmatched response mutates nothing at all
            out.matched is None ==> *final(self) == *old(self)
                && out.refresh is None && out.callback is None,
            out.matched matches Some(req) ==> {
                &&& final(self).active_requests.spec_get(response.id) is None
                &&& forall|k: u64| k != response.id
                    ==> final(self).active_requests.spec_get(k)
                        == old(self).active_requests.spec_get(k)
                &&& final(self).expected_responses.count_of(req.contact.spec_address()) == (
                    if old(self).expected_responses.count_of(req.contact.spec_address()) > 0 {
                        (old(self).expected_responses.count_of(req.contact.spec_address())
                            - 1) as nat
                    } else {
                        0
                    })
                &&& forall|s: SourceAddress| s != req.contact.spec_address()
                    ==> final(self).expected_responses.count_of(s)
                        == old(self).expected_responses.count_of(s)
                &&& (old(self).kbuckets.spec_get(req.contact.node_id) matches Some(e)
                    ==> final(self).kbuckets.spec_get(req.contact.node_id) == Some(BucketEntry {
                        record: e.record,
                        status: NodeStatus::Connected,
                        last_seen: now,
                    }))
                &&& (final(self).kbuckets.contains(req.contact.node_id)
                    || old(self).kbuckets.contains(req.contact.node_id)
                    ==> final(self).kbuckets.status_of(req.contact.node_id)
                        == NodeStatus::Connected)
                &&& forall|k: NodeId| k != req.contact.node_id
                    ==> final(self).kbuckets.spec_get(k) == old(self).kbuckets.spec_get(k)
                &&& out.refresh == (match response.body {
                    ResponseBody::Ping { enr_seq, .. } => if enr_seq > req.contact.seq {
                        Some(req.contact.node_id)
                    } else {
                        None
                    },
                    _ => None,
                })
                &&& out.callback == req.callback
                &&& !(response.body is Nodes && req.query_id is Some)
                    ==> final(self).queries@ == old(self).queries@
                &&& (response.body matches ResponseBody::Nodes { nodes, .. }
                    ==> (req.query_id matches Some(qid)
                        ==> crate::query_pool::spec_advanced(
                            old(self).queries@,
                            final(self).queries@,
                            qid,
                            req.contact.node_id,
                            nodes@,
                        )))
            },
    {
        let matched = self.active_requests.remove(response.id);
        match matched {
            None => ResponseOutcome { matched: None, refresh: None, callback: None },
            Some(req) => {
                self.expected_responses.decrement(req.contact.address());
                match self.kbuckets.entry(req.contact.node_id) {
                    Entry::Present(_) => {
                        self.kbuckets.update_status(
                            req.contact.node_id,
                            NodeStatus::Connected,
                            now,
                        );
                    },
                    Entry::Absent => {
                        let _ = self.kbuckets.insert(req.contact, NodeStatus::Connected, now);
                    },
                    Entry::SelfEntry => {
                        proof {
                            self.kbuckets.lemma_local_absent();
                        }
                    },
                }
                let refresh = match &response.body {
                    ResponseBody::Ping { enr_seq, .. } => {
                        if *enr_seq > req.contact.seq {
                            Some(req.contact.node_id)
                        } else {
                            None
                        }
                    },
                    _ => None,
                };
                match (&response.body, req.query_id) {
                    (ResponseBody::Nodes { nodes, .. }, Some(qid)) => {
                        self.queries.on_success(qid, req.contact.node_id, nodes);
                    },
                    _ => {},
                }
                proof {
                    assert forall|k: u64| k >= self.spec_next_request_id()
                        implies !(#[trigger] self.active_requests.tracks(k)) by {
                        if k != response.id {
                            assert(self.active_requests.spec_get(k)
                                == old(self).active_requests.spec_get(k));
                        }
                        assert(!old(self).active_requests.tracks(k));
                    }
                }
                ResponseOutcome { matched: Some(req), refresh, callback: req.callback }
            },
        }
    }

    /// Answers one inbound request from a peer: a liveness check gets our
    /// record's sequence number and the address we observed the asker at; a
    /// lookup request gets the peers we know closest to its target, at most
    /// one bucket's worth. The routing table is not mutated.
    pub fn handle_rpc_request(&self, request: &Request, from: PeerRecord) -> (r: Response)
        ensures
            r.id == request.id,
            request.body matches RequestBody::Ping { enr_seq } ==> r.body
                == (ResponseBody::Ping { enr_seq: self.local_seq, ip: from.ip, port: from.port }),
            request.body matches RequestBody::FindNode { target } ==> (r.body matches
                ResponseBody::Nodes { total, nodes } && total == 1
                && nodes@.len() <= MAX_NODES_PER_BUCKET
                && (self.kbuckets@.len() >= MAX_NODES_PER_BUCKET
                    ==> nodes@.len() == MAX_NODES_PER_BUCKET)
                && (self.kbuckets@.len() < MAX_NODES_PER_BUCKET
                    ==> nodes@.len() == self.kbuckets@.len())
                && (forall|j: int| 0 <= j < nodes@.len()
                    ==> KBucketsTable::spec_has_record(self.kbuckets@, #[trigger] nodes@[j]))
                && (forall|a: int, b: int| 0 <= a <= b < nodes@.len()
                    ==> crate::distance(target, (#[trigger] nodes@[a]).node_id)
                        <= crate::distance(target, (#[trigger] nodes@[b]).node_id))),
    {
        match request.body {
            RequestBody::Ping { .. } => Response {
                id: request.id,
                body: ResponseBody::Ping {
                    enr_seq: self.local_seq,
                    ip: from.ip,
                    port: from.port,
                },
            },
            RequestBody::FindNode { target } => {
                let sorted = self.kbuckets.nodes_by_distance(target);
                let mut nodes: Vec<PeerRecord> = Vec::new();
                let mut i: usize = 0;
                while i < sorted.len() && i < MAX_NODES_PER_BUCKET
                    invariant
                        i <= sorted@.len(),
                        i <= MAX_NODES_PER_BUCKET,
                        nodes@.len() == i,
                        forall|j: int| 0 <= j < i ==> #[trigger] nodes@[j] == sorted@[j].record,
                        forall|j: int| 0 <= j < sorted@.len()
                            ==> self.kbuckets@.contains(#[trigger] sorted@[j]),
                        forall|a: int, b: int| 0 <= a <= b < sorted@.len()
                            ==> crate::distance(target, (#[trigger] sorted@[a]).record.node_id)
                                <= crate::distance(target, (#[trigger] sorted@[b]).record.node_id),
                    decreases sorted@.len() - i,
                {
                    nodes.push(sorted[i].record);
                    i += 1;
                }
                proof {
                    assert forall|j: int| 0 <= j < nodes@.len()
                        implies KBucketsTable::spec_has_record(
                            self.kbuckets@,
                            #[trigger] nodes@[j],
                        ) by {
                        let m = choose|m: int|
                            0 <= m < self.kbuckets@.len()
                                && self.kbuckets@[m] == sorted@[j];
                        assert(self.kbuckets@[m].record == nodes@[j]);
                    }
                }
                Response { id: request.id, body: ResponseBody::Nodes { total: 1, nodes } }
            },
        }
    }

    /// Sweeps every request whose deadline has passed: each is removed from
    /// the tracker (a late response can no longer match it), its awaited
    /// reply is forgotten, its owning lookup (if any) is told of the
    /// failure, and a peer that failed a liveness check is demoted to
    /// Disconnected. The returned list carries each swept request exactly
    /// as registered; the embedding fails the attached notifiers with a
    /// timeout.
    pub fn sweep_expired(&mut self, now: u64) -> (expired: Vec<(u64, ActiveRequest)>)
        requires
            old(self).wf(),
        ensures
            final(self).wf(),
            final(self).local_id == old(self).local_id,
            final(self).local_seq == old(self).local_seq,
            final(self).spec_next_request_id() == old(self).spec_next_request_id(),
            forall|k: u64| #[trigger] ActiveRequests::sweep_ok(
                old(self).active_requests,
                final(self).active_requests,
                expired@,
                now,
                k,
            ),
            forall|j: int| 0 <= j < expired@.len()
                ==> old(self).active_requests.spec_get((#[trigger] expired@[j]).0)
                    == Some(expired@[j].1) && expired@[j].1.deadline <= now,
            forall|k: NodeId| final(self).kbuckets.contains(k)
                == old(self).kbuckets.contains(k),
    {
        let expired = self.active_requests.remove_expired(now);
        let ghost tracker_after = self.active_requests;
        let ghost kb0 = self.kbuckets;
        let mut i: usize = 0;
        while i < expired.len()
            invariant
                self.active_requests == tracker_after,
                tracker_after.wf(),
                self.kbuckets.wf(),
                self.queries.wf(),
                self.expected_responses.wf(),
                self.local_id == old(self).local_id,
                self.local_seq == old(self).local_seq,
                self.spec_next_request_id() == old(self).spec_next_request_id(),
                forall|k: NodeId| #[trigger] self.kbuckets.contains(k) == kb0.contains(k),
            decreases expired@.len() - i,
        {
            let pair = expired[i];
            let req = pair.1;
            self.expected_responses.decrement(req.contact.address());
            match req.query_id {
                Some(qid) => {
                    self.queries.on_failure(qid, req.contact.node_id);
                },
                None => {},
            }
            let is_ping = match req.request_body {
                RequestBody::Ping { .. } => true,
                _ => false,
            };
            if is_ping {
                let ghost kb_pre = self.kbuckets;
                self.kbuckets.update_status(req.contact.node_id, NodeStatus::Disconnected, now);
                proof {
                    assert forall|k: NodeId| #[trigger] self.kbuckets.contains(k)
                        == kb0.contains(k) by {
                        if k != req.contact.node_id {
                            assert(self.kbuckets.spec_get(k) == kb_pre.spec_get(k));
                        } else {
                            if kb_pre.contains(k) {
                                assert(self.kbuckets.spec_get(k) is Some);
                            } else {
                                assert(self.kbuckets.spec_get(k) == kb_pre.spec_get(k));
                            }
                        }
                        assert(kb_pre.contains(k) == kb0.contains(k));
                    }
                }
            }
            i += 1;
        }
        proof {
            assert forall|id: u64| id >= self.spec_next_request_id()
                implies !(#[trigger] self.active_requests.tracks(id)) by {
                assert(ActiveRequests::sweep_ok(
                    old(self).active_requests,
                    tracker_after,
                    expired@,
                    now,
                    id,
                ));
                assert(!old(self).active_requests.tracks(id));
            }
        }
        expired
    }
}

} // verus!
