//! The routing table: known peers bucketed by XOR distance from the local
//! identifier, each carrying a connected/disconnected status and a
//! last-seen timestamp, with pending replacement slots behind full buckets.

use vstd::prelude::*;
use crate::NodeId;
use crate::PeerRecord;
use crate::distance;
use crate::xor_distance;

verus! {

/// How many peers one distance bucket holds.
pub const MAX_NODES_PER_BUCKET: usize = 16;

/// Reachability of a peer as the table last observed it.
#[derive(Clone, Copy, PartialEq, Eq, Structural, Debug)]
pub enum NodeStatus {
    /// A round-trip with the peer succeeded recently.
    Connected,
    /// The peer failed a liveness check, or was never heard from.
    Disconnected,
}

/// One routing-table entry.
#[derive(Clone, Copy, PartialEq, Eq, Structural, Debug)]
pub struct BucketEntry {
    /// The peer's validated record.
    pub record: PeerRecord,
    /// Connected or disconnected.
    pub status: NodeStatus,
    /// When the peer was last heard from.
    pub last_seen: u64,
}

/// What a probe of the table finds for a key.
#[derive(Clone, Copy, PartialEq, Eq, Structural, Debug)]
pub enum Entry {
    /// The key is present with this status.
    Present(NodeStatus),
    /// The key is absent and could be inserted.
    Absent,
    /// The key is our own identifier.
    SelfEntry,
}

/// The outcome of an insertion.
#[derive(Clone, Copy, PartialEq, Eq, Structural, Debug)]
pub enum InsertResult {
    /// The peer went into its bucket.
    Inserted,
    /// The bucket is full but holds a disconnected entry; the peer waits in
    /// a pending slot behind that replacement candidate.
    Pending,
    /// The bucket is full of connected peers; the peer was not kept.
    Full,
    /// The key is already in the table; nothing changed.
    NodeExists,
    /// The key is our own identifier; the table never holds it.
    SelfKey,
}

/// The index of the distance bucket a distance falls into: the position of
/// the highest set bit.
pub open spec fn spec_bucket_index(d: u64) -> nat
    decreases d,
{
    if d >= 2 {
        1 + spec_bucket_index(d / 2)
    } else {
        0
    }
}

/// Computes the bucket index of a distance.
pub fn bucket_index(d: u64) -> (i: usize)
    ensures
        i == spec_bucket_index(d),
{
    proof {
        lemma_bucket_index_bound(d);
    }
    let mut rest = d;
    let mut i: usize = 0;
    while rest >= 2
        invariant
            i < 64,
            spec_bucket_index(d) == i + spec_bucket_index(rest),
            spec_bucket_index(d) < 64,
        decreases rest,
    {
        rest = rest / 2;
        i += 1;
    }
    i
}

spec fn pow2n(k: nat) -> nat
    decreases k,
{
    if k == 0 {
        1
    } else {
        2 * pow2n((k - 1) as nat)
    }
}

proof fn lemma_bucket_lt(d: u64, k: nat)
    requires
        k >= 1,
        d < pow2n(k),
    ensures
        spec_bucket_index(d) < k,
    decreases d,
{
    if d >= 2 {
        assert(pow2n(k) == 2 * pow2n((k - 1) as nat));
        if k == 1 {
            assert(pow2n(0) == 1);
            assert(false);
        }
        assert(d / 2 < pow2n((k - 1) as nat));
        lemma_bucket_lt(d / 2, (k - 1) as nat);
    }
}

/// A 64-bit distance never reaches bucket 64.
pub proof fn lemma_bucket_index_bound(d: u64)
    ensures
        spec_bucket_index(d) < 64,
{
    assert(pow2n(64) == 0x10000000000000000) by {
        reveal_with_fuel(pow2n, 65);
    }
    lemma_bucket_lt(d, 64);
}

/// The entry in `s` keyed by `id`, if one is.
pub open spec fn seq_get(s: Seq<BucketEntry>, id: NodeId) -> Option<BucketEntry> {
    if exists|i: int| 0 <= i < s.len() && (#[trigger] s[i]).record.node_id == id {
        let i = choose|i: int| 0 <= i < s.len() && (#[trigger] s[i]).record.node_id == id;
        Some(s[i])
    } else {
        None
    }
}

/// Every identifier keys at most one slot of `s`.
pub open spec fn keys_unique(s: Seq<BucketEntry>) -> bool {
    forall|i: int, j: int|
        0 <= i < s.len() && 0 <= j < s.len() && i != j
            ==> (#[trigger] s[i]).record.node_id != (#[trigger] s[j]).record.node_id
}

proof fn lemma_seq_get_at(s: Seq<BucketEntry>, i: int)
    requires
        keys_unique(s),
        0 <= i < s.len(),
    ensures
        seq_get(s, s[i].record.node_id) == Some(s[i]),
{
    let id = s[i].record.node_id;
    let j = choose|k: int| 0 <= k < s.len() && (#[trigger] s[k]).record.node_id == id;
    if j != i {
        assert(s[i].record.node_id != s[j].record.node_id);
        assert(false);
    }
}

proof fn lemma_seq_get_none(s: Seq<BucketEntry>, id: NodeId)
    requires
        forall|i: int| 0 <= i < s.len() ==> (#[trigger] s[i]).record.node_id != id,
    ensures
        seq_get(s, id) is None,
{
}

/// How many slots of `s` are keyed by `id`.
pub open spec fn seq_key_count(s: Seq<BucketEntry>, id: NodeId) -> nat
    decreases s.len(),
{
    if s.len() == 0 {
        0
    } else {
        seq_key_count(s.drop_last(), id) + if s.last().record.node_id == id {
            1nat
        } else {
            0nat
        }
    }
}

proof fn lemma_key_count_exists(s: Seq<BucketEntry>, id: NodeId)
    ensures
        (seq_key_count(s, id) >= 1) == (exists|i: int|
            0 <= i < s.len() && (#[trigger] s[i]).record.node_id == id),
    decreases s.len(),
{
    if s.len() > 0 {
        lemma_key_count_exists(s.drop_last(), id);
        if s.last().record.node_id == id {
            assert(s[s.len() - 1].record.node_id == id);
        } else {
            if exists|i: int| 0 <= i < s.len() && (#[trigger] s[i]).record.node_id == id {
                let i = choose|i: int|
                    0 <= i < s.len() && (#[trigger] s[i]).record.node_id == id;
                assert(i < s.len() - 1);
                assert(s.drop_last()[i].record.node_id == id);
            }
        }
    }
}

/// Unique keys bound every per-identifier count by one.
pub proof fn lemma_unique_key_count(s: Seq<BucketEntry>, id: NodeId)
    requires
        keys_unique(s),
    ensures
        seq_key_count(s, id) <= 1,
    decreases s.len(),
{
    if s.len() > 0 {
        let prefix = s.drop_last();
        assert forall|i: int, j: int|
            0 <= i < prefix.len() && 0 <= j < prefix.len() && i != j
                implies (#[trigger] prefix[i]).record.node_id
                    != (#[trigger] prefix[j]).record.node_id by {
            assert(s[i].record.node_id != s[j].record.node_id);
        }
        lemma_unique_key_count(prefix, id);
        if s.last().record.node_id == id && seq_key_count(prefix, id) >= 1 {
            lemma_key_count_exists(prefix, id);
            let i = choose|i: int|
                0 <= i < prefix.len() && (#[trigger] prefix[i]).record.node_id == id;
            assert(s[i].record.node_id == id);
            assert(s[s.len() - 1].record.node_id == id);
            assert(false);
        }
    }
}

/// The routing table.
pub struct KBucketsTable {
    local_id: NodeId,
    entries: Vec<BucketEntry>,
    pending: Vec<BucketEntry>,
}

impl KBucketsTable {
    /// Identifiers are unique among entries and among pending slots, and
    /// the table never holds our own identifier.
    pub closed spec fn wf(&self) -> bool {
        &&& keys_unique(self.entries@)
        &&& keys_unique(self.pending@)
        &&& forall|i: int| 0 <= i < self.entries@.len()
            ==> (#[trigger] self.entries@[i]).record.node_id != self.local_id
        &&& forall|i: int| 0 <= i < self.pending@.len()
            ==> (#[trigger] self.pending@[i]).record.node_id != self.local_id
    }

    /// The local identifier distances are measured from.
    pub closed spec fn spec_local(&self) -> NodeId {
        self.local_id
    }

    /// The live entries, in slot order.
    pub closed spec fn view(&self) -> Seq<BucketEntry> {
        self.entries@
    }

    /// The pending replacement slots, in arrival order.
    pub closed spec fn pending_view(&self) -> Seq<BucketEntry> {
        self.pending@
    }

    /// The entry for `id`, if the table holds one.
    pub open spec fn spec_get(&self, id: NodeId) -> Option<BucketEntry> {
        seq_get(self@, id)
    }

    /// Whether the table holds an entry for `id`.
    pub open spec fn contains(&self, id: NodeId) -> bool {
        self.spec_get(id) is Some
    }

    /// The status of `id`'s entry.
    pub open spec fn status_of(&self, id: NodeId) -> NodeStatus {
        self.spec_get(id)->Some_0.status
    }

    /// How many live entries carry `id`; a well-formed table never has two.
    pub open spec fn entry_count(&self, id: NodeId) -> nat {
        seq_key_count(self@, id)
    }

    /// The pending replacement entry for `id`, if one waits.
    pub open spec fn pending_get(&self, id: NodeId) -> Option<BucketEntry> {
        seq_get(self.pending_view(), id)
    }

    /// Whether a pending replacement waits under `id`.
    pub open spec fn pending_contains(&self, id: NodeId) -> bool {
        self.pending_get(id) is Some
    }

    /// The load of distance bucket `b`.
    pub open spec fn bucket_load(&self, b: nat) -> nat {
        Self::seq_bucket_count(self@, self.spec_local(), b)
    }

    /// How many entries of `s` fall into bucket `b` around `local`.
    pub open spec fn seq_bucket_count(s: Seq<BucketEntry>, local: NodeId, b: nat) -> nat
        decreases s.len(),
    {
        if s.len() == 0 {
            0
        } else {
            Self::seq_bucket_count(s.drop_last(), local, b)
                + if spec_bucket_index(distance(local, s.last().record.node_id)) == b {
                1nat
            } else {
                0nat
            }
        }
    }

    /// Whether bucket `b` holds a disconnected (evictable) entry.
    pub open spec fn bucket_has_disconnected(&self, b: nat) -> bool {
        exists|i: int|
            0 <= i < self@.len()
                && spec_bucket_index(distance(self.spec_local(), (#[trigger] self@[i]).record.node_id)) == b
                && self@[i].status == NodeStatus::Disconnected
    }

    /// The bucket `id` falls into, measured from the local identifier.
    pub open spec fn spec_bucket_of(&self, id: NodeId) -> nat {
        spec_bucket_index(distance(self.spec_local(), id))
    }

    /// An empty table around the local identifier.
    pub fn new(local_id: NodeId) -> (t: KBucketsTable)
        ensures
            t.wf(),
            t.spec_local() == local_id,
            t@ =~= Seq::<BucketEntry>::empty(),
            t.pending_view() =~= Seq::<BucketEntry>::empty(),
    {
        KBucketsTable { local_id, entries: Vec::new(), pending: Vec::new() }
    }

    /// How many live entries the table holds.
    pub fn len(&self) -> (n: usize)
        ensures
            n == self@.len(),
    {
        self.entries.len()
    }

    /// The entry at slot `i`, for read-only traversal.
    pub fn get(&self, i: usize) -> (e: BucketEntry)
        requires
            i < self@.len(),
        ensures
            e == self@[i as int],
    {
        self.entries[i]
    }

    fn find_entry(&self, id: NodeId) -> (r: Option<usize>)
        ensures
            match r {
                Some(i) => i < self@.len() && self@[i as int].record.node_id == id,
                None => forall|i: int|
                    0 <= i < self@.len() ==> (#[trigger] self@[i]).record.node_id != id,
            },
    {
        let mut i: usize = 0;
        while i < self.entries.len()
            invariant
                i <= self.entries@.len(),
                forall|k: int| 0 <= k < i ==> (#[trigger] self.entries@[k]).record.node_id != id,
            decreases self.entries@.len() - i,
        {
            if self.entries[i].record.node_id == id {
                return Some(i);
            }
            i += 1;
        }
        None
    }

    fn find_pending(&self, id: NodeId) -> (r: Option<usize>)
        ensures
            match r {
                Some(i) => i < self.pending@.len() && self.pending@[i as int].record.node_id == id,
                None => forall|i: int|
                    0 <= i < self.pending@.len()
                        ==> (#[trigger] self.pending@[i]).record.node_id != id,
            },
    {
        let mut i: usize = 0;
        while i < self.pending.len()
            invariant
                i <= self.pending@.len(),
                forall|k: int| 0 <= k < i ==> (#[trigger] self.pending@[k]).record.node_id != id,
            decreases self.pending@.len() - i,
        {
            if self.pending[i].record.node_id == id {
                return Some(i);
            }
            i += 1;
        }
        None
    }

    /// Probes the table for a key.
    pub fn entry(&self, id: NodeId) -> (r: Entry)
        requires
            self.wf(),
        ensures
            id == self.spec_local() ==> r == Entry::SelfEntry,
            id != self.spec_local() && self.contains(id)
                ==> r == Entry::Present(self.status_of(id)),
            id != self.spec_local() && !self.contains(id) ==> r == Entry::Absent,
    {
        if id == self.local_id {
            return Entry::SelfEntry;
        }
        match self.find_entry(id) {
            Some(i) => {
                proof { lemma_seq_get_at(self.entries@, i as int); }
                Entry::Present(self.entries[i].status)
            },
            None => {
                proof { lemma_seq_get_none(self.entries@, id); }
                Entry::Absent
            },
        }
    }

    fn load_of_bucket(&self, b: usize) -> (n: usize)
        ensures
            n == Self::seq_bucket_count(self@, self.spec_local(), b as nat),
    {
        let mut i: usize = 0;
        let mut n: usize = 0;
        while i < self.entries.len()
            invariant
                i <= self.entries@.len(),
                n <= i,
                n == Self::seq_bucket_count(
                    self.entries@.subrange(0, i as int),
                    self.local_id,
                    b as nat,
                ),
            decreases self.entries@.len() - i,
        {
            let e = self.entries[i];
            let ghost prefix = self.entries@.subrange(0, i as int);
            let ghost next = self.entries@.subrange(0, i + 1);
            proof {
                assert(next.drop_last() =~= prefix);
                assert(next.last() == self.entries@[i as int]);
            }
            if bucket_index(xor_distance(self.local_id, e.record.node_id)) == b {
                n += 1;
            }
            i += 1;
        }
        proof {
            assert(self.entries@.subrange(0, self.entries@.len() as int) =~= self.entries@);
        }
        n
    }

    fn bucket_disconnected(&self, b: usize) -> (r: bool)
        ensures
            r == self.bucket_has_disconnected(b as nat),
    {
        let mut i: usize = 0;
        while i < self.entries.len()
            invariant
                i <= self.entries@.len(),
                forall|k: int| 0 <= k < i
                    ==> !(spec_bucket_index(distance(self.local_id, (#[trigger] self.entries@[k]).record.node_id)) == b
                        && self.entries@[k].status == NodeStatus::Disconnected),
            decreases self.entries@.len() - i,
        {
            let e = self.entries[i];
            if bucket_index(xor_distance(self.local_id, e.record.node_id)) == b
                && e.status == NodeStatus::Disconnected {
                proof {
                    assert(spec_bucket_index(distance(self.local_id, self.entries@[i as int].record.node_id)) == b
                        && self.entries@[i as int].status == NodeStatus::Disconnected);
                }
                return true;
            }
            i += 1;
        }
        false
    }

    /// Inserts a peer with the given status. The key's bucket decides: a
    /// bucket with room takes the entry; a full bucket with a disconnected
    /// entry parks the newcomer in a pending slot behind that replacement
    /// candidate; a full bucket of connected peers rejects it. A key already
    /// present, or our own, changes nothing.
    pub fn insert(&mut self, record: PeerRecord, status: NodeStatus, now: u64) -> (r: InsertResult)
        requires
            old(self).wf(),
        ensures
            final(self).wf(),
            final(self).spec_local() == old(self).spec_local(),
            record.node_id == old(self).spec_local()
                ==> r == InsertResult::SelfKey && *final(self) == *old(self),
            record.node_id != old(self).spec_local()
                && (old(self).contains(record.node_id) || old(self).pending_contains(record.node_id))
                ==> r == InsertResult::NodeExists && *final(self) == *old(self),
            record.node_id != old(self).spec_local()
                && !old(self).contains(record.node_id)
                && !old(self).pending_contains(record.node_id) ==> {
                let b = old(self).spec_bucket_of(record.node_id);
                let e = BucketEntry { record, status, last_seen: now };
                &&& (old(self).bucket_load(b) < MAX_NODES_PER_BUCKET ==> r == InsertResult::Inserted
                    && final(self)@ == old(self)@.push(e)
                    && final(self).spec_get(record.node_id) == Some(e)
                    && final(self).pending_view() == old(self).pending_view())
                &&& (old(self).bucket_load(b) >= MAX_NODES_PER_BUCKET
                    && old(self).bucket_has_disconnected(b) ==> r == InsertResult::Pending
                    && final(self)@ == old(self)@
                    && final(self).pending_view() == old(self).pending_view().push(e))
                &&& (old(self).bucket_load(b) >= MAX_NODES_PER_BUCKET
                    && !old(self).bucket_has_disconnected(b) ==> r == InsertResult::Full
                    && *final(self) == *old(self))
            },
            forall|k: NodeId| k != record.node_id
                ==> final(self).spec_get(k) == old(self).spec_get(k),
    {
        let id = record.node_id;
        if id == self.local_id {
            return InsertResult::SelfKey;
        }
        let in_entries = self.find_entry(id);
        let in_pending = self.find_pending(id);
        if in_entries.is_some() || in_pending.is_some() {
            proof {
                match in_entries {
                    Some(i) => lemma_seq_get_at(self.entries@, i as int),
                    None => lemma_seq_get_none(self.entries@, id),
                }
                match in_pending {
                    Some(i) => lemma_seq_get_at(self.pending@, i as int),
                    None => lemma_seq_get_none(self.pending@, id),
                }
            }
            return InsertResult::NodeExists;
        }
        proof {
            lemma_seq_get_none(self.entries@, id);
            lemma_seq_get_none(self.pending@, id);
        }
        let b = bucket_index(xor_distance(self.local_id, id));
        let load = self.load_of_bucket(b);
        let entry = BucketEntry { record, status, last_seen: now };
        if load < MAX_NODES_PER_BUCKET {
            let ghost oldseq = self.entries@;
            self.entries.push(entry);
            proof {
                Self::lemma_push_keeps(oldseq, self.entries@, entry, id, self.local_id);
                lemma_seq_get_at(self.entries@, oldseq.len() as int);
            }
            InsertResult::Inserted
        } else if self.bucket_disconnected(b) {
            let ghost oldseq = self.pending@;
            self.pending.push(entry);
            proof {
                Self::lemma_push_keeps(oldseq, self.pending@, entry, id, self.local_id);
            }
            InsertResult::Pending
        } else {
            InsertResult::Full
        }
    }

    proof fn lemma_push_keeps(
        oldseq: Seq<BucketEntry>,
        newseq: Seq<BucketEntry>,
        entry: BucketEntry,
        id: NodeId,
        local: NodeId,
    )
        requires
            newseq == oldseq.push(entry),
            entry.record.node_id == id,
            id != local,
            keys_unique(oldseq),
            forall|i: int| 0 <= i < oldseq.len()
                ==> (#[trigger] oldseq[i]).record.node_id != id,
            forall|i: int| 0 <= i < oldseq.len()
                ==> (#[trigger] oldseq[i]).record.node_id != local,
        ensures
            keys_unique(newseq),
            forall|i: int| 0 <= i < newseq.len()
                ==> (#[trigger] newseq[i]).record.node_id != local,
            forall|k: NodeId| k != id ==> seq_get(newseq, k) == seq_get(oldseq, k),
    {
        let n = oldseq.len() as int;
        assert forall|i: int, j: int|
            0 <= i < newseq.len() && 0 <= j < newseq.len() && i != j
                implies (#[trigger] newseq[i]).record.node_id
                    != (#[trigger] newseq[j]).record.node_id by {
            if i < n && j < n {
                assert(oldseq[i].record.node_id != oldseq[j].record.node_id);
            } else if i == n {
                assert(oldseq[j].record.node_id != id);
            } else {
                assert(oldseq[i].record.node_id != id);
            }
        }
        assert forall|k: NodeId| k != id
            implies seq_get(newseq, k) == seq_get(oldseq, k) by {
            if exists|i: int| 0 <= i < n && (#[trigger] oldseq[i]).record.node_id == k {
                let i = choose|i: int| 0 <= i < n && (#[trigger] oldseq[i]).record.node_id == k;
                assert(newseq[i].record.node_id == k);
                lemma_seq_get_at(newseq, i);
                lemma_seq_get_at(oldseq, i);
            } else {
                assert forall|i: int| 0 <= i < newseq.len()
                    implies (#[trigger] newseq[i]).record.node_id != k by {
                    if i < n {
                        assert(oldseq[i].record.node_id != k);
                    }
                }
                lemma_seq_get_none(newseq, k);
                lemma_seq_get_none(oldseq, k);
            }
        }
    }

    /// Sets the status of `id`'s entry and stamps it as seen `now`. A key
    /// the table does not hold changes nothing.
    pub fn update_status(&mut self, id: NodeId, status: NodeStatus, now: u64)
        requires
            old(self).wf(),
        ensures
            final(self).wf(),
            final(self).spec_local() == old(self).spec_local(),
            final(self).pending_view() == old(self).pending_view(),
            final(self)@.len() == old(self)@.len(),
            !old(self).contains(id) ==> *final(self) == *old(self),
            old(self).spec_get(id) matches Some(e) ==> final(self).spec_get(id)
                == Some(BucketEntry { record: e.record, status, last_seen: now }),
            forall|k: NodeId| k != id ==> final(self).spec_get(k) == old(self).spec_get(k),
    {
        match self.find_entry(id) {
            None => {
                proof { lemma_seq_get_none(self.entries@, id); }
            },
            Some(i) => {
                proof { lemma_seq_get_at(self.entries@, i as int); }
                let ghost oldseq = self.entries@;
                let e = self.entries[i];
                self.entries.set(i, BucketEntry { record: e.record, status, last_seen: now });
                proof {
                    let ii = i as int;
                    assert forall|a: int, b: int|
                        0 <= a < self.entries@.len() && 0 <= b < self.entries@.len() && a != b
                            implies (#[trigger] self.entries@[a]).record.node_id
                                != (#[trigger] self.entries@[b]).record.node_id by {
                        assert(oldseq[a].record.node_id != oldseq[b].record.node_id);
                        assert(self.entries@[a].record.node_id == oldseq[a].record.node_id);
                        assert(self.entries@[b].record.node_id == oldseq[b].record.node_id);
                    }
                    assert forall|a: int| 0 <= a < self.entries@.len()
                        implies (#[trigger] self.entries@[a]).record.node_id != self.local_id by {
                        assert(oldseq[a].record.node_id != self.local_id);
                        assert(self.entries@[a].record.node_id == oldseq[a].record.node_id);
                    }
                    lemma_seq_get_at(self.entries@, ii);
                    assert forall|k: NodeId| k != id
                        implies seq_get(self.entries@, k) == seq_get(oldseq, k) by {
                        if exists|m: int|
                            0 <= m < oldseq.len() && (#[trigger] oldseq[m]).record.node_id == k {
                            let m = choose|m: int|
                                0 <= m < oldseq.len() && (#[trigger] oldseq[m]).record.node_id == k;
                            assert(m != ii);
                            assert(self.entries@[m] == oldseq[m]);
                            lemma_seq_get_at(self.entries@, m);
                            lemma_seq_get_at(oldseq, m);
                        } else {
                            assert forall|m: int| 0 <= m < self.entries@.len()
                                implies (#[trigger] self.entries@[m]).record.node_id != k by {
                                if m != ii {
                                    assert(oldseq[m].record.node_id != k);
                                }
                            }
                            lemma_seq_get_none(self.entries@, k);
                            lemma_seq_get_none(oldseq, k);
                        }
                    }
                }
            },
        }
    }

    /// A well-formed table never holds its own identifier.
    pub proof fn lemma_local_absent(&self)
        requires
            self.wf(),
        ensures
            self.spec_get(self.spec_local()) is None,
    {
        lemma_seq_get_none(self.entries@, self.local_id);
    }

    /// A well-formed table never holds two entries for one identifier:
    /// inserting a key the table already has cannot create a second entry.
    pub proof fn lemma_no_duplicate_entries(&self, id: NodeId)
        requires
            self.wf(),
        ensures
            self.entry_count(id) <= 1,
    {
        lemma_unique_key_count(self@, id);
    }

    /// All live entries, ordered by XOR distance from `target`: a fresh,
    /// read-only traversal each call.
    pub fn nodes_by_distance(&self, target: NodeId) -> (out: Vec<BucketEntry>)
        ensures
            out@.len() == self@.len(),
            forall|j: int| 0 <= j < out@.len() ==> self@.contains(#[trigger] out@[j]),
            forall|j: int| 0 <= j < self@.len() ==> out@.contains(#[trigger] self@[j]),
            forall|a: int, b: int| 0 <= a <= b < out@.len()
                ==> distance(target, (#[trigger] out@[a]).record.node_id)
                    <= distance(target, (#[trigger] out@[b]).record.node_id),
    {
        let mut out: Vec<BucketEntry> = Vec::new();
        let mut i: usize = 0;
        while i < self.entries.len()
            invariant
                i <= self.entries@.len(),
                out@.len() == i,
                forall|j: int| 0 <= j < out@.len()
                    ==> self.entries@.contains(#[trigger] out@[j]),
                forall|j: int| 0 <= j < i ==> out@.contains(#[trigger] self.entries@[j]),
                forall|a: int, b: int| 0 <= a <= b < out@.len()
                    ==> distance(target, (#[trigger] out@[a]).record.node_id)
                        <= distance(target, (#[trigger] out@[b]).record.node_id),
            decreases self.entries@.len() - i,
        {
            let e = self.entries[i];
            proof {
                assert(self.entries@.contains(self.entries@[i as int]));
            }
            let d = xor_distance(target, e.record.node_id);
            // find the first slot whose entry lies farther than `e`
            let mut pos: usize = 0;
            while pos < out.len() && xor_distance(target, out[pos].record.node_id) <= d
                invariant
                    pos <= out@.len(),
                    forall|k: int| 0 <= k < pos
                        ==> distance(target, (#[trigger] out@[k]).record.node_id) <= d,
                decreases out@.len() - pos,
            {
                pos += 1;
            }
            let ghost pre = out@;
            let ghost p = pos as int;
            out.insert(pos, e);
            proof {
                assert(out@ == pre.insert(p, e));
                assert forall|j: int| 0 <= j < out@.len()
                    implies #[trigger] out@[j]
                        == (if j < p { pre[j] } else if j == p { e } else { pre[j - 1] }) by {
                }
                // membership both ways
                assert forall|j: int| 0 <= j < out@.len()
                    implies self.entries@.contains(#[trigger] out@[j]) by {
                    if j != p {
                        let oj: int = if j < p { j } else { j - 1 };
                        assert(self.entries@.contains(pre[oj]));
                    }
                }
                assert forall|j: int| 0 <= j < i + 1
                    implies out@.contains(#[trigger] self.entries@[j]) by {
                    if j < i {
                        let m = choose|m: int| 0 <= m < pre.len() && pre[m] == self.entries@[j];
                        let nm: int = if m < p { m } else { m + 1 };
                        assert(out@[nm] == self.entries@[j]);
                    } else {
                        assert(out@[p] == self.entries@[j]);
                    }
                }
                // sortedness
                assert forall|a: int, b: int| 0 <= a <= b < out@.len()
                    implies distance(target, (#[trigger] out@[a]).record.node_id)
                        <= distance(target, (#[trigger] out@[b]).record.node_id) by {
                    let oa: int = if a < p { a } else { a - 1 };
                    let ob: int = if b < p { b } else { b - 1 };
                    if a == p && b == p {
                    } else if a == p {
                        // the find loop stopped at `p`, so `pre[p]` lies
                        // farther than `e`, and `pre` was already sorted
                        assert(p < pre.len());
                        assert(distance(target, pre[p as int].record.node_id) > d);
                        assert(distance(target, pre[p as int].record.node_id)
                            <= distance(target, pre[ob].record.node_id));
                    } else if b == p {
                        assert(distance(target, pre[oa].record.node_id) <= d);
                    } else {
                        assert(distance(target, pre[oa].record.node_id)
                            <= distance(target, pre[ob].record.node_id));
                    }
                }
            }
            i += 1;
        }
        out
    }

    /// Whether some slot of `s` carries exactly the record `rec`.
    pub open spec fn spec_has_record(s: Seq<BucketEntry>, rec: PeerRecord) -> bool {
        exists|m: int| 0 <= m < s.len() && (#[trigger] s[m]).record == rec
    }

    /// Whether some slot of `s` carries `rec` and has gone unheard for
    /// `interval` by `now`.
    pub open spec fn spec_stale_in(s: Seq<BucketEntry>, rec: PeerRecord, now: u64, interval: u64) -> bool {
        exists|m: int|
            0 <= m < s.len() && rec == (#[trigger] s[m]).record
                && s[m].last_seen + interval <= now
    }

    /// The records of every entry not heard from within `interval` of
    /// `now`: the liveness schedule pings exactly these.
    pub fn stale_entries(&self, now: u64, interval: u64) -> (out: Vec<PeerRecord>)
        ensures
            forall|j: int| 0 <= j < out@.len()
                ==> Self::spec_stale_in(self@, #[trigger] out@[j], now, interval),
            forall|m: int| 0 <= m < self@.len()
                && (#[trigger] self@[m]).last_seen + interval <= now
                ==> out@.contains(self@[m].record),
    {
        let mut out: Vec<PeerRecord> = Vec::new();
        let mut i: usize = 0;
        while i < self.entries.len()
            invariant
                i <= self.entries@.len(),
                forall|j: int| 0 <= j < out@.len()
                    ==> Self::spec_stale_in(self.entries@, #[trigger] out@[j], now, interval),
                forall|m: int| 0 <= m < i
                    && (#[trigger] self.entries@[m]).last_seen + interval <= now
                    ==> out@.contains(self.entries@[m].record),
            decreases self.entries@.len() - i,
        {
            let e = self.entries[i];
            let ghost pre = out@;
            if now >= e.last_seen && now - e.last_seen >= interval {
                out.push(e.record);
                proof {
                    assert(out@[pre.len() as int] == self.entries@[i as int].record);
                    assert(Self::spec_stale_in(self.entries@, e.record, now, interval));
                    assert forall|m: int| 0 <= m < i + 1
                        && (#[trigger] self.entries@[m]).last_seen + interval <= now
                        implies out@.contains(self.entries@[m].record) by {
                        if m < i {
                            let j = choose|j: int|
                                0 <= j < pre.len() && pre[j] == self.entries@[m].record;
                            assert(out@[j] == self.entries@[m].record);
                        } else {
                            assert(out@[pre.len() as int] == self.entries@[m].record);
                        }
                    }
                }
            }
            i += 1;
        }
        out
    }
}

} // verus!
