//! Admission control on raw inbound datagrams: a configured blacklist and
//! per-source rate counters over a bucketed time window, applied before any
//! decode cost is spent, plus a second pass on the decoded packet kind.

use vstd::prelude::*;
use crate::SourceAddress;
use crate::packet::Packet;

verus! {

/// Static filter configuration.
pub struct FilterConfig {
    /// Sources that are never admitted (unless we solicited them).
    pub blacklist: Vec<SourceAddress>,
    /// Most datagrams admitted per source within one window.
    pub rate_limit: usize,
    /// Length of the rate window.
    pub window: u64,
    /// Most unsolicited handshake-class packets admitted per source within
    /// one window.
    pub whoareyou_limit: usize,
}

/// One per-source counter: the start of its current window and how many
/// datagrams were admitted since.
#[derive(Clone, Copy, PartialEq, Eq, Structural, Debug)]
pub struct SourceCounter {
    pub window_start: u64,
    pub count: usize,
}

/// A keyed table of per-source counters.
struct CounterTable {
    entries: Vec<(SourceAddress, SourceCounter)>,
}

impl CounterTable {
    spec fn wf(&self) -> bool {
        forall|i: int, j: int|
            0 <= i < self.entries@.len() && 0 <= j < self.entries@.len() && i != j
                ==> (#[trigger] self.entries@[i]).0 != (#[trigger] self.entries@[j]).0
    }

    spec fn seq_get(s: Seq<(SourceAddress, SourceCounter)>, src: SourceAddress) -> Option<SourceCounter> {
        if exists|i: int| 0 <= i < s.len() && (#[trigger] s[i]).0 == src {
            let i = choose|i: int| 0 <= i < s.len() && (#[trigger] s[i]).0 == src;
            Some(s[i].1)
        } else {
            None
        }
    }

    spec fn spec_get(&self, src: SourceAddress) -> Option<SourceCounter> {
        Self::seq_get(self.entries@, src)
    }

    proof fn lemma_get_at(&self, i: int)
        requires
            self.wf(),
            0 <= i < self.entries@.len(),
        ensures
            self.spec_get(self.entries@[i].0) == Some(self.entries@[i].1),
    {
        let src = self.entries@[i].0;
        let j = choose|k: int|
            0 <= k < self.entries@.len() && (#[trigger] self.entries@[k]).0 == src;
        if j != i {
            assert(self.entries@[i].0 != self.entries@[j].0);
            assert(false);
        }
    }

    proof fn lemma_get_none(&self, src: SourceAddress)
        requires
            forall|i: int|
                0 <= i < self.entries@.len() ==> (#[trigger] self.entries@[i]).0 != src,
        ensures
            self.spec_get(src) is None,
    {
    }

    fn new() -> (t: CounterTable)
        ensures
            t.wf(),
            forall|src: SourceAddress| t.spec_get(src) is None,
    {
        CounterTable { entries: Vec::new() }
    }

    fn find_index(&self, src: SourceAddress) -> (r: Option<usize>)
        ensures
            match r {
                Some(i) => i < self.entries@.len() && self.entries@[i as int].0 == src,
                None => forall|i: int|
                    0 <= i < self.entries@.len() ==> (#[trigger] self.entries@[i]).0 != src,
            },
    {
        let mut i: usize = 0;
        while i < self.entries.len()
            invariant
                i <= self.entries@.len(),
                forall|k: int| 0 <= k < i ==> (#[trigger] self.entries@[k]).0 != src,
            decreases self.entries@.len() - i,
        {
            if self.entries[i].0 == src {
                return Some(i);
            }
            i += 1;
        }
        None
    }

    /// One admission decision for `src` at time `now` against `limit` and
    /// `window`: a fresh or elapsed window admits and restarts the count; a
    /// live window admits while fewer than `limit` datagrams were counted.
    fn bump(&mut self, src: SourceAddress, now: u64, window: u64, limit: usize) -> (admitted: bool)
        requires
            old(self).wf(),
        ensures
            final(self).wf(),
            admitted == Self::spec_admit(old(self).spec_get(src), now, window, limit),
            forall|s: SourceAddress| s != src
                ==> final(self).spec_get(s) == old(self).spec_get(s),
    {
        let ghost oldseq = self.entries@;
        let ghost n = self.entries@.len() as int;
        match self.find_index(src) {
            Some(i) => {
                proof { self.lemma_get_at(i as int); }
                let c = self.entries[i].1;
                let fresh = now >= c.window_start && now - c.window_start >= window;
                if fresh {
                    self.entries.set(i, (src, SourceCounter { window_start: now, count: 1 }));
                } else if c.count < limit {
                    self.entries.set(i, (src, SourceCounter {
                        window_start: c.window_start,
                        count: c.count + 1,
                    }));
                }
                proof {
                    self.lemma_update_others(oldseq, i as int, src);
                }
                fresh || c.count < limit
            },
            None => {
                proof { self.lemma_get_none(src); }
                self.entries.push((src, SourceCounter { window_start: now, count: 1 }));
                proof {
                    assert forall|a: int, b: int|
                        0 <= a < self.entries@.len() && 0 <= b < self.entries@.len() && a != b
                            implies (#[trigger] self.entries@[a]).0
                                != (#[trigger] self.entries@[b]).0 by {
                        if a < n && b < n {
                            assert(oldseq[a].0 != oldseq[b].0);
                        } else if a == n {
                            assert(oldseq[b].0 != src);
                        } else {
                            assert(oldseq[a].0 != src);
                        }
                    }
                    self.lemma_get_at(n);
                    assert forall|s: SourceAddress| s != src
                        implies self.spec_get(s) == Self::seq_get(oldseq, s) by {
                        self.lemma_push_others(oldseq, src, s);
                    }
                }
                true
            },
        }
    }

    /// The admission rule as a function of the counter found for the source.
    spec fn spec_admit(c: Option<SourceCounter>, now: u64, window: u64, limit: usize) -> bool {
        match c {
            None => true,
            Some(c) => (now >= c.window_start && now - c.window_start >= window)
                || c.count < limit,
        }
    }

    proof fn lemma_update_others(&self, oldseq: Seq<(SourceAddress, SourceCounter)>, i: int, src: SourceAddress)
        requires
            0 <= i < oldseq.len(),
            self.entries@.len() == oldseq.len(),
            oldseq[i].0 == src,
            self.entries@[i].0 == src,
            forall|j: int| 0 <= j < oldseq.len() && j != i
                ==> #[trigger] self.entries@[j] == oldseq[j],
            forall|a: int, b: int|
                0 <= a < oldseq.len() && 0 <= b < oldseq.len() && a != b
                    ==> (#[trigger] oldseq[a]).0 != (#[trigger] oldseq[b]).0,
        ensures
            self.wf(),
            forall|s: SourceAddress| s != src
                ==> self.spec_get(s) == Self::seq_get(oldseq, s),
    {
        assert forall|a: int, b: int|
            0 <= a < self.entries@.len() && 0 <= b < self.entries@.len() && a != b
                implies (#[trigger] self.entries@[a]).0 != (#[trigger] self.entries@[b]).0 by {
            assert(oldseq[a].0 != oldseq[b].0);
            assert(self.entries@[a].0 == oldseq[a].0);
            assert(self.entries@[b].0 == oldseq[b].0);
        }
        assert forall|s: SourceAddress| s != src
            implies self.spec_get(s) == Self::seq_get(oldseq, s) by {
            if exists|j: int| 0 <= j < oldseq.len() && (#[trigger] oldseq[j]).0 == s {
                let jo = choose|j: int| 0 <= j < oldseq.len() && (#[trigger] oldseq[j]).0 == s;
                assert(jo != i);
                assert(self.entries@[jo].0 == s);
                let jn = choose|j: int|
                    0 <= j < self.entries@.len() && (#[trigger] self.entries@[j]).0 == s;
                assert(jn != i);
                assert(oldseq[jn].0 == s);
                if jn != jo {
                    assert(oldseq[jn].0 != oldseq[jo].0);
                    assert(false);
                }
                assert(self.entries@[jn].1 == oldseq[jo].1);
            } else {
                assert forall|j: int| 0 <= j < self.entries@.len()
                    implies (#[trigger] self.entries@[j]).0 != s by {
                    if j != i {
                        assert(oldseq[j].0 != s);
                    }
                }
            }
        }
    }

    proof fn lemma_push_others(&self, oldseq: Seq<(SourceAddress, SourceCounter)>, src: SourceAddress, s: SourceAddress)
        requires
            s != src,
            forall|a: int, b: int|
                0 <= a < oldseq.len() && 0 <= b < oldseq.len() && a != b
                    ==> (#[trigger] oldseq[a]).0 != (#[trigger] oldseq[b]).0,
            self.entries@.len() == oldseq.len() + 1,
            self.entries@[oldseq.len() as int].0 == src,
            forall|j: int| 0 <= j < oldseq.len()
                ==> #[trigger] self.entries@[j] == oldseq[j],
        ensures
            self.spec_get(s) == Self::seq_get(oldseq, s),
    {
        let n = oldseq.len() as int;
        if exists|j: int| 0 <= j < oldseq.len() && (#[trigger] oldseq[j]).0 == s {
            let jo = choose|j: int| 0 <= j < oldseq.len() && (#[trigger] oldseq[j]).0 == s;
            assert(self.entries@[jo].0 == s);
            let jn = choose|j: int|
                0 <= j < self.entries@.len() && (#[trigger] self.entries@[j]).0 == s;
            assert(jn != n);
            assert(oldseq[jn].0 == s);
            if jn != jo {
                assert(oldseq[jn].0 != oldseq[jo].0);
                assert(false);
            }
        } else {
            assert forall|j: int| 0 <= j < self.entries@.len()
                implies (#[trigger] self.entries@[j]).0 != s by {
                if j < n {
                    assert(oldseq[j].0 != s);
                }
            }
        }
    }
}

/// The packet filter: blacklist plus rate counters, consulted before the
/// decode cost is spent, and again on the decoded packet kind.
pub struct Filter {
    blacklist: Vec<SourceAddress>,
    rate_limit: usize,
    window: u64,
    whoareyou_limit: usize,
    general: CounterTable,
    whoareyou: CounterTable,
}

impl Filter {
    pub closed spec fn wf(&self) -> bool {
        self.general.wf() && self.whoareyou.wf()
    }

    /// The blacklist as configured.
    pub closed spec fn spec_blacklist(&self) -> Seq<SourceAddress> {
        self.blacklist@
    }

    /// Whether the configuration blacklists `src`.
    pub open spec fn spec_blacklisted(&self, src: SourceAddress) -> bool {
        self.spec_blacklist().contains(src)
    }

    /// Whether the next datagram from `src` at `now` passes the rate rule,
    /// given the counter state before the call.
    pub closed spec fn spec_rate_admits(&self, src: SourceAddress, now: u64) -> bool {
        CounterTable::spec_admit(self.general.spec_get(src), now, self.window, self.rate_limit)
    }

    /// Whether an unsolicited handshake-class packet from `src` at `now`
    /// passes the handshake rate rule.
    pub closed spec fn spec_whoareyou_admits(&self, src: SourceAddress, now: u64) -> bool {
        CounterTable::spec_admit(
            self.whoareyou.spec_get(src),
            now,
            self.window,
            self.whoareyou_limit,
        )
    }

    /// Builds a filter from its configuration, with all counters empty.
    pub fn new(config: &FilterConfig) -> (f: Filter)
        ensures
            f.wf(),
            f.spec_blacklist() == config.blacklist@,
            forall|src: SourceAddress, now: u64| #[trigger] f.spec_rate_admits(src, now),
            forall|src: SourceAddress, now: u64| #[trigger] f.spec_whoareyou_admits(src, now),
    {
        let mut blacklist: Vec<SourceAddress> = Vec::new();
        let mut i: usize = 0;
        while i < config.blacklist.len()
            invariant
                i <= config.blacklist@.len(),
                blacklist@ == config.blacklist@.subrange(0, i as int),
            decreases config.blacklist@.len() - i,
        {
            blacklist.push(config.blacklist[i]);
            proof {
                assert(blacklist@ =~= config.blacklist@.subrange(0, i + 1));
            }
            i += 1;
        }
        proof {
            assert(blacklist@ =~= config.blacklist@);
        }
        Filter {
            blacklist,
            rate_limit: config.rate_limit,
            window: config.window,
            whoareyou_limit: config.whoareyou_limit,
            general: CounterTable::new(),
            whoareyou: CounterTable::new(),
        }
    }

    /// The first filter pass, before decoding: rejects blacklisted sources
    /// outright, then applies the per-source rate rule and counts the
    /// datagram. Exceeding the configured rate within a live window denies.
    pub fn initial_pass(&mut self, src: SourceAddress, now: u64) -> (admitted: bool)
        requires
            old(self).wf(),
        ensures
            final(self).wf(),
            admitted == (!old(self).spec_blacklisted(src)
                && old(self).spec_rate_admits(src, now)),
            final(self).spec_blacklist() == old(self).spec_blacklist(),
            forall|s: SourceAddress, t: u64| #[trigger] final(self).spec_whoareyou_admits(s, t)
                == old(self).spec_whoareyou_admits(s, t),
            forall|s: SourceAddress, t: u64| s != src
                ==> #[trigger] final(self).spec_rate_admits(s, t)
                    == old(self).spec_rate_admits(s, t),
    {
        if self.is_blacklisted(src) {
            return false;
        }
        let window = self.window;
        let limit = self.rate_limit;
        self.general.bump(src, now, window, limit)
    }

    /// The second filter pass, on the decoded packet: unsolicited
    /// handshake-class packets are further rate-limited per source; other
    /// packet kinds pass.
    pub fn final_pass(&mut self, src: SourceAddress, packet: &Packet, now: u64) -> (admitted: bool)
        requires
            old(self).wf(),
        ensures
            final(self).wf(),
            admitted == (packet is WhoAreYou ==> old(self).spec_whoareyou_admits(src, now)),
            final(self).spec_blacklist() == old(self).spec_blacklist(),
            forall|s: SourceAddress, t: u64| #[trigger] final(self).spec_rate_admits(s, t)
                == old(self).spec_rate_admits(s, t),
    {
        match packet {
            Packet::WhoAreYou { .. } => {
                let window = self.window;
                let limit = self.whoareyou_limit;
                self.whoareyou.bump(src, now, window, limit)
            },
            _ => true,
        }
    }

    fn is_blacklisted(&self, src: SourceAddress) -> (r: bool)
        ensures
            r == self.spec_blacklisted(src),
    {
        let mut i: usize = 0;
        while i < self.blacklist.len()
            invariant
                i <= self.blacklist@.len(),
                forall|k: int| 0 <= k < i ==> self.blacklist@[k] != src,
            decreases self.blacklist@.len() - i,
        {
            if self.blacklist[i] == src {
                proof {
                    assert(self.blacklist@[i as int] == src);
                }
                return true;
            }
            i += 1;
        }
        proof {
            assert(!self.blacklist@.contains(src));
        }
        false
    }
}

} // verus!
