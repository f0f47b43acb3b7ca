//! The expected-response table: how many replies we are currently awaiting
//! from each transport address. A source with a nonzero count solicited
//! traffic from us and bypasses the admission filter.

use vstd::prelude::*;
use crate::SourceAddress;

verus! {

/// Counts outstanding expected responses per source address. Populated when
/// a request is sent, decremented when the exchange completes or expires.
pub struct ExpectedResponseTable {
    entries: Vec<(SourceAddress, usize)>,
}

impl ExpectedResponseTable {
    /// Each address appears at most once, always with a positive count.
    pub closed spec fn wf(&self) -> bool {
        &&& forall|i: int, j: int|
            0 <= i < self.entries@.len() && 0 <= j < self.entries@.len() && i != j
                ==> (#[trigger] self.entries@[i]).0 != (#[trigger] self.entries@[j]).0
        &&& forall|i: int|
            0 <= i < self.entries@.len() ==> (#[trigger] self.entries@[i]).1 >= 1
    }

    /// What the awaited count is over an arbitrary entry sequence.
    spec fn seq_count(s: Seq<(SourceAddress, usize)>, src: SourceAddress) -> nat {
        if exists|i: int| 0 <= i < s.len() && (#[trigger] s[i]).0 == src {
            let i = choose|i: int| 0 <= i < s.len() && (#[trigger] s[i]).0 == src;
            s[i].1 as nat
        } else {
            0
        }
    }

    /// The number of responses currently awaited from `src` (zero when the
    /// source is not in the table).
    pub closed spec fn count_of(&self, src: SourceAddress) -> nat {
        Self::seq_count(self.entries@, src)
    }

    proof fn lemma_count_at(&self, i: int)
        requires
            self.wf(),
            0 <= i < self.entries@.len(),
        ensures
            self.count_of(self.entries@[i].0) == self.entries@[i].1 as nat,
    {
        let src = self.entries@[i].0;
        let j = choose|k: int|
            0 <= k < self.entries@.len() && (#[trigger] self.entries@[k]).0 == src;
        if j != i {
            assert(self.entries@[i].0 != self.entries@[j].0);
            assert(false);
        }
    }

    proof fn lemma_count_none(&self, src: SourceAddress)
        requires
            forall|i: int|
                0 <= i < self.entries@.len() ==> (#[trigger] self.entries@[i]).0 != src,
        ensures
            self.count_of(src) == 0,
    {
    }

    /// Creates an empty table: no response is awaited from anyone.
    pub fn new() -> (t: ExpectedResponseTable)
        ensures
            t.wf(),
            forall|src: SourceAddress| t.count_of(src) == 0,
    {
        ExpectedResponseTable { entries: Vec::new() }
    }

    fn find_index(&self, src: SourceAddress) -> (r: Option<usize>)
        ensures
            match r {
                Some(i) => i < self.entries@.len() && self.entries@[i as int].0 == src,
                None => forall|i: int|
                    0 <= i < self.entries@.len() ==> (#[trigger] self.entries@[i]).0 != src,
            },
    {
        let mut i: usize = 0;
        while i < self.entries.len()
            invariant
                i <= self.entries@.len(),
                forall|k: int| 0 <= k < i ==> (#[trigger] self.entries@[k]).0 != src,
            decreases self.entries@.len() - i,
        {
            if self.entries[i].0 == src {
                return Some(i);
            }
            i += 1;
        }
        None
    }

    /// Whether at least one response is awaited from `src`.
    pub fn is_expected(&self, src: SourceAddress) -> (r: bool)
        requires
            self.wf(),
        ensures
            r == (self.count_of(src) >= 1),
    {
        match self.find_index(src) {
            Some(i) => {
                proof { self.lemma_count_at(i as int); }
                true
            },
            None => {
                proof { self.lemma_count_none(src); }
                false
            },
        }
    }

    /// Notes that one more response is awaited from `src`. The count
    /// saturates at the machine limit instead of overflowing.
    pub fn increment(&mut self, src: SourceAddress)
        requires
            old(self).wf(),
        ensures
            final(self).wf(),
            final(self).count_of(src) == if old(self).count_of(src) < usize::MAX {
                old(self).count_of(src) + 1
            } else {
                old(self).count_of(src)
            },
            forall|s: SourceAddress| s != src
                ==> final(self).count_of(s) == old(self).count_of(s),
    {
        let ghost oldseq = self.entries@;
        let ghost n = self.entries@.len() as int;
        match self.find_index(src) {
            Some(i) => {
                proof { self.lemma_count_at(i as int); }
                let c = self.entries[i].1;
                if c < usize::MAX {
                    self.entries.set(i, (src, c + 1));
                }
                proof {
                    self.lemma_update_others(oldseq, i as int, src);
                }
            },
            None => {
                proof { self.lemma_count_none(src); }
                self.entries.push((src, 1));
                proof {
                    assert forall|a: int, b: int|
                        0 <= a < self.entries@.len() && 0 <= b < self.entries@.len() && a != b
                            implies (#[trigger] self.entries@[a]).0
                                != (#[trigger] self.entries@[b]).0 by {
                        if a < n && b < n {
                            assert(oldseq[a].0 != oldseq[b].0);
                        } else if a == n {
                            assert(oldseq[b].0 != src);
                        } else {
                            assert(oldseq[a].0 != src);
                        }
                    }
                    self.lemma_count_at(n);
                    self.lemma_push_others(oldseq, src);
                }
            },
        }
    }

    /// Notes that one awaited response from `src` arrived or expired: the
    /// count drops by one, and the source leaves the table at zero.
    pub fn decrement(&mut self, src: SourceAddress)
        requires
            old(self).wf(),
        ensures
            final(self).wf(),
            final(self).count_of(src) == if old(self).count_of(src) > 0 {
                (old(self).count_of(src) - 1) as nat
            } else {
                0
            },
            forall|s: SourceAddress| s != src
                ==> final(self).count_of(s) == old(self).count_of(s),
    {
        let ghost oldseq = self.entries@;
        let ghost n = self.entries@.len() as int;
        match self.find_index(src) {
            Some(i) => {
                proof { self.lemma_count_at(i as int); }
                let c = self.entries[i].1;
                if c > 1 {
                    self.entries.set(i, (src, c - 1));
                    proof {
                        self.lemma_update_others(oldseq, i as int, src);
                    }
                } else {
                    let _ = self.entries.remove(i);
                    proof {
                        self.lemma_remove_others(oldseq, i as int, src);
                    }
                }
            },
            None => {
                proof { self.lemma_count_none(src); }
            },
        }
    }

    proof fn lemma_update_others(&self, oldseq: Seq<(SourceAddress, usize)>, i: int, src: SourceAddress)
        requires
            0 <= i < oldseq.len(),
            self.entries@.len() == oldseq.len(),
            oldseq[i].0 == src,
            self.entries@[i].0 == src,
            self.entries@[i].1 >= 1,
            forall|j: int| 0 <= j < oldseq.len() && j != i
                ==> #[trigger] self.entries@[j] == oldseq[j],
            forall|a: int, b: int|
                0 <= a < oldseq.len() && 0 <= b < oldseq.len() && a != b
                    ==> (#[trigger] oldseq[a]).0 != (#[trigger] oldseq[b]).0,
            forall|a: int| 0 <= a < oldseq.len() ==> (#[trigger] oldseq[a]).1 >= 1,
        ensures
            self.wf(),
            self.count_of(src) == self.entries@[i].1 as nat,
            forall|s: SourceAddress| s != src
                ==> self.count_of(s) == Self::seq_count(oldseq, s),
    {
        assert forall|a: int, b: int|
            0 <= a < self.entries@.len() && 0 <= b < self.entries@.len() && a != b
                implies (#[trigger] self.entries@[a]).0 != (#[trigger] self.entries@[b]).0 by {
            assert(oldseq[a].0 != oldseq[b].0);
            assert(self.entries@[a].0 == oldseq[a].0);
            assert(self.entries@[b].0 == oldseq[b].0);
        }
        assert forall|a: int| 0 <= a < self.entries@.len()
            implies (#[trigger] self.entries@[a]).1 >= 1 by {
            if a != i {
                assert(oldseq[a].1 >= 1);
            }
        }
        self.lemma_count_at(i);
        assert forall|s: SourceAddress| s != src
            implies self.count_of(s) == Self::seq_count(oldseq, s) by {
            self.lemma_seq_count_agree(oldseq, s, i);
        }
    }

    proof fn lemma_seq_count_agree(&self, oldseq: Seq<(SourceAddress, usize)>, s: SourceAddress, i: int)
        requires
            0 <= i < oldseq.len(),
            self.entries@.len() == oldseq.len(),
            oldseq[i].0 != s,
            self.entries@[i].0 != s,
            forall|j: int| 0 <= j < oldseq.len() && j != i
                ==> #[trigger] self.entries@[j] == oldseq[j],
            forall|a: int, b: int|
                0 <= a < oldseq.len() && 0 <= b < oldseq.len() && a != b
                    ==> (#[trigger] oldseq[a]).0 != (#[trigger] oldseq[b]).0,
        ensures
            self.count_of(s) == Self::seq_count(oldseq, s),
    {
        if exists|j: int| 0 <= j < oldseq.len() && (#[trigger] oldseq[j]).0 == s {
            let jo = choose|j: int| 0 <= j < oldseq.len() && (#[trigger] oldseq[j]).0 == s;
            assert(jo != i);
            assert(self.entries@[jo].0 == s);
            let jn = choose|j: int|
                0 <= j < self.entries@.len() && (#[trigger] self.entries@[j]).0 == s;
            assert(jn != i);
            assert(oldseq[jn].0 == s);
            if jn != jo {
                assert(oldseq[jn].0 != oldseq[jo].0);
                assert(false);
            }
            assert(self.entries@[jn].1 == oldseq[jo].1);
        } else {
            assert forall|j: int| 0 <= j < self.entries@.len()
                implies (#[trigger] self.entries@[j]).0 != s by {
                if j != i {
                    assert(oldseq[j].0 != s);
                }
            }
        }
    }

    proof fn lemma_push_others(&self, oldseq: Seq<(SourceAddress, usize)>, src: SourceAddress)
        requires
            self.entries@.len() == oldseq.len() + 1,
            self.entries@[oldseq.len() as int].0 == src,
            forall|j: int| 0 <= j < oldseq.len()
                ==> #[trigger] self.entries@[j] == oldseq[j],
            forall|a: int, b: int|
                0 <= a < oldseq.len() && 0 <= b < oldseq.len() && a != b
                    ==> (#[trigger] oldseq[a]).0 != (#[trigger] oldseq[b]).0,
        ensures
            forall|s: SourceAddress| s != src
                ==> self.count_of(s) == Self::seq_count(oldseq, s),
    {
        let n = oldseq.len() as int;
        assert forall|s: SourceAddress| s != src
            implies self.count_of(s) == Self::seq_count(oldseq, s) by {
            if exists|j: int| 0 <= j < oldseq.len() && (#[trigger] oldseq[j]).0 == s {
                let jo = choose|j: int| 0 <= j < oldseq.len() && (#[trigger] oldseq[j]).0 == s;
                assert(self.entries@[jo].0 == s);
                let jn = choose|j: int|
                    0 <= j < self.entries@.len() && (#[trigger] self.entries@[j]).0 == s;
                assert(jn != n);
                assert(oldseq[jn].0 == s);
                if jn != jo {
                    assert(oldseq[jn].0 != oldseq[jo].0);
                    assert(false);
                }
            } else {
                assert forall|j: int| 0 <= j < self.entries@.len()
                    implies (#[trigger] self.entries@[j]).0 != s by {
                    if j < n {
                        assert(oldseq[j].0 != s);
                    }
                }
            }
        }
    }

    proof fn lemma_remove_others(&self, oldseq: Seq<(SourceAddress, usize)>, i: int, src: SourceAddress)
        requires
            0 <= i < oldseq.len(),
            self.entries@ == oldseq.remove(i),
            oldseq[i].0 == src,
            forall|a: int, b: int|
                0 <= a < oldseq.len() && 0 <= b < oldseq.len() && a != b
                    ==> (#[trigger] oldseq[a]).0 != (#[trigger] oldseq[b]).0,
            forall|a: int| 0 <= a < oldseq.len() ==> (#[trigger] oldseq[a]).1 >= 1,
        ensures
            self.wf(),
            self.count_of(src) == 0,
            forall|s: SourceAddress| s != src
                ==> self.count_of(s) == Self::seq_count(oldseq, s),
    {
        let n = oldseq.len() as int;
        let newseq = self.entries@;
        assert forall|j: int| 0 <= j < n - 1
            implies #[trigger] newseq[j] == (if j < i { oldseq[j] } else { oldseq[j + 1] }) by {
        }
        assert forall|a: int, b: int|
            0 <= a < newseq.len() && 0 <= b < newseq.len() && a != b
                implies (#[trigger] newseq[a]).0 != (#[trigger] newseq[b]).0 by {
            let oa: int = if a < i { a } else { a + 1 };
            let ob: int = if b < i { b } else { b + 1 };
            assert(oldseq[oa].0 != oldseq[ob].0);
        }
        assert forall|a: int| 0 <= a < newseq.len()
            implies (#[trigger] newseq[a]).1 >= 1 by {
            let oa: int = if a < i { a } else { a + 1 };
            assert(oldseq[oa].1 >= 1);
        }
        assert forall|j: int| 0 <= j < newseq.len()
            implies (#[trigger] newseq[j]).0 != src by {
            let oj: int = if j < i { j } else { j + 1 };
            assert(oldseq[oj].0 != oldseq[i].0);
        }
        self.lemma_count_none(src);
        assert forall|s: SourceAddress| s != src
            implies self.count_of(s) == Self::seq_count(oldseq, s) by {
            if exists|m: int| 0 <= m < oldseq.len() && (#[trigger] oldseq[m]).0 == s {
                let m = choose|m: int| 0 <= m < oldseq.len() && (#[trigger] oldseq[m]).0 == s;
                let nm: int = if m < i { m } else { m - 1 };
                assert(m != i);
                assert(newseq[nm] == oldseq[m]);
                assert(self.entries@[nm].0 == s);
                let jn = choose|j: int|
                    0 <= j < self.entries@.len() && (#[trigger] self.entries@[j]).0 == s;
                let oj: int = if jn < i { jn } else { jn + 1 };
                assert(newseq[jn] == oldseq[oj]);
                assert(oldseq[oj].0 == s);
                if oj != m {
                    assert(oldseq[oj].0 != oldseq[m].0);
                    assert(false);
                }
                assert(self.entries@[jn].1 == oldseq[m].1);
            } else {
                assert forall|j: int| 0 <= j < newseq.len()
                    implies (#[trigger] newseq[j]).0 != s by {
                    let oj: int = if j < i { j } else { j + 1 };
                    assert(oldseq[oj].0 != s);
                }
            }
        }
    }
}

} // verus!
