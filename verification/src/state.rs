//! Per-source reorder state: a sparse, sorted window of buffered samples,
//! the last delivered sequence number, and the count of in-flight recovery
//! queries touching the source.

use vstd::prelude::*;

use crate::sample::{Sample, SampleModel};

verus! {

/// Entries are strictly ascending in their sequence-number key.
pub open spec fn pending_sorted(q: Seq<(u64, SampleModel)>) -> bool {
    forall|i: int, j: int| 0 <= i < j < q.len() ==> q[i].0 < q[j].0
}

/// Insertion into a sorted window: a sample under an already-buffered key
/// replaces the buffered one.
pub open spec fn pending_insert(
    q: Seq<(u64, SampleModel)>,
    sn: u64,
    s: SampleModel,
) -> Seq<(u64, SampleModel)>
    decreases q.len(),
{
    if q.len() == 0 {
        seq![(sn, s)]
    } else if sn < q[0].0 {
        seq![(sn, s)] + q
    } else if sn == q[0].0 {
        seq![(sn, s)] + q.subrange(1, q.len() as int)
    } else {
        seq![q[0]] + pending_insert(q.subrange(1, q.len() as int), sn, s)
    }
}

/// Every key of the insertion result is the new key or one of the old ones,
/// so a lower bound on them all is kept.
pub proof fn lemma_pending_insert_bound(q: Seq<(u64, SampleModel)>, sn: u64, s: SampleModel, b: int)
    requires
        forall|i: int| 0 <= i < q.len() ==> q[i].0 > b,
        sn > b,
    ensures
        forall|i: int|
            0 <= i < pending_insert(q, sn, s).len() ==> pending_insert(q, sn, s)[i].0 > b,
    decreases q.len(),
{
    let r = pending_insert(q, sn, s);
    if q.len() == 0 {
    } else if sn < q[0].0 {
        assert forall|i: int| 0 <= i < r.len() implies r[i].0 > b by {
            if i > 0 {
                assert(r[i] == q[i - 1]);
            }
        }
    } else if sn == q[0].0 {
        assert forall|i: int| 0 <= i < r.len() implies r[i].0 > b by {
            if i > 0 {
                assert(r[i] == q[i]);
            }
        }
    } else {
        let tail = q.subrange(1, q.len() as int);
        lemma_pending_insert_bound(tail, sn, s, b);
        assert forall|i: int| 0 <= i < r.len() implies r[i].0 > b by {
            if i > 0 {
                assert(r[i] == pending_insert(tail, sn, s)[i - 1]);
            }
        }
    }
}

/// Insertion keeps the window sorted.
pub proof fn lemma_pending_insert_sorted(q: Seq<(u64, SampleModel)>, sn: u64, s: SampleModel)
    requires
        pending_sorted(q),
    ensures
        pending_sorted(pending_insert(q, sn, s)),
    decreases q.len(),
{
    if q.len() == 0 {
    } else if sn < q[0].0 {
    } else if sn == q[0].0 {
    } else {
        let tail = q.subrange(1, q.len() as int);
        lemma_pending_insert_sorted(tail, sn, s);
        lemma_pending_insert_bound(tail, sn, s, q[0].0 as int);
    }
}

/// Where the scan of a sorted window stops, the insertion lands: before the
/// first key not below `sn`, replacing it if it equals `sn`.
pub proof fn lemma_pending_insert_at(q: Seq<(u64, SampleModel)>, sn: u64, s: SampleModel, i: int)
    requires
        pending_sorted(q),
        0 <= i <= q.len(),
        forall|j: int| 0 <= j < i ==> q[j].0 < sn,
        i < q.len() ==> q[i].0 >= sn,
    ensures
        i < q.len() && q[i].0 == sn ==> pending_insert(q, sn, s) == q.subrange(0, i) + seq![
            (sn, s),
        ] + q.subrange(i + 1, q.len() as int),
        !(i < q.len() && q[i].0 == sn) ==> pending_insert(q, sn, s) == q.subrange(0, i) + seq![
            (sn, s),
        ] + q.subrange(i, q.len() as int),
    decreases i,
{
    if i == 0 {
        if q.len() == 0 {
            assert(pending_insert(q, sn, s) =~= q.subrange(0, 0) + seq![(sn, s)] + q.subrange(
                0,
                q.len() as int,
            ));
        } else if sn < q[0].0 {
            assert(pending_insert(q, sn, s) =~= q.subrange(0, 0) + seq![(sn, s)] + q.subrange(
                0,
                q.len() as int,
            ));
        } else {
            assert(sn == q[0].0);
            assert(pending_insert(q, sn, s) =~= q.subrange(0, 0) + seq![(sn, s)] + q.subrange(
                1,
                q.len() as int,
            ));
        }
    } else {
        let tail = q.subrange(1, q.len() as int);
        lemma_pending_insert_at(tail, sn, s, i - 1);
        assert(q[0].0 < sn);
        assert(pending_insert(q, sn, s) == seq![q[0]] + pending_insert(tail, sn, s));
        if i < q.len() && q[i].0 == sn {
            assert(tail[i - 1].0 == sn);
            assert(seq![q[0]] + (tail.subrange(0, i - 1) + seq![(sn, s)] + tail.subrange(
                i,
                tail.len() as int,
            )) =~= q.subrange(0, i) + seq![(sn, s)] + q.subrange(i + 1, q.len() as int));
        } else {
            assert(seq![q[0]] + (tail.subrange(0, i - 1) + seq![(sn, s)] + tail.subrange(
                i - 1,
                tail.len() as int,
            )) =~= q.subrange(0, i) + seq![(sn, s)] + q.subrange(i, q.len() as int));
        }
    }
}

/// A sparse reorder window of buffered samples, kept sorted by sequence
/// number. At most one sample is held per key.
pub struct PendingQueue {
    entries: Vec<(u64, Sample)>,
}

impl View for PendingQueue {
    type V = Seq<(u64, SampleModel)>;

    closed spec fn view(&self) -> Seq<(u64, SampleModel)> {
        self.entries@.map(|i: int, e: (u64, Sample)| (e.0, e.1@))
    }
}

impl PendingQueue {
    pub fn new() -> (r: PendingQueue)
        ensures
            r@ == Seq::<(u64, SampleModel)>::empty(),
    {
        let r = PendingQueue { entries: Vec::new() };
        proof {
            assert(r@ =~= Seq::<(u64, SampleModel)>::empty());
        }
        r
    }

    pub fn len(&self) -> (r: usize)
        ensures
            r == self@.len(),
    {
        self.entries.len()
    }

    pub fn is_empty(&self) -> (r: bool)
        ensures
            r == (self@.len() == 0),
    {
        self.entries.len() == 0
    }

    /// The lowest buffered key, if any.
    pub fn first_key(&self) -> (r: Option<u64>)
        ensures
            self@.len() == 0 ==> r is None,
            self@.len() > 0 ==> r == Some(self@[0].0),
    {
        if self.entries.len() == 0 {
            None
        } else {
            Some(self.entries[0].0)
        }
    }

    /// The highest buffered key, if any.
    pub fn last_key(&self) -> (r: Option<u64>)
        ensures
            self@.len() == 0 ==> r is None,
            self@.len() > 0 ==> r == Some(self@[self@.len() - 1].0),
    {
        if self.entries.len() == 0 {
            None
        } else {
            Some(self.entries[self.entries.len() - 1].0)
        }
    }

    /// Removes and returns the entry under the lowest key.
    pub fn pop_front(&mut self) -> (r: (u64, Sample))
        requires
            old(self)@.len() > 0,
        ensures
            r.0 == old(self)@[0].0,
            r.1@ == old(self)@[0].1,
            final(self)@ == old(self)@.subrange(1, old(self)@.len() as int),
    {
        let e = self.entries.remove(0);
        proof {
            assert(final(self)@ =~= old(self)@.subrange(1, old(self)@.len() as int));
        }
        e
    }

    /// Buffers a sample under its key, replacing any sample already held
    /// under the same key: exactly [`pending_insert`] on the window.
    pub fn insert(&mut self, sn: u64, sample: Sample)
        requires
            pending_sorted(old(self)@),
        ensures
            final(self)@ == pending_insert(old(self)@, sn, sample@),
            pending_sorted(final(self)@),
    {
        proof {
            lemma_pending_insert_sorted(old(self)@, sn, sample@);
        }
        let mut i: usize = 0;
        while i < self.entries.len() && self.entries[i].0 < sn
            invariant
                self == old(self),
                i <= self.entries.len(),
                forall|j: int| 0 <= j < i ==> self@[j].0 < sn,
            decreases self.entries.len() - i,
        {
            i = i + 1;
        }
        proof {
            lemma_pending_insert_at(old(self)@, sn, sample@, i as int);
        }
        if i < self.entries.len() && self.entries[i].0 == sn {
            self.entries.remove(i);
            self.entries.insert(i, (sn, sample));
            proof {
                assert(final(self)@ =~= old(self)@.subrange(0, i as int) + seq![(sn, sample@)]
                    + old(self)@.subrange(i as int + 1, old(self)@.len() as int));
            }
        } else {
            self.entries.insert(i, (sn, sample));
            proof {
                assert(final(self)@ =~= old(self)@.subrange(0, i as int) + seq![(sn, sample@)]
                    + old(self)@.subrange(i as int, old(self)@.len() as int));
            }
        }
    }

    /// Empties the window, handing the buffered samples out in ascending
    /// key order.
    pub fn take_all(&mut self) -> (r: Vec<Sample>)
        ensures
            final(self)@ == Seq::<(u64, SampleModel)>::empty(),
            r@.len() == old(self)@.len(),
            forall|i: int| 0 <= i < r@.len() ==> r@[i]@ == old(self)@[i].1,
    {
        let ghost orig = old(self)@;
        let mut out: Vec<Sample> = Vec::new();
        proof {
            assert(orig.subrange(0, orig.len() as int) =~= orig);
        }
        while self.entries.len() > 0
            invariant
                out@.len() <= orig.len(),
                self@ == orig.subrange(out@.len() as int, orig.len() as int),
                forall|i: int| 0 <= i < out@.len() ==> out@[i]@ == orig[i].1,
            decreases self.entries.len(),
        {
            let ghost k = out@.len() as int;
            let ghost pre = self@;
            let ghost pre_entries = self.entries@;
            proof {
                assert(pre.len() == self.entries@.len());
                assert(pre.len() > 0);
                assert(pre == orig.subrange(k, orig.len() as int));
                assert(k < orig.len());
                assert(pre[0] == orig[k]);
            }
            let e = self.entries.remove(0);
            proof {
                assert(e.1@ == pre[0].1);
                assert(self.entries@ =~= pre_entries.subrange(1, pre_entries.len() as int));
                assert forall|i: int| 0 <= i < self@.len() implies self@[i] == orig.subrange(
                    k + 1,
                    orig.len() as int,
                )[i] by {
                    assert(self.entries@[i] == pre_entries[i + 1]);
                    assert(self@[i] == pre[i + 1]);
                    assert(pre[i + 1] == orig[k + 1 + i]);
                }
                assert(self@ =~= orig.subrange(k + 1, orig.len() as int));
            }
            out.push(e.1);
        }
        proof {
            assert(final(self)@ =~= Seq::<(u64, SampleModel)>::empty());
        }
        out
    }
}

/// The mathematical state of one source.
pub ghost struct SourceModel {
    pub last: Option<u64>,
    pub pending_queries: u64,
    pub pending: Seq<(u64, SampleModel)>,
}

/// Keys of a window map to samples carrying that very sequence number.
pub open spec fn keys_match(q: Seq<(u64, SampleModel)>) -> bool {
    forall|i: int| 0 <= i < q.len() ==> q[i].1.source_sn == Some(q[i].0)
}

/// A source's invariant: the window is sorted, every buffered sample sits
/// under its own sequence number, and only samples beyond the last
/// delivered one are held, so nothing already delivered is ever re-buffered.
pub open spec fn src_inv(m: SourceModel) -> bool {
    &&& pending_sorted(m.pending)
    &&& keys_match(m.pending)
    &&& (m.last is Some ==> forall|i: int|
        0 <= i < m.pending.len() ==> m.pending[i].0 > m.last->0)
}

/// The state a source starts in: nothing delivered, nothing buffered, no
/// query in flight.
pub open spec fn empty_source() -> SourceModel {
    SourceModel { last: None, pending_queries: 0, pending: Seq::empty() }
}

/// Sliding reorder state of one source.
pub struct SourceState {
    pub last_delivered_sn: Option<u64>,
    pub pending_queries: u64,
    pub pending_samples: PendingQueue,
}

impl View for SourceState {
    type V = SourceModel;

    open spec fn view(&self) -> SourceModel {
        SourceModel {
            last: self.last_delivered_sn,
            pending_queries: self.pending_queries,
            pending: self.pending_samples@,
        }
    }
}

impl SourceState {
    pub fn new() -> (r: SourceState)
        ensures
            r@ == empty_source(),
            src_inv(r@),
    {
        SourceState {
            last_delivered_sn: None,
            pending_queries: 0,
            pending_samples: PendingQueue::new(),
        }
    }
}

} // verus!
