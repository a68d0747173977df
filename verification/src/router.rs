//! The sample router: central dispatch that decides, for each arriving
//! sample, whether to deliver it, buffer it, or drop it as a duplicate.
//!
//! Samples of one source are merged by sequence number, not arrival order:
//! an in-order sample is delivered at once together with every buffered
//! successor; a sample beyond the next expected number is buffered; one at
//! or below the last delivered number is dropped. While history bootstrap
//! is in progress (`wait`), samples with source info are only buffered.

use vstd::prelude::*;

use crate::sample::{samples_view, Sample, SampleModel};
use crate::state::{
    empty_source, keys_match, pending_insert, pending_sorted, src_inv, PendingQueue, SourceModel,
    SourceState,
};

verus! {

/// The source table as a map from source id to source model.
pub open spec fn mk_map(s: Seq<(u64, SourceState)>) -> Map<u64, SourceModel>
    decreases s.len(),
{
    if s.len() == 0 {
        Map::empty()
    } else {
        mk_map(s.drop_last()).insert(s.last().0, s.last().1@)
    }
}

pub open spec fn unique_keys(s: Seq<(u64, SourceState)>) -> bool {
    forall|i: int, j: int| 0 <= i < j < s.len() ==> s[i].0 != s[j].0
}

pub open spec fn has_key(s: Seq<(u64, SourceState)>, k: u64) -> bool {
    exists|i: int| 0 <= i < s.len() && s[i].0 == k
}

proof fn lemma_mk_map_dom(s: Seq<(u64, SourceState)>)
    ensures
        forall|k: u64| #[trigger] mk_map(s).contains_key(k) == has_key(s, k),
    decreases s.len(),
{
    if s.len() > 0 {
        let dl = s.drop_last();
        lemma_mk_map_dom(dl);
        assert forall|k: u64| #[trigger] mk_map(s).contains_key(k) == has_key(s, k) by {
            if mk_map(s).contains_key(k) {
                if k == s.last().0 {
                    assert(0 <= s.len() - 1 < s.len() && s[s.len() - 1].0 == k);
                    assert(has_key(s, k));
                } else {
                    assert(mk_map(dl).contains_key(k));
                    assert(has_key(dl, k));
                    let i = choose|i: int| 0 <= i < dl.len() && dl[i].0 == k;
                    assert(dl[i] == s[i]);
                    assert(0 <= i < s.len() && s[i].0 == k);
                    assert(has_key(s, k));
                }
            }
            if has_key(s, k) {
                let i = choose|i: int| 0 <= i < s.len() && s[i].0 == k;
                if i == s.len() - 1 {
                    assert(mk_map(s).contains_key(k));
                } else {
                    assert(dl[i] == s[i]);
                    assert(0 <= i < dl.len() && dl[i].0 == k);
                    assert(has_key(dl, k));
                    assert(mk_map(dl).contains_key(k));
                    assert(mk_map(s).contains_key(k));
                }
            }
        }
    }
}

proof fn lemma_mk_map_index(s: Seq<(u64, SourceState)>, i: int)
    requires
        unique_keys(s),
        0 <= i < s.len(),
    ensures
        mk_map(s).contains_key(s[i].0),
        mk_map(s)[s[i].0] == s[i].1@,
    decreases s.len(),
{
    if i == s.len() - 1 {
        lemma_mk_map_dom(s);
    } else {
        let dl = s.drop_last();
        lemma_mk_map_index(dl, i);
        assert(s.last().0 != s[i].0);
    }
}

proof fn lemma_mk_map_update(s: Seq<(u64, SourceState)>, i: int, st: SourceState)
    requires
        unique_keys(s),
        0 <= i < s.len(),
    ensures
        mk_map(s.update(i, (s[i].0, st))) == mk_map(s).insert(s[i].0, st@),
    decreases s.len(),
{
    let upd = s.update(i, (s[i].0, st));
    if i == s.len() - 1 {
        assert(upd.drop_last() =~= s.drop_last());
        assert(mk_map(upd) == mk_map(s.drop_last()).insert(s[i].0, st@));
        assert(mk_map(s.drop_last()).insert(s[i].0, st@) =~= mk_map(s).insert(s[i].0, st@));
    } else {
        let dl = s.drop_last();
        assert(upd.drop_last() =~= dl.update(i, (dl[i].0, st)));
        lemma_mk_map_update(dl, i, st);
        assert(mk_map(upd) == mk_map(upd.drop_last()).insert(s.last().0, s.last().1@));
        assert(s.last().0 != s[i].0);
        assert(mk_map(dl).insert(s[i].0, st@).insert(s.last().0, s.last().1@) =~= mk_map(
            dl,
        ).insert(s.last().0, s.last().1@).insert(s[i].0, st@));
        assert(mk_map(s) == mk_map(dl).insert(s.last().0, s.last().1@));
    }
}

proof fn lemma_mk_map_push(s: Seq<(u64, SourceState)>, p: (u64, SourceState))
    ensures
        mk_map(s.push(p)) == mk_map(s).insert(p.0, p.1@),
{
    assert(s.push(p).drop_last() =~= s);
    assert(s.push(p).last() == p);
}

/// Every source's reorder state in a table satisfies its invariant.
pub open spec fn map_inv(m: Map<u64, SourceModel>) -> bool {
    forall|k: u64| #[trigger] m.contains_key(k) ==> src_inv(m[k])
}

/// A source table keyed by source id, with one reorder state per source.
/// Entries are created lazily on first observation of a source and never
/// destroyed.
pub struct SourceStates {
    entries: Vec<(u64, SourceState)>,
}

impl View for SourceStates {
    type V = Map<u64, SourceModel>;

    closed spec fn view(&self) -> Map<u64, SourceModel> {
        mk_map(self.entries@)
    }
}

impl SourceStates {
    /// Keys occur at most once in the table.
    pub closed spec fn wf(self) -> bool {
        unique_keys(self.entries@)
    }

    /// Every source's reorder state satisfies its invariant.
    pub open spec fn all_inv(self) -> bool {
        map_inv(self@)
    }

    pub fn new() -> (r: SourceStates)
        ensures
            r@ == Map::<u64, SourceModel>::empty(),
            r.wf(),
            r.all_inv(),
    {
        SourceStates { entries: Vec::new() }
    }

    fn find(&self, id: u64) -> (r: Option<usize>)
        requires
            self.wf(),
        ensures
            r is Some ==> r->0 < self.entries@.len() && self.entries@[r->0 as int].0 == id
                && self@.contains_key(id) && self@[id] == self.entries@[r->0 as int].1@,
            r is None ==> !self@.contains_key(id),
    {
        proof {
            lemma_mk_map_dom(self.entries@);
        }
        let mut i: usize = 0;
        while i < self.entries.len()
            invariant
                self.wf(),
                i <= self.entries@.len(),
                forall|j: int| 0 <= j < i ==> self.entries@[j].0 != id,
            decreases self.entries@.len() - i,
        {
            if self.entries[i].0 == id {
                proof {
                    lemma_mk_map_index(self.entries@, i as int);
                }
                return Some(i);
            }
            i = i + 1;
        }
        proof {
            lemma_mk_map_dom(self.entries@);
        }
        None
    }

    /// Whether a source has been observed before.
    pub fn contains(&self, id: u64) -> (r: bool)
        requires
            self.wf(),
        ensures
            r == self@.contains_key(id),
    {
        self.find(id).is_some()
    }

    fn push_new(&mut self, id: u64)
        requires
            old(self).wf(),
            !old(self)@.contains_key(id),
        ensures
            final(self).wf(),
            final(self)@ == old(self)@.insert(id, empty_source()),
            old(self).all_inv() ==> final(self).all_inv(),
    {
        proof {
            lemma_mk_map_dom(self.entries@);
        }
        let st = SourceState::new();
        self.entries.push((id, st));
        proof {
            let e0 = old(self).entries@;
            lemma_mk_map_push(e0, (id, st));
            assert forall|i: int, j: int|
                0 <= i < j < self.entries@.len() implies self.entries@[i].0
                != self.entries@[j].0 by {
                if j < e0.len() {
                    assert(e0[i].0 != e0[j].0);
                } else {
                    assert(self.entries@[i].0 == e0[i].0);
                    assert(!has_key(e0, id));
                    assert(e0[i].0 != id);
                }
            }
            if old(self).all_inv() {
                assert forall|k: u64| #[trigger] self@.contains_key(k) implies src_inv(
                    self@[k],
                ) by {
                    if k != id {
                        assert(old(self)@.contains_key(k));
                    }
                }
            }
        }
    }

    /// The last delivered sequence number of a source: `None` when the
    /// source is unknown or nothing was delivered yet.
    pub fn last_delivered(&self, id: u64) -> (r: Option<u64>)
        requires
            self.wf(),
        ensures
            self@.contains_key(id) ==> r == self@[id].last,
            !self@.contains_key(id) ==> r is None,
    {
        match self.find(id) {
            Some(i) => self.entries[i].1.last_delivered_sn,
            None => None,
        }
    }

    /// How many samples a source has buffered.
    pub fn pending_len(&self, id: u64) -> (r: usize)
        requires
            self.wf(),
        ensures
            self@.contains_key(id) ==> r == self@[id].pending.len(),
            !self@.contains_key(id) ==> r == 0,
    {
        match self.find(id) {
            Some(i) => self.entries[i].1.pending_samples.len(),
            None => 0,
        }
    }

    /// How many recovery queries are in flight for a source.
    pub fn pending_queries_of(&self, id: u64) -> (r: u64)
        requires
            self.wf(),
        ensures
            self@.contains_key(id) ==> r == self@[id].pending_queries,
            !self@.contains_key(id) ==> r == 0,
    {
        match self.find(id) {
            Some(i) => self.entries[i].1.pending_queries,
            None => 0,
        }
    }
}

/// The samples of a window, in ascending key order.
pub open spec fn pending_samples_of(q: Seq<(u64, SampleModel)>) -> Seq<SampleModel> {
    q.map(|i: int, p: (u64, SampleModel)| p.1)
}

/// A source after a loss flush: everything buffered was delivered, so the
/// last delivered number jumps to the highest buffered key; an empty window
/// leaves the source as it was.
pub open spec fn flushed_source(st: SourceModel) -> SourceModel {
    if st.pending.len() > 0 {
        SourceModel {
            last: Some(st.pending.last().0),
            pending_queries: st.pending_queries,
            pending: Seq::<(u64, SampleModel)>::empty(),
        }
    } else {
        st
    }
}

pub open spec fn dec_queries(st: SourceModel) -> SourceModel {
    SourceModel {
        pending_queries: if st.pending_queries > 0 {
            (st.pending_queries - 1) as u64
        } else {
            0
        },
        ..st
    }
}

pub open spec fn inc_queries(st: SourceModel) -> SourceModel {
    SourceModel {
        pending_queries: if st.pending_queries < u64::MAX {
            (st.pending_queries + 1) as u64
        } else {
            st.pending_queries
        },
        ..st
    }
}

/// What the end of a recovery query does to the table: the query count
/// drops; if samples are still buffered and no bootstrap is in progress,
/// that is permanent loss, and the buffered suffix is flushed to the
/// consumer in ascending order.
pub open spec fn query_end_spec(m: Map<u64, SourceModel>, id: u64, wait: bool) -> (
    Map<u64, SourceModel>,
    Seq<SampleModel>,
) {
    if !m.contains_key(id) {
        (m, Seq::<SampleModel>::empty())
    } else {
        let st = dec_queries(m[id]);
        if st.pending.len() > 0 && !wait {
            (m.insert(id, flushed_source(st)), pending_samples_of(m[id].pending))
        } else {
            (m.insert(id, st), Seq::<SampleModel>::empty())
        }
    }
}

/// When a recovery query is launched: reactively, only where a gap is
/// visible (something is buffered), no query is already in flight, and the
/// source has delivered before — the query then asks for `last + 1` on.
pub open spec fn reactive_query_spec(m: Map<u64, SourceModel>, id: u64, wait: bool) -> Option<
    u64,
> {
    if m.contains_key(id) && !wait && m[id].pending_queries == 0 && m[id].pending.len() > 0
        && m[id].last is Some {
        Some((m[id].last->0 + 1) as u64)
    } else {
        None
    }
}

/// A periodic probe asks for `last + 1` on, whenever the source is known
/// and has delivered something not at the counter's end.
pub open spec fn periodic_query_spec(m: Map<u64, SourceModel>, id: u64) -> Option<u64> {
    if m.contains_key(id) && m[id].last is Some && m[id].last->0 < u64::MAX {
        Some((m[id].last->0 + 1) as u64)
    } else {
        None
    }
}

impl SourceStates {
    /// Ends a recovery query for a source: drops its in-flight count and,
    /// on permanent loss (buffered samples, no bootstrap in progress),
    /// flushes the buffered suffix in ascending order. The returned samples
    /// go to the consumer.
    pub fn end_query_flush(&mut self, id: u64, wait: bool) -> (r: Vec<Sample>)
        requires
            old(self).wf(),
            old(self).all_inv(),
        ensures
            final(self).wf(),
            final(self).all_inv(),
            final(self)@ == query_end_spec(old(self)@, id, wait).0,
            samples_view(r@) == query_end_spec(old(self)@, id, wait).1,
    {
        let ghost m0 = self@;
        let idx = match self.find(id) {
            Some(i) => i,
            None => {
                return Vec::new();
            },
        };
        let ghost entries1 = self.entries@;
        let pair = self.entries.remove(idx);
        let mut st = pair.1;
        let ghost st0 = st@;
        proof {
            assert(st0 == m0[id]);
            assert(src_inv(st0));
        }
        if st.pending_queries > 0 {
            st.pending_queries = st.pending_queries - 1;
        }
        let mut out: Vec<Sample> = Vec::new();
        if !wait && st.pending_samples.len() > 0 {
            let lk = st.pending_samples.last_key().unwrap();
            let mut drained = st.pending_samples.take_all();
            st.last_delivered_sn = Some(lk);
            out.append(&mut drained);
            proof {
                assert(samples_view(out@) =~= pending_samples_of(st0.pending));
            }
        } else {
            proof {
                assert(samples_view(out@) =~= Seq::<SampleModel>::empty());
            }
        }
        let ghost stv = st;
        self.entries.insert(idx, (id, st));
        proof {
            assert(self.entries@ =~= entries1.update(idx as int, (id, stv)));
            lemma_mk_map_update(entries1, idx as int, stv);
            assert(self@ == m0.insert(id, stv@));
            assert(self@ =~= query_end_spec(m0, id, wait).0);
            assert forall|i: int, j: int|
                0 <= i < j < self.entries@.len() implies self.entries@[i].0
                != self.entries@[j].0 by {
                assert(entries1.update(idx as int, (id, stv))[i].0 == entries1[i].0);
                assert(entries1.update(idx as int, (id, stv))[j].0 == entries1[j].0);
            }
            assert(src_inv(stv@));
            assert forall|k: u64| #[trigger] self@.contains_key(k) implies src_inv(self@[k]) by {
                if k != id {
                    assert(m0.contains_key(k) && self@[k] == m0[k]);
                }
            }
        }
        out
    }

    /// Notes the launch of a reactive recovery query: when one is owed (see
    /// [`reactive_query_spec`]), counts it in flight and returns the first
    /// missing sequence number the query must ask for.
    pub fn begin_reactive_query(&mut self, id: u64, wait: bool) -> (r: Option<u64>)
        requires
            old(self).wf(),
            old(self).all_inv(),
        ensures
            final(self).wf(),
            final(self).all_inv(),
            r == reactive_query_spec(old(self)@, id, wait),
            r is Some ==> final(self)@ == old(self)@.insert(id, inc_queries(old(self)@[id])),
            r is None ==> final(self)@ == old(self)@,
    {
        let ghost m0 = self@;
        let idx = match self.find(id) {
            Some(i) => i,
            None => {
                return None;
            },
        };
        if wait {
            return None;
        }
        let ghost entries1 = self.entries@;
        let pair = self.entries.remove(idx);
        let mut st = pair.1;
        let ghost st0 = st@;
        proof {
            assert(st0 == m0[id]);
            assert(src_inv(st0));
        }
        let launch = st.pending_queries == 0 && st.pending_samples.len() > 0
            && st.last_delivered_sn.is_some();
        let mut start: Option<u64> = None;
        if launch {
            proof {
                assert(st0.pending[0].0 > st0.last->0);
            }
            start = Some(st.last_delivered_sn.unwrap() + 1);
            if st.pending_queries < u64::MAX {
                st.pending_queries = st.pending_queries + 1;
            }
        }
        let ghost stv = st;
        self.entries.insert(idx, (id, st));
        proof {
            assert(self.entries@ =~= entries1.update(idx as int, (id, stv)));
            lemma_mk_map_update(entries1, idx as int, stv);
            assert(self@ == m0.insert(id, stv@));
            if !launch {
                assert(stv@ == m0[id]);
                assert(self@ =~= m0);
            }
            assert forall|i: int, j: int|
                0 <= i < j < self.entries@.len() implies self.entries@[i].0
                != self.entries@[j].0 by {
                assert(entries1.update(idx as int, (id, stv))[i].0 == entries1[i].0);
                assert(entries1.update(idx as int, (id, stv))[j].0 == entries1[j].0);
            }
            assert forall|k: u64| #[trigger] self@.contains_key(k) implies src_inv(self@[k]) by {
                if k != id {
                    assert(m0.contains_key(k) && self@[k] == m0[k]);
                }
            }
        }
        start
    }

    /// Notes the firing of a periodic probe: counts a query in flight for
    /// the source and returns the first sequence number it must ask for,
    /// when the source is known and has delivered before.
    pub fn begin_periodic_query(&mut self, id: u64) -> (r: Option<u64>)
        requires
            old(self).wf(),
            old(self).all_inv(),
        ensures
            final(self).wf(),
            final(self).all_inv(),
            r == periodic_query_spec(old(self)@, id),
            r is Some ==> final(self)@ == old(self)@.insert(id, inc_queries(old(self)@[id])),
            r is None ==> final(self)@ == old(self)@,
    {
        let ghost m0 = self@;
        let idx = match self.find(id) {
            Some(i) => i,
            None => {
                return None;
            },
        };
        let ghost entries1 = self.entries@;
        let pair = self.entries.remove(idx);
        let mut st = pair.1;
        let ghost st0 = st@;
        proof {
            assert(st0 == m0[id]);
            assert(src_inv(st0));
        }
        let launch = st.last_delivered_sn.is_some() && st.last_delivered_sn.unwrap() < u64::MAX;
        let mut start: Option<u64> = None;
        if launch {
            start = Some(st.last_delivered_sn.unwrap() + 1);
            if st.pending_queries < u64::MAX {
                st.pending_queries = st.pending_queries + 1;
            }
        }
        let ghost stv = st;
        self.entries.insert(idx, (id, st));
        proof {
            assert(self.entries@ =~= entries1.update(idx as int, (id, stv)));
            lemma_mk_map_update(entries1, idx as int, stv);
            assert(self@ == m0.insert(id, stv@));
            if !launch {
                assert(stv@ == m0[id]);
                assert(self@ =~= m0);
            }
            assert forall|i: int, j: int|
                0 <= i < j < self.entries@.len() implies self.entries@[i].0
                != self.entries@[j].0 by {
                assert(entries1.update(idx as int, (id, stv))[i].0 == entries1[i].0);
                assert(entries1.update(idx as int, (id, stv))[j].0 == entries1[j].0);
            }
            assert forall|k: u64| #[trigger] self@.contains_key(k) implies src_inv(self@[k]) by {
                if k != id {
                    assert(m0.contains_key(k) && self@[k] == m0[k]);
                }
            }
        }
        start
    }
}

/// The whole table after the history bootstrap ends: every source flushed.
pub open spec fn bootstrap_flushed(m: Map<u64, SourceModel>) -> Map<u64, SourceModel> {
    Map::new(|k: u64| m.contains_key(k), |k: u64| flushed_source(m[k]))
}

/// The samples flushed for the given sources, in that order, each source's
/// window in ascending key order.
pub open spec fn flush_concat(m: Map<u64, SourceModel>, ids: Seq<u64>) -> Seq<SampleModel>
    decreases ids.len(),
{
    if ids.len() == 0 {
        Seq::<SampleModel>::empty()
    } else {
        pending_samples_of(m[ids[0]].pending) + flush_concat(m, ids.subrange(1, ids.len() as int))
    }
}

proof fn lemma_flush_concat_push(m: Map<u64, SourceModel>, ids: Seq<u64>, k: u64)
    ensures
        flush_concat(m, ids.push(k)) == flush_concat(m, ids) + pending_samples_of(m[k].pending),
    decreases ids.len(),
{
    let ext = ids.push(k);
    if ids.len() == 0 {
        assert(ext.len() == 1);
        assert(ext[0] == k);
        assert(ext.subrange(1, ext.len() as int) =~= Seq::<u64>::empty());
        assert(flush_concat(m, ext.subrange(1, ext.len() as int)) == Seq::<SampleModel>::empty());
        assert(flush_concat(m, ext) == pending_samples_of(m[k].pending) + Seq::<
            SampleModel,
        >::empty());
        assert(pending_samples_of(m[k].pending) + Seq::<SampleModel>::empty()
            =~= pending_samples_of(m[k].pending));
        assert(flush_concat(m, ids) + pending_samples_of(m[k].pending) =~= pending_samples_of(
            m[k].pending,
        ));
    } else {
        assert(ext.subrange(1, ext.len() as int) =~= ids.subrange(1, ids.len() as int).push(k));
        lemma_flush_concat_push(m, ids.subrange(1, ids.len() as int), k);
        assert((pending_samples_of(m[ids[0]].pending) + flush_concat(
            m,
            ids.subrange(1, ids.len() as int),
        )) + pending_samples_of(m[k].pending) =~= pending_samples_of(m[ids[0]].pending)
            + (flush_concat(m, ids.subrange(1, ids.len() as int)) + pending_samples_of(
            m[k].pending,
        )));
    }
}

impl SourceStates {
    /// Ends the history bootstrap: every source's buffered window is
    /// flushed to the consumer in ascending key order, source by source,
    /// and each flushed source's last delivered number jumps to its highest
    /// buffered key. Returns the flushed samples and every known source id,
    /// for which the caller then starts periodic probes; the caller clears
    /// its `wait` flag afterwards.
    pub fn end_bootstrap_flush(&mut self) -> (r: (Vec<Sample>, Vec<u64>))
        requires
            old(self).wf(),
            old(self).all_inv(),
        ensures
            final(self).wf(),
            final(self).all_inv(),
            final(self)@ == bootstrap_flushed(old(self)@),
            samples_view(r.0@) == flush_concat(old(self)@, r.1@),
            forall|i: int, j: int| 0 <= i < j < r.1@.len() ==> r.1@[i] != r.1@[j],
            forall|k: u64| #[trigger] old(self)@.contains_key(k) <==> r.1@.contains(k),
    {
        let ghost m0 = self@;
        let ghost e0 = self.entries@;
        let mut out: Vec<Sample> = Vec::new();
        let mut ids: Vec<u64> = Vec::new();
        let n = self.entries.len();
        let mut i: usize = 0;
        proof {
            assert(samples_view(out@) =~= Seq::<SampleModel>::empty());
            assert(flush_concat(mk_map(e0), ids@) == Seq::<SampleModel>::empty());
            assert forall|j: int| 0 <= j < n implies src_inv(e0[j].1@) by {
                lemma_mk_map_index(e0, j);
            }
        }
        while i < n
            invariant
                n == e0.len(),
                0 <= i <= n,
                self.entries@.len() == n,
                unique_keys(e0),
                forall|j: int| 0 <= j < n ==> self.entries@[j].0 == e0[j].0,
                forall|j: int| i <= j < n ==> self.entries@[j].1 == e0[j].1,
                forall|j: int|
                    0 <= j < i ==> self.entries@[j].1@ == flushed_source(e0[j].1@),
                ids@.len() == i,
                forall|j: int| 0 <= j < i ==> ids@[j] == e0[j].0,
                samples_view(out@) == flush_concat(mk_map(e0), ids@),
                forall|j: int| 0 <= j < n ==> src_inv(e0[j].1@),
            decreases n - i,
        {
            let ghost entries_pre = self.entries@;
            let ghost ids_pre = ids@;
            let pair = self.entries.remove(i);
            let mut st = pair.1;
            let ghost st0 = st@;
            proof {
                lemma_mk_map_index(e0, i as int);
                assert(st0 == e0[i as int].1@);
                assert(mk_map(e0)[e0[i as int].0] == st0);
            }
            ids.push(pair.0);
            if st.pending_samples.len() > 0 {
                let lk = st.pending_samples.last_key().unwrap();
                let ghost out_pre = out@;
                let mut drained = st.pending_samples.take_all();
                st.last_delivered_sn = Some(lk);
                out.append(&mut drained);
                proof {
                    assert(samples_view(out@) =~= samples_view(out_pre) + pending_samples_of(
                        st0.pending,
                    ));
                }
            } else {
                proof {
                    assert(samples_view(out@) =~= samples_view(out@) + pending_samples_of(
                        st0.pending,
                    ));
                    assert(st@ == flushed_source(st0));
                }
            }
            self.entries.insert(i, (pair.0, st));
            proof {
                assert(st@ == flushed_source(st0));
                assert(self.entries@ =~= entries_pre.update(i as int, (pair.0, st)));
                lemma_flush_concat_push(mk_map(e0), ids_pre, e0[i as int].0);
                assert(samples_view(out@) == flush_concat(mk_map(e0), ids@));
            }
            i = i + 1;
        }
        proof {
            assert(unique_keys(self.entries@));
            lemma_mk_map_dom(self.entries@);
            lemma_mk_map_dom(e0);
            assert forall|k: u64| #[trigger]
                self@.contains_key(k) == bootstrap_flushed(m0).contains_key(k) by {
                assert(has_key(self.entries@, k) == has_key(e0, k)) by {
                    if has_key(self.entries@, k) {
                        let j = choose|j: int|
                            0 <= j < self.entries@.len() && self.entries@[j].0 == k;
                        assert(e0[j].0 == k);
                    }
                    if has_key(e0, k) {
                        let j = choose|j: int| 0 <= j < e0.len() && e0[j].0 == k;
                        assert(self.entries@[j].0 == k);
                    }
                }
            }
            assert forall|k: u64| #[trigger] self@.contains_key(k) implies self@[k]
                == flushed_source(m0[k]) by {
                let j = choose|j: int| 0 <= j < self.entries@.len() && self.entries@[j].0 == k;
                lemma_mk_map_index(self.entries@, j);
                lemma_mk_map_index(e0, j);
            }
            assert(self@ =~= bootstrap_flushed(m0));
            assert forall|k: u64| #[trigger] self@.contains_key(k) implies src_inv(self@[k]) by {
                assert(m0.contains_key(k));
                assert(src_inv(m0[k]));
                assert(self@[k] == flushed_source(m0[k]));
            }
            assert forall|k: u64| #[trigger] m0.contains_key(k) implies ids@.contains(k) by {
                assert(has_key(e0, k));
                let j = choose|j: int| 0 <= j < e0.len() && e0[j].0 == k;
                assert(ids@[j] == k);
            }
            assert forall|k: u64| #[trigger] ids@.contains(k) implies m0.contains_key(k) by {
                let j = choose|j: int| 0 <= j < ids@.len() && ids@[j] == k;
                assert(e0[j].0 == k);
                assert(has_key(e0, k));
            }
        }
        (out, ids)
    }
}

/// Draining after a delivery at `last`: buffered samples at or below `last`
/// are duplicates of delivered ones and are discarded; consecutive
/// successors `last + 1, last + 2, …` are delivered in order; the first gap
/// stops the drain.
pub open spec fn drain_spec(pending: Seq<(u64, SampleModel)>, last: u64) -> (
    Seq<(u64, SampleModel)>,
    Seq<SampleModel>,
    u64,
)
    decreases pending.len(),
{
    if pending.len() == 0 {
        (pending, Seq::<SampleModel>::empty(), last)
    } else if pending[0].0 <= last {
        drain_spec(pending.subrange(1, pending.len() as int), last)
    } else if last < u64::MAX && pending[0].0 == last + 1 {
        let r = drain_spec(pending.subrange(1, pending.len() as int), (last + 1) as u64);
        (r.0, seq![pending[0].1] + r.1, r.2)
    } else {
        (pending, Seq::<SampleModel>::empty(), last)
    }
}

/// What a drain does: it never lowers `last`, it leaves a sorted window
/// whose keys all lie beyond the new `last`, and it delivers exactly the
/// consecutive run `last + 1 … new last`, in order.
pub proof fn lemma_drain_props(pending: Seq<(u64, SampleModel)>, last: u64)
    requires
        pending_sorted(pending),
        keys_match(pending),
    ensures
        ({
            let (p, d, l) = drain_spec(pending, last);
            &&& l >= last
            &&& pending_sorted(p)
            &&& keys_match(p)
            &&& (forall|i: int| 0 <= i < p.len() ==> p[i].0 > l)
            &&& d.len() == l - last
            &&& (forall|i: int| 0 <= i < d.len() ==> d[i].source_sn == Some((last + 1 + i) as u64))
        }),
    decreases pending.len(),
{
    if pending.len() == 0 {
    } else {
        let tail = pending.subrange(1, pending.len() as int);
        if pending[0].0 <= last {
            lemma_drain_props(tail, last);
        } else if last < u64::MAX && pending[0].0 == last + 1 {
            lemma_drain_props(tail, (last + 1) as u64);
            let r = drain_spec(tail, (last + 1) as u64);
            let d = seq![pending[0].1] + r.1;
            assert forall|i: int| 0 <= i < d.len() implies d[i].source_sn == Some(
                (last + 1 + i) as u64,
            ) by {
                if i > 0 {
                    assert(d[i] == r.1[i - 1]);
                }
            }
        } else {
            assert(pending[0].0 > last);
            assert forall|i: int| 0 <= i < pending.len() implies pending[i].0 > last by {
                if i > 0 {
                    assert(pending[0].0 < pending[i].0);
                }
            }
        }
    }
}

/// One routing decision on a single source's state. `sn` is the sample's
/// own source sequence number.
pub open spec fn route_spec(st: SourceModel, wait: bool, sn: u64, s: SampleModel) -> (
    SourceModel,
    Seq<SampleModel>,
) {
    if st.last is Some && sn <= st.last->0 {
        // Duplicate or out-of-window: dropped silently.
        (st, Seq::<SampleModel>::empty())
    } else if wait {
        // History bootstrap in progress: buffer only.
        (
            SourceModel { pending: pending_insert(st.pending, sn, s), ..st },
            Seq::<SampleModel>::empty(),
        )
    } else if st.last is Some && sn > st.last->0 + 1 {
        // A gap is forming: buffer.
        (
            SourceModel { pending: pending_insert(st.pending, sn, s), ..st },
            Seq::<SampleModel>::empty(),
        )
    } else {
        // In-order or first-ever sample: deliver, then drain successors.
        let (p, d, l) = drain_spec(st.pending, sn);
        (SourceModel { last: Some(l), pending: p, ..st }, seq![s] + d)
    }
}

/// One routing decision on the whole table: a sample without full source
/// info is delivered directly and touches no state; otherwise its source's
/// state is looked up or created and the sample routed on it. The boolean
/// reports a newly observed source.
pub open spec fn handle_spec(m: Map<u64, SourceModel>, wait: bool, s: SampleModel) -> (
    Map<u64, SourceModel>,
    Seq<SampleModel>,
    bool,
) {
    if s.source_id is Some && s.source_sn is Some {
        let id = s.source_id->0;
        let sn = s.source_sn->0;
        let st0 = if m.contains_key(id) {
            m[id]
        } else {
            empty_source()
        };
        let (st1, d) = route_spec(st0, wait, sn, s);
        (m.insert(id, st1), d, !m.contains_key(id))
    } else {
        (m, seq![s], false)
    }
}

/// Routing preserves the source invariant, never lowers the last delivered
/// number, and delivers a consecutive ascending run that continues exactly
/// at `last + 1` whenever something was delivered before.
pub proof fn lemma_route_inv(st: SourceModel, wait: bool, sn: u64, s: SampleModel)
    requires
        src_inv(st),
        s.source_sn == Some(sn),
    ensures
        ({
            let (st1, d) = route_spec(st, wait, sn, s);
            &&& src_inv(st1)
            &&& (st.last is Some ==> st1.last is Some && st1.last->0 >= st.last->0)
            &&& (forall|i: int| 0 <= i < d.len() ==> d[i].source_sn == Some((sn + i) as u64))
            &&& (d.len() > 0 ==> st1.last == Some((sn + d.len() - 1) as u64) && sn + d.len() - 1
                <= u64::MAX)
            &&& (d.len() > 0 && st.last is Some ==> sn == st.last->0 + 1)
            &&& (d.len() == 0 ==> st1.last == st.last)
        }),
{
    if st.last is Some && sn <= st.last->0 {
    } else if wait {
        crate::state::lemma_pending_insert_sorted(st.pending, sn, s);
        lemma_pending_insert_keys_match(st.pending, sn, s);
        if st.last is Some {
            crate::state::lemma_pending_insert_bound(st.pending, sn, s, st.last->0 as int);
        }
    } else if st.last is Some && sn > st.last->0 + 1 {
        crate::state::lemma_pending_insert_sorted(st.pending, sn, s);
        lemma_pending_insert_keys_match(st.pending, sn, s);
        crate::state::lemma_pending_insert_bound(st.pending, sn, s, st.last->0 as int);
    } else {
        lemma_drain_props(st.pending, sn);
        let (p, d0, l) = drain_spec(st.pending, sn);
        let d = seq![s] + d0;
        assert forall|i: int| 0 <= i < d.len() implies d[i].source_sn == Some((sn + i) as u64) by {
            if i > 0 {
                assert(d[i] == d0[i - 1]);
            }
        }
    }
}

/// Inserting a sample under its own sequence number keeps every window key
/// matched to its sample.
proof fn lemma_pending_insert_keys_match(q: Seq<(u64, SampleModel)>, sn: u64, s: SampleModel)
    requires
        keys_match(q),
        s.source_sn == Some(sn),
    ensures
        keys_match(pending_insert(q, sn, s)),
    decreases q.len(),
{
    let r = pending_insert(q, sn, s);
    if q.len() == 0 {
    } else if sn < q[0].0 {
        assert forall|i: int| 0 <= i < r.len() implies r[i].1.source_sn == Some(r[i].0) by {
            if i > 0 {
                assert(r[i] == q[i - 1]);
            }
        }
    } else if sn == q[0].0 {
        assert forall|i: int| 0 <= i < r.len() implies r[i].1.source_sn == Some(r[i].0) by {
            if i > 0 {
                assert(r[i] == q[i]);
            }
        }
    } else {
        let tail = q.subrange(1, q.len() as int);
        lemma_pending_insert_keys_match(tail, sn, s);
        assert forall|i: int| 0 <= i < r.len() implies r[i].1.source_sn == Some(r[i].0) by {
            if i > 0 {
                assert(r[i] == pending_insert(tail, sn, s)[i - 1]);
            }
        }
    }
}

/// Executable drain: mirrors [`drain_spec`] one step per recursive call,
/// appending the delivered samples in order.
fn drain_pending(pq: &mut PendingQueue, last: u64, delivered: &mut Vec<Sample>) -> (r: u64)
    requires
        pending_sorted(old(pq)@),
    ensures
        ({
            let (p, d, l) = drain_spec(old(pq)@, last);
            &&& final(pq)@ == p
            &&& r == l
            &&& samples_view(final(delivered)@) == samples_view(old(delivered)@) + d
        }),
    decreases old(pq)@.len(),
{
    let fk = pq.first_key();
    match fk {
        None => {
            proof {
                assert(samples_view(delivered@) =~= samples_view(delivered@) + Seq::<
                    SampleModel,
                >::empty());
            }
            last
        },
        Some(k) => {
            if k <= last {
                let _e = pq.pop_front();
                drain_pending(pq, last, delivered)
            } else if last < u64::MAX && k == last + 1 {
                let ghost pre = pq@;
                let ghost dv0 = delivered@;
                let e = pq.pop_front();
                delivered.push(e.1);
                proof {
                    assert(samples_view(delivered@) =~= samples_view(dv0) + seq![pre[0].1]);
                }
                let res = drain_pending(pq, k, delivered);
                proof {
                    let r2 = drain_spec(pre.subrange(1, pre.len() as int), k);
                    assert(samples_view(delivered@) =~= (samples_view(dv0) + seq![pre[0].1])
                        + r2.1);
                    assert(samples_view(delivered@) =~= samples_view(dv0) + (seq![pre[0].1]
                        + r2.1));
                }
                res
            } else {
                proof {
                    assert(samples_view(delivered@) =~= samples_view(delivered@) + Seq::<
                        SampleModel,
                    >::empty());
                }
                last
            }
        },
    }
}

/// Routes one arriving sample — live or recovered alike — and returns the
/// samples to hand to the consumer, in delivery order, together with
/// whether a new source was observed (the caller starts a periodic probe on
/// first sight).
pub fn handle_sample(states: &mut SourceStates, wait: bool, sample: Sample) -> (r: (
    Vec<Sample>,
    bool,
))
    requires
        old(states).wf(),
        old(states).all_inv(),
    ensures
        final(states).wf(),
        final(states).all_inv(),
        ({
            let (m2, d, new) = handle_spec(old(states)@, wait, sample@);
            &&& final(states)@ == m2
            &&& samples_view(r.0@) == d
            &&& r.1 == new
        }),
{
    let ghost m0 = states@;
    let ghost sv = sample@;
    let (id, sn) = match (sample.source_id, sample.source_sn) {
        (Some(id), Some(sn)) => (id, sn),
        _ => {
            let mut d: Vec<Sample> = Vec::new();
            d.push(sample);
            proof {
                assert(samples_view(d@) =~= seq![sv]);
            }
            return (d, false);
        },
    };
    let is_new = !states.contains(id);
    if is_new {
        states.push_new(id);
    }
    let ghost m1 = states@;
    let idx = states.find(id).unwrap();
    let ghost entries1 = states.entries@;
    let pair = states.entries.remove(idx);
    let mut st = pair.1;
    let ghost st0 = st@;
    proof {
        assert(st0 == m1[id]);
        assert(src_inv(st0));
    }
    let mut delivered: Vec<Sample> = Vec::new();
    if st.last_delivered_sn.is_some() && sn <= st.last_delivered_sn.unwrap() {
        // Duplicate or out-of-window: dropped.
        proof {
            assert(samples_view(delivered@) =~= Seq::<SampleModel>::empty());
        }
    } else if wait {
        st.pending_samples.insert(sn, sample);
        proof {
            assert(samples_view(delivered@) =~= Seq::<SampleModel>::empty());
        }
    } else if st.last_delivered_sn.is_some() && sn > st.last_delivered_sn.unwrap() + 1 {
        st.pending_samples.insert(sn, sample);
        proof {
            assert(samples_view(delivered@) =~= Seq::<SampleModel>::empty());
        }
    } else {
        delivered.push(sample);
        proof {
            assert(samples_view(delivered@) =~= seq![sv]);
        }
        let last = drain_pending(&mut st.pending_samples, sn, &mut delivered);
        st.last_delivered_sn = Some(last);
        proof {
            let (p, d, l) = drain_spec(st0.pending, sn);
            assert(samples_view(delivered@) =~= seq![sv] + d);
        }
    }
    proof {
        assert(st@ == route_spec(st0, wait, sn, sv).0);
        assert(samples_view(delivered@) == route_spec(st0, wait, sn, sv).1);
        lemma_route_inv(st0, wait, sn, sv);
    }
    let ghost stv = st;
    states.entries.insert(idx, (id, st));
    proof {
        assert(states.entries@ =~= entries1.update(idx as int, (id, stv)));
        lemma_mk_map_update(entries1, idx as int, stv);
        assert(states@ == m1.insert(id, stv@));
        assert(states@ =~= handle_spec(m0, wait, sv).0);
        assert forall|i: int, j: int|
            0 <= i < j < states.entries@.len() implies states.entries@[i].0
            != states.entries@[j].0 by {
            assert(entries1.update(idx as int, (id, stv))[i].0 == entries1[i].0);
            assert(entries1.update(idx as int, (id, stv))[j].0 == entries1[j].0);
            assert(entries1[i].0 != entries1[j].0);
        }
        assert forall|k: u64| #[trigger] states@.contains_key(k) implies src_inv(states@[k]) by {
            if k != id {
                assert(m1.contains_key(k) && states@[k] == m1[k]);
            }
        }
    }
    (delivered, is_new)
}

/// Routing a whole stream of samples, in arrival order, collecting every
/// delivery.
pub open spec fn handle_stream(m: Map<u64, SourceModel>, wait: bool, events: Seq<SampleModel>) -> (
    Map<u64, SourceModel>,
    Seq<SampleModel>,
)
    decreases events.len(),
{
    if events.len() == 0 {
        (m, Seq::<SampleModel>::empty())
    } else {
        let (m1, d1, new1) = handle_spec(m, wait, events[0]);
        let (m2, d2) = handle_stream(m1, wait, events.subrange(1, events.len() as int));
        (m2, d1 + d2)
    }
}

/// One routing step on the whole table, for a sample with source info:
/// only that source's state moves, exactly by [`route_spec`], and the
/// table's invariant is kept.
pub proof fn lemma_handle_step(m: Map<u64, SourceModel>, wait: bool, s: SampleModel)
    requires
        map_inv(m),
        s.source_id is Some,
        s.source_sn is Some,
    ensures
        ({
            let id = s.source_id->0;
            let sn = s.source_sn->0;
            let st0 = if m.contains_key(id) {
                m[id]
            } else {
                empty_source()
            };
            let (m1, d, new) = handle_spec(m, wait, s);
            &&& map_inv(m1)
            &&& m1.contains_key(id)
            &&& m1[id] == route_spec(st0, wait, sn, s).0
            &&& d == route_spec(st0, wait, sn, s).1
            &&& (forall|k: u64|
                k != id && #[trigger] m.contains_key(k) ==> m1.contains_key(k) && m1[k] == m[k])
        }),
{
    let id = s.source_id->0;
    let sn = s.source_sn->0;
    let st0 = if m.contains_key(id) {
        m[id]
    } else {
        empty_source()
    };
    assert(src_inv(st0));
    lemma_route_inv(st0, wait, sn, s);
    let (m1, d, new) = handle_spec(m, wait, s);
    assert forall|k: u64| #[trigger] m1.contains_key(k) implies src_inv(m1[k]) by {
        if k != id {
            assert(m.contains_key(k));
        }
    }
}

/// While history bootstrap is in progress, the consumer observes nothing
/// from any source that stamps its samples: every such sample is buffered
/// or dropped, never delivered.
pub proof fn lemma_wait_withholds(m: Map<u64, SourceModel>, s: SampleModel)
    requires
        s.source_id is Some,
        s.source_sn is Some,
    ensures
        handle_spec(m, true, s).1 == Seq::<SampleModel>::empty(),
{
}

/// The stream form: over any run of source-stamped samples arriving while
/// the bootstrap flag is up, there are no deliveries at all.
pub proof fn lemma_wait_withholds_stream(m: Map<u64, SourceModel>, events: Seq<SampleModel>)
    requires
        forall|i: int|
            0 <= i < events.len() ==> events[i].source_id is Some && events[i].source_sn is Some,
    ensures
        handle_stream(m, true, events).1 == Seq::<SampleModel>::empty(),
    decreases events.len(),
{
    if events.len() > 0 {
        lemma_wait_withholds(m, events[0]);
        let (m1, d1, new1) = handle_spec(m, true, events[0]);
        let rest = events.subrange(1, events.len() as int);
        lemma_wait_withholds_stream(m1, rest);
        assert(handle_stream(m, true, events).1 =~= Seq::<SampleModel>::empty());
    }
}

/// A sample at or below the last delivered number is dropped with nothing
/// delivered and nothing changed: duplicate suppression at one step.
pub proof fn lemma_duplicate_dropped(m: Map<u64, SourceModel>, wait: bool, s: SampleModel)
    requires
        s.source_id is Some,
        s.source_sn is Some,
        m.contains_key(s.source_id->0),
        m[s.source_id->0].last is Some,
        s.source_sn->0 <= m[s.source_id->0].last->0,
    ensures
        handle_spec(m, wait, s).1 == Seq::<SampleModel>::empty(),
        handle_spec(m, wait, s).0 =~= m,
{
}

proof fn lemma_replay_dropped(m: Map<u64, SourceModel>, s: SampleModel, n: nat)
    requires
        s.source_id is Some,
        s.source_sn is Some,
        m.contains_key(s.source_id->0),
        m[s.source_id->0].last is Some,
        s.source_sn->0 <= m[s.source_id->0].last->0,
    ensures
        handle_stream(m, false, Seq::new(n, |i: int| s)).1 == Seq::<SampleModel>::empty(),
    decreases n,
{
    if n > 0 {
        let events = Seq::new(n, |i: int| s);
        lemma_duplicate_dropped(m, false, s);
        let (m1, d1, new1) = handle_spec(m, false, s);
        assert(events[0] == s);
        assert(events.subrange(1, events.len() as int) =~= Seq::new((n - 1) as nat, |i: int| s));
        let id = s.source_id->0;
        assert(m1 == m.insert(id, m[id]));
        assert(m1.contains_key(id) && m1[id] == m[id]);
        lemma_replay_dropped(m1, s, (n - 1) as nat);
        assert(handle_stream(m, false, events).1 =~= Seq::<SampleModel>::empty());
    }
}

/// Replaying one and the same sample any number of times yields exactly
/// one delivery: the first in-order arrival is delivered, every later copy
/// is suppressed as a duplicate.
pub proof fn lemma_replay_delivers_once(m: Map<u64, SourceModel>, s: SampleModel, n: nat)
    requires
        map_inv(m),
        n >= 1,
        s.source_id is Some,
        s.source_sn is Some,
        ({
            let st0 = if m.contains_key(s.source_id->0) {
                m[s.source_id->0]
            } else {
                empty_source()
            };
            &&& st0.pending.len() == 0
            &&& (match st0.last {
                Some(l) => l < u64::MAX && s.source_sn->0 == l + 1,
                None => true,
            })
        }),
    ensures
        handle_stream(m, false, Seq::new(n, |i: int| s)).1 == seq![s],
{
    let id = s.source_id->0;
    let sn = s.source_sn->0;
    let events = Seq::new(n, |i: int| s);
    let st0 = if m.contains_key(id) {
        m[id]
    } else {
        empty_source()
    };
    lemma_handle_step(m, false, s);
    let (m1, d1, new1) = handle_spec(m, false, s);
    assert(events[0] == s);
    assert(drain_spec(st0.pending, sn) == (st0.pending, Seq::<SampleModel>::empty(), sn));
    assert(d1 =~= seq![s]);
    assert(m1[id].last == Some(sn));
    assert(events.subrange(1, events.len() as int) =~= Seq::new((n - 1) as nat, |i: int| s));
    lemma_replay_dropped(m1, s, (n - 1) as nat);
    assert(handle_stream(m, false, events).1 =~= seq![s]);
}

/// One delivery step, seen through its run: the delivered samples of one
/// routing step carry the consecutive sequence numbers `sn, sn + 1, …`,
/// the last delivered number ends on the run's last element, a run only
/// starts right after the previous last delivered number, and an empty run
/// leaves that number alone.
proof fn lemma_step_run(m: Map<u64, SourceModel>, id: u64, s: SampleModel)
    requires
        map_inv(m),
        s.source_id == Some(id),
        s.source_sn is Some,
    ensures
        ({
            let sn = s.source_sn->0;
            let last0 = if m.contains_key(id) {
                m[id].last
            } else {
                None
            };
            let (m1, d, new) = handle_spec(m, false, s);
            &&& map_inv(m1)
            &&& m1.contains_key(id)
            &&& (forall|i: int|
                0 <= i < d.len() ==> (#[trigger] d[i]).source_sn == Some((sn + i) as u64))
            &&& (d.len() > 0 ==> m1[id].last == Some((sn + d.len() - 1) as u64) && sn + d.len()
                - 1 <= u64::MAX)
            &&& (d.len() > 0 && last0 is Some ==> sn == last0->0 + 1)
            &&& (d.len() == 0 ==> m1[id].last == last0)
        }),
{
    let sn = s.source_sn->0;
    let st0 = if m.contains_key(id) {
        m[id]
    } else {
        empty_source()
    };
    assert(src_inv(st0));
    lemma_handle_step(m, false, s);
    lemma_route_inv(st0, false, sn, s);
}

/// Two consecutive runs whose seam fits concatenate to one consecutive
/// run.
proof fn lemma_concat_consecutive(d1: Seq<SampleModel>, d2: Seq<SampleModel>, sn: u64)
    requires
        forall|i: int| 0 <= i < d1.len() ==> (#[trigger] d1[i]).source_sn == Some((sn + i) as u64),
        forall|i: int| 0 <= i < d2.len() ==> (#[trigger] d2[i]).source_sn is Some,
        forall|i: int|
            0 < i < d2.len() ==> (#[trigger] d2[i]).source_sn->0 == d2[i - 1].source_sn->0 + 1,
        d1.len() > 0 ==> sn + d1.len() - 1 <= u64::MAX,
        d1.len() > 0 && d2.len() > 0 ==> d2[0].source_sn->0 == sn + d1.len(),
    ensures
        forall|i: int| 0 <= i < (d1 + d2).len() ==> (#[trigger] (d1 + d2)[i]).source_sn is Some,
        forall|i: int|
            0 < i < (d1 + d2).len() ==> (#[trigger] (d1 + d2)[i]).source_sn->0 == (d1 + d2)[i
                - 1].source_sn->0 + 1,
{
    let d = d1 + d2;
    assert forall|i: int| 0 <= i < d.len() implies (#[trigger] d[i]).source_sn is Some by {
        if i < d1.len() {
            assert(d[i] == d1[i]);
        } else {
            assert(d[i] == d2[i - d1.len()]);
        }
    }
    assert forall|i: int| 0 < i < d.len() implies (#[trigger] d[i]).source_sn->0 == d[i
        - 1].source_sn->0 + 1 by {
        if i < d1.len() {
            assert(d[i] == d1[i]);
            assert(d[i - 1] == d1[i - 1]);
            assert(sn + i <= u64::MAX);
            assert(d1[i].source_sn == Some((sn + i) as u64));
            assert(d1[i - 1].source_sn == Some((sn + i - 1) as u64));
        } else if i == d1.len() {
            assert(d[i] == d2[0]);
            assert(d[i - 1] == d1[i - 1]);
        } else {
            assert(d[i] == d2[i - d1.len()]);
            assert(d[i - 1] == d2[i - d1.len() - 1]);
        }
    }
}

/// Gap-free in-order delivery per source: over any stream of one source's
/// samples — live and recovered alike, in any interleaving, with no loss
/// flush in between — the consumer observes a consecutive ascending run of
/// sequence numbers, starting right after the last delivered one if
/// anything was delivered before; and the last delivered number tracks the
/// run.
#[verifier::rlimit(100)]
#[verifier::spinoff_prover]
pub proof fn lemma_stream_in_order(m: Map<u64, SourceModel>, id: u64, events: Seq<SampleModel>)
    requires
        map_inv(m),
        forall|i: int|
            0 <= i < events.len() ==> events[i].source_id == Some(id) && events[i].source_sn
                is Some,
    ensures
        ({
            let (m2, d) = handle_stream(m, false, events);
            let last0 = if m.contains_key(id) {
                m[id].last
            } else {
                None
            };
            let last2 = if m2.contains_key(id) {
                m2[id].last
            } else {
                None
            };
            &&& map_inv(m2)
            &&& (forall|i: int| 0 <= i < d.len() ==> (#[trigger] d[i]).source_sn is Some)
            &&& (forall|i: int|
                0 < i < d.len() ==> (#[trigger] d[i]).source_sn->0 == d[i - 1].source_sn->0 + 1)
            &&& (d.len() > 0 && last0 is Some ==> d[0].source_sn->0 == last0->0 + 1)
            &&& (d.len() > 0 ==> last2 == Some(d[d.len() - 1].source_sn->0))
            &&& (d.len() == 0 ==> last2 == last0)
        }),
    decreases events.len(),
{
    if events.len() > 0 {
        let s = events[0];
        let sn = s.source_sn->0;
        let last0 = if m.contains_key(id) {
            m[id].last
        } else {
            None
        };
        lemma_step_run(m, id, s);
        let (m1, d1, new1) = handle_spec(m, false, s);
        let last1 = m1[id].last;
        let rest = events.subrange(1, events.len() as int);
        lemma_stream_in_order(m1, id, rest);
        let (m2, d2) = handle_stream(m1, false, rest);
        let d = d1 + d2;
        assert(handle_stream(m, false, events) == (m2, d));
        if d1.len() > 0 && d2.len() > 0 {
            assert(last1 == Some((sn + d1.len() - 1) as u64));
            assert(d2[0].source_sn->0 == last1->0 + 1);
            assert(d2[0].source_sn->0 == sn + d1.len());
        }
        lemma_concat_consecutive(d1, d2, sn);
        if d.len() > 0 && last0 is Some {
            if d1.len() > 0 {
                assert(d[0] == d1[0]);
                assert(d1[0].source_sn == Some((sn + 0) as u64));
                assert(sn == last0->0 + 1);
            } else {
                assert(last1 == last0);
                assert(d =~= d2);
                assert(d2[0].source_sn->0 == last0->0 + 1);
            }
        }
        if d.len() > 0 {
            if d2.len() > 0 {
                assert(d[d.len() - 1] == d2[d2.len() - 1]);
            } else {
                assert(d2 =~= Seq::<SampleModel>::empty());
                assert(d =~= d1);
                assert(d[d.len() - 1] == d1[d1.len() - 1]);
                assert(last1 == Some((sn + d1.len() - 1) as u64));
                assert(d1[d1.len() - 1].source_sn == Some((sn + d1.len() - 1) as u64));
                assert(m2.contains_key(id) && m2[id].last == last1);
            }
        }
        if d.len() == 0 {
            assert(d1.len() == 0 && d2.len() == 0);
            assert(last1 == last0);
        }
    }
}

} // verus!
