//! The non-blocking fault-tolerant reliable subscriber: configuration
//! builder and the subscriber core that owns the source table and the
//! bootstrap flag.
//!
//! The core holds the protocol decisions only. The runtime around it owns
//! the transport: it declares the underlying subscription, issues the
//! selectors this module composes, runs timers, serialises access to the
//! core, and hands events back in — live samples, reply samples, query
//! terminations and periodic ticks.

use vstd::prelude::*;

use crate::defrag::Reliability;
use crate::errors::SelectorError;
use crate::range::range_str;
use crate::recovery::{
    bootstrap_key_expr, bootstrap_selector, handle_reply, recovery_key_expr, recovery_selector,
    reply_spec,
};
use crate::router::{
    bootstrap_flushed, flush_concat, handle_sample, handle_spec, inc_queries, periodic_query_spec,
    query_end_spec, reactive_query_spec, SourceStates,
};
use crate::sample::{samples_view, Sample};
use crate::selector::{is_keyexpr, keyexpr_valid, Selector};
use crate::state::SourceModel;

verus! {

/// Which publications reach the subscriber, by where they originate.
#[derive(Clone, Copy, Debug, PartialEq, Eq, Structural)]
pub enum Locality {
    SessionLocal,
    Remote,
    Any,
}

/// Which queryables a recovery query is addressed to.
#[derive(Clone, Copy, Debug, PartialEq, Eq, Structural)]
pub enum QueryTarget {
    BestMatching,
    All,
    AllComplete,
}

/// The builder of a reliable subscriber: a configuration carrier with no
/// behaviour of its own. `Handler` is whatever the runtime turns into a
/// consumer callback and receiver.
pub struct NBFTReliableSubscriberBuilder<Handler> {
    pub key_expr: String,
    pub reliability: Reliability,
    pub origin: Locality,
    pub query_target: QueryTarget,
    pub query_timeout_ms: u64,
    pub period_ms: Option<u64>,
    pub history: bool,
    pub handler: Handler,
}

impl NBFTReliableSubscriberBuilder<()> {
    /// A builder over the given key expression, with the defaults: best
    /// effort, any origin, best-matching query target, a ten-second query
    /// timeout, no periodic queries, no history.
    pub fn new(key_expr: String) -> (r: NBFTReliableSubscriberBuilder<()>)
        ensures
            r.key_expr@ == key_expr@,
            r.reliability == Reliability::BestEffort,
            r.origin == Locality::Any,
            r.query_target == QueryTarget::BestMatching,
            r.query_timeout_ms == 10000u64,
            r.period_ms is None,
            !r.history,
    {
        NBFTReliableSubscriberBuilder {
            key_expr,
            reliability: Reliability::BestEffort,
            origin: Locality::Any,
            query_target: QueryTarget::BestMatching,
            query_timeout_ms: 10000,
            period_ms: None,
            history: false,
            handler: (),
        }
    }
}

impl<Handler> NBFTReliableSubscriberBuilder<Handler> {
    /// Hands the subscriber a consumer callback.
    pub fn callback<Callback>(self, callback: Callback) -> (r: NBFTReliableSubscriberBuilder<
        Callback,
    >)
        ensures
            r.key_expr@ == self.key_expr@,
            r.reliability == self.reliability,
            r.origin == self.origin,
            r.query_target == self.query_target,
            r.query_timeout_ms == self.query_timeout_ms,
            r.period_ms == self.period_ms,
            r.history == self.history,
            r.handler == callback,
    {
        let NBFTReliableSubscriberBuilder {
            key_expr,
            reliability,
            origin,
            query_target,
            query_timeout_ms,
            period_ms,
            history,
            handler: _,
        } = self;
        NBFTReliableSubscriberBuilder {
            key_expr,
            reliability,
            origin,
            query_target,
            query_timeout_ms,
            period_ms,
            history,
            handler: callback,
        }
    }

    /// Hands the subscriber a consumer callback that may mutate its state;
    /// the runtime owns serialising its invocations.
    pub fn callback_mut<CallbackMut>(self, callback: CallbackMut) -> (r:
        NBFTReliableSubscriberBuilder<CallbackMut>)
        ensures
            r.key_expr@ == self.key_expr@,
            r.reliability == self.reliability,
            r.origin == self.origin,
            r.query_target == self.query_target,
            r.query_timeout_ms == self.query_timeout_ms,
            r.period_ms == self.period_ms,
            r.history == self.history,
            r.handler == callback,
    {
        self.callback(callback)
    }

    /// Hands the subscriber a handler, whatever the runtime makes of it.
    pub fn with<H>(self, handler: H) -> (r: NBFTReliableSubscriberBuilder<H>)
        ensures
            r.key_expr@ == self.key_expr@,
            r.reliability == self.reliability,
            r.origin == self.origin,
            r.query_target == self.query_target,
            r.query_timeout_ms == self.query_timeout_ms,
            r.period_ms == self.period_ms,
            r.history == self.history,
            r.handler == handler,
    {
        let NBFTReliableSubscriberBuilder {
            key_expr,
            reliability,
            origin,
            query_target,
            query_timeout_ms,
            period_ms,
            history,
            handler: _,
        } = self;
        NBFTReliableSubscriberBuilder {
            key_expr,
            reliability,
            origin,
            query_target,
            query_timeout_ms,
            period_ms,
            history,
            handler,
        }
    }

    /// Changes the subscription reliability.
    pub fn reliability(self, reliability: Reliability) -> (r: Self)
        ensures
            r == (NBFTReliableSubscriberBuilder { reliability, ..self }),
    {
        NBFTReliableSubscriberBuilder { reliability, ..self }
    }

    /// Changes the subscription reliability to reliable.
    pub fn reliable(self) -> (r: Self)
        ensures
            r == (NBFTReliableSubscriberBuilder { reliability: Reliability::Reliable, ..self }),
    {
        NBFTReliableSubscriberBuilder { reliability: Reliability::Reliable, ..self }
    }

    /// Changes the subscription reliability to best effort.
    pub fn best_effort(self) -> (r: Self)
        ensures
            r == (NBFTReliableSubscriberBuilder { reliability: Reliability::BestEffort, ..self }),
    {
        NBFTReliableSubscriberBuilder { reliability: Reliability::BestEffort, ..self }
    }

    /// Restricts matching publications to ones of the given origin.
    pub fn allowed_origin(self, origin: Locality) -> (r: Self)
        ensures
            r == (NBFTReliableSubscriberBuilder { origin, ..self }),
    {
        NBFTReliableSubscriberBuilder { origin, ..self }
    }

    /// Changes the target of recovery queries.
    pub fn query_target(self, query_target: QueryTarget) -> (r: Self)
        ensures
            r == (NBFTReliableSubscriberBuilder { query_target, ..self }),
    {
        NBFTReliableSubscriberBuilder { query_target, ..self }
    }

    /// Changes the timeout of recovery queries, in milliseconds.
    pub fn query_timeout(self, query_timeout_ms: u64) -> (r: Self)
        ensures
            r == (NBFTReliableSubscriberBuilder { query_timeout_ms, ..self }),
    {
        NBFTReliableSubscriberBuilder { query_timeout_ms, ..self }
    }

    /// Enables periodic queries with the given period, in milliseconds.
    pub fn periodic_queries(self, period_ms: Option<u64>) -> (r: Self)
        ensures
            r == (NBFTReliableSubscriberBuilder { period_ms, ..self }),
    {
        NBFTReliableSubscriberBuilder { period_ms, ..self }
    }

    /// Enables or disables the query for historical data at start-up.
    pub fn history(self, history: bool) -> (r: Self)
        ensures
            r == (NBFTReliableSubscriberBuilder { history, ..self }),
    {
        NBFTReliableSubscriberBuilder { history, ..self }
    }
}

/// The subscriber core: the per-source reorder states and the bootstrap
/// flag, together with the configuration the runtime consults when it
/// issues queries.
pub struct NBFTReliableSubscriber {
    pub key_expr: String,
    pub reliability: Reliability,
    pub origin: Locality,
    pub query_target: QueryTarget,
    pub query_timeout_ms: u64,
    pub period_ms: Option<u64>,
    pub history: bool,
    pub states: SourceStates,
    pub wait: bool,
}

impl NBFTReliableSubscriber {
    pub open spec fn spec_states(&self) -> Map<u64, SourceModel> {
        self.states@
    }

    pub open spec fn spec_wait(&self) -> bool {
        self.wait
    }

    pub open spec fn inv(&self) -> bool {
        self.states.wf() && self.states.all_inv()
    }

    /// Whether history bootstrap is still in progress: while it is, samples
    /// with source info are only buffered, never delivered.
    pub fn is_waiting(&self) -> (r: bool)
        ensures
            r == self.spec_wait(),
    {
        self.wait
    }

    /// Builds the subscriber core from its configuration. The key
    /// expression must be valid. Returns the core, the handler for the
    /// runtime to wire up, and — when history is requested — the selector
    /// of the bootstrap query the runtime must issue.
    pub fn new<Handler>(conf: NBFTReliableSubscriberBuilder<Handler>) -> (r: Result<
        (NBFTReliableSubscriber, Handler, Option<Selector>),
        SelectorError,
    >)
        ensures
            r is Ok <==> is_keyexpr(conf.key_expr@),
            r is Err ==> r->Err_0 == SelectorError::InvalidSelector,
            r is Ok ==> ({
                let (sub, _handler, boot) = r->Ok_0;
                &&& sub.inv()
                &&& sub.key_expr@ == conf.key_expr@
                &&& sub.reliability == conf.reliability
                &&& sub.origin == conf.origin
                &&& sub.query_target == conf.query_target
                &&& sub.query_timeout_ms == conf.query_timeout_ms
                &&& sub.period_ms == conf.period_ms
                &&& sub.history == conf.history
                &&& sub.spec_states() == Map::<u64, SourceModel>::empty()
                &&& sub.spec_wait() == conf.history
                &&& (conf.history ==> boot is Some && boot->0.key_expr@ == bootstrap_key_expr(
                    conf.key_expr@,
                ) && boot->0.spec_value_selector() == range_str(Some(0), None))
                &&& (!conf.history ==> boot is None)
            }),
    {
        if !keyexpr_valid(conf.key_expr.as_str()) {
            return Err(SelectorError::InvalidSelector);
        }
        let boot = if conf.history {
            Some(bootstrap_selector(conf.key_expr.as_str()))
        } else {
            None
        };
        let sub = NBFTReliableSubscriber {
            key_expr: conf.key_expr,
            reliability: conf.reliability,
            origin: conf.origin,
            query_target: conf.query_target,
            query_timeout_ms: conf.query_timeout_ms,
            period_ms: conf.period_ms,
            history: conf.history,
            states: SourceStates::new(),
            wait: conf.history,
        };
        Ok((sub, conf.handler, boot))
    }

    /// Takes one live sample from the underlying subscription: routes it,
    /// and decides whether a reactive recovery query is owed. Returns the
    /// samples to hand to the consumer in order, whether a new source was
    /// observed (the runtime then starts its periodic probe), and the
    /// selector of the recovery query to issue, if any.
    pub fn on_live_sample(&mut self, sample: Sample) -> (r: (Vec<Sample>, bool, Option<Selector>))
        requires
            old(self).inv(),
        ensures
            final(self).inv(),
            final(self).key_expr@ == old(self).key_expr@,
            final(self).spec_wait() == old(self).spec_wait(),
            ({
                let m0 = old(self).spec_states();
                let w = old(self).spec_wait();
                let (m1, d, new) = handle_spec(m0, w, sample@);
                &&& samples_view(r.0@) == d
                &&& r.1 == new
                &&& (match sample@.source_id {
                    Some(id) => (match reactive_query_spec(m1, id, w) {
                        Some(start) => r.2 is Some && r.2->0.key_expr@ == recovery_key_expr(
                            id,
                            old(self).key_expr@,
                        ) && r.2->0.spec_value_selector() == range_str(Some(start), None)
                            && final(self).spec_states() == m1.insert(id, inc_queries(m1[id])),
                        None => r.2 is None && final(self).spec_states() == m1,
                    }),
                    None => r.2 is None && final(self).spec_states() == m1,
                })
            }),
    {
        let source_id = sample.source_id;
        let wait = self.wait;
        let (delivered, is_new) = handle_sample(&mut self.states, wait, sample);
        let query = match source_id {
            Some(id) => {
                match self.states.begin_reactive_query(id, wait) {
                    Some(start) => Some(recovery_selector(id, self.key_expr.as_str(), start)),
                    None => None,
                }
            },
            None => None,
        };
        (delivered, is_new, query)
    }

    /// Takes one reply sample of a recovery or bootstrap query: routes it
    /// like a live sample when its key expression intersects the
    /// subscription's, drops it otherwise. Returns the samples to hand to
    /// the consumer and whether a new source was observed.
    pub fn on_reply(&mut self, sample: Sample) -> (r: (Vec<Sample>, bool))
        requires
            old(self).inv(),
        ensures
            final(self).inv(),
            final(self).key_expr@ == old(self).key_expr@,
            final(self).spec_wait() == old(self).spec_wait(),
            ({
                let (m2, d, new) = reply_spec(
                    old(self).spec_states(),
                    old(self).spec_wait(),
                    old(self).key_expr@,
                    sample@,
                );
                &&& final(self).spec_states() == m2
                &&& samples_view(r.0@) == d
                &&& r.1 == new
            }),
    {
        let ke = self.key_expr.clone();
        let wait = self.wait;
        handle_reply(&mut self.states, wait, ke.as_str(), sample)
    }

    /// Takes the termination of a recovery query for one source, whether
    /// by completion, timeout or cancellation: drops the in-flight count
    /// and, on permanent loss, flushes the buffered suffix in ascending
    /// order. The returned samples go to the consumer; when they are
    /// non-empty, the runtime logs the loss event.
    pub fn on_query_end(&mut self, source_id: u64) -> (r: Vec<Sample>)
        requires
            old(self).inv(),
        ensures
            final(self).inv(),
            final(self).key_expr@ == old(self).key_expr@,
            final(self).spec_wait() == old(self).spec_wait(),
            final(self).spec_states() == query_end_spec(
                old(self).spec_states(),
                source_id,
                old(self).spec_wait(),
            ).0,
            samples_view(r@) == query_end_spec(
                old(self).spec_states(),
                source_id,
                old(self).spec_wait(),
            ).1,
    {
        let wait = self.wait;
        self.states.end_query_flush(source_id, wait)
    }

    /// Takes the termination of the history bootstrap query: flushes every
    /// source's buffered window in ascending key order, clears the wait
    /// flag, and returns the flushed samples together with every known
    /// source id, for which the runtime starts periodic probes.
    pub fn on_bootstrap_end(&mut self) -> (r: (Vec<Sample>, Vec<u64>))
        requires
            old(self).inv(),
        ensures
            final(self).inv(),
            final(self).key_expr@ == old(self).key_expr@,
            !final(self).spec_wait(),
            final(self).spec_states() == bootstrap_flushed(old(self).spec_states()),
            samples_view(r.0@) == flush_concat(old(self).spec_states(), r.1@),
            forall|i: int, j: int| 0 <= i < j < r.1@.len() ==> r.1@[i] != r.1@[j],
            forall|k: u64| #[trigger]
                old(self).spec_states().contains_key(k) <==> r.1@.contains(k),
    {
        let r = self.states.end_bootstrap_flush();
        self.wait = false;
        r
    }

    /// Takes a periodic-probe tick for one source: counts a query in
    /// flight and returns the selector of the tail-recovery query to
    /// issue, asking for everything after the last delivered number.
    pub fn on_periodic_tick(&mut self, source_id: u64) -> (r: Option<Selector>)
        requires
            old(self).inv(),
        ensures
            final(self).inv(),
            final(self).key_expr@ == old(self).key_expr@,
            final(self).spec_wait() == old(self).spec_wait(),
            ({
                let m0 = old(self).spec_states();
                match periodic_query_spec(m0, source_id) {
                    Some(start) => r is Some && r->0.key_expr@ == recovery_key_expr(
                        source_id,
                        old(self).key_expr@,
                    ) && r->0.spec_value_selector() == range_str(Some(start), None)
                        && final(self).spec_states() == m0.insert(
                        source_id,
                        inc_queries(m0[source_id]),
                    ),
                    None => r is None && final(self).spec_states() == m0,
                }
            }),
    {
        match self.states.begin_periodic_query(source_id) {
            Some(start) => Some(recovery_selector(source_id, self.key_expr.as_str(), start)),
            None => None,
        }
    }

    /// The last delivered sequence number of a source, if any.
    pub fn last_delivered_sn(&self, source_id: u64) -> (r: Option<u64>)
        requires
            self.inv(),
        ensures
            self.spec_states().contains_key(source_id) ==> r == self.spec_states()[
                source_id].last,
            !self.spec_states().contains_key(source_id) ==> r is None,
    {
        self.states.last_delivered(source_id)
    }

    /// How many samples a source has buffered.
    pub fn pending_len(&self, source_id: u64) -> (r: usize)
        requires
            self.inv(),
        ensures
            self.spec_states().contains_key(source_id) ==> r == self.spec_states()[
                source_id].pending.len(),
            !self.spec_states().contains_key(source_id) ==> r == 0,
    {
        self.states.pending_len(source_id)
    }

    /// How many recovery queries are in flight for a source.
    pub fn pending_queries(&self, source_id: u64) -> (r: u64)
        requires
            self.inv(),
        ensures
            self.spec_states().contains_key(source_id) ==> r == self.spec_states()[
                source_id].pending_queries,
            !self.spec_states().contains_key(source_id) ==> r == 0,
    {
        self.states.pending_queries_of(source_id)
    }

    /// Closes this subscriber, releasing its state. Undeclaring the
    /// underlying subscription and cancelling outstanding queries and
    /// timers is the runtime's affair.
    pub fn close(self) {
    }
}

} // verus!
