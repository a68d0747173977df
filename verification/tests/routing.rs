use reliable_sub::defrag::Reliability;
use reliable_sub::sample::Sample;
use reliable_sub::subscriber::{
    Locality, NBFTReliableSubscriber, NBFTReliableSubscriberBuilder, QueryTarget,
};

fn subscriber(history: bool) -> NBFTReliableSubscriber {
    let b = NBFTReliableSubscriberBuilder::new("test/**".to_string()).history(history);
    let (sub, _handler, boot) = NBFTReliableSubscriber::new(b).unwrap();
    assert_eq!(boot.is_some(), history);
    sub
}

fn sample(id: u64, sn: u64) -> Sample {
    Sample::new("test/a".to_string(), vec![sn as u8], Some(id), Some(sn))
}

fn sns(delivered: &[Sample]) -> Vec<u64> {
    delivered.iter().map(|s| s.source_sn.unwrap()).collect()
}

#[test]
fn builder_defaults_and_setters() {
    let b = NBFTReliableSubscriberBuilder::new("test/**".to_string());
    assert_eq!(b.reliability, Reliability::BestEffort);
    assert_eq!(b.origin, Locality::Any);
    assert_eq!(b.query_target, QueryTarget::BestMatching);
    assert_eq!(b.query_timeout_ms, 10000);
    assert_eq!(b.period_ms, None);
    assert!(!b.history);
    let b = b
        .reliable()
        .allowed_origin(Locality::Remote)
        .query_target(QueryTarget::All)
        .query_timeout(500)
        .periodic_queries(Some(1000))
        .history(true);
    assert_eq!(b.reliability, Reliability::Reliable);
    assert_eq!(b.origin, Locality::Remote);
    assert_eq!(b.query_target, QueryTarget::All);
    assert_eq!(b.query_timeout_ms, 500);
    assert_eq!(b.period_ms, Some(1000));
    assert!(b.history);
    let b = b.best_effort().reliability(Reliability::Reliable);
    assert_eq!(b.reliability, Reliability::Reliable);
}

#[test]
fn builder_carries_handler() {
    let b = NBFTReliableSubscriberBuilder::new("test/**".to_string()).callback(7u32);
    assert_eq!(b.handler, 7);
    let b = b.with("receiver");
    assert_eq!(b.handler, "receiver");
    let b = b.callback_mut(1.max(2));
    assert_eq!(b.handler, 2);
}

#[test]
fn new_rejects_invalid_key_expression() {
    let b = NBFTReliableSubscriberBuilder::new("test//bad".to_string());
    assert!(NBFTReliableSubscriber::new(b).is_err());
}

#[test]
fn in_order_live_only() {
    // Publisher 1 emits 1, 2, 3: each sample is delivered at once, no
    // query is issued, nothing is ever buffered.
    let mut sub = subscriber(false);
    for sn in 1..=3u64 {
        let (d, new_source, query) = sub.on_live_sample(sample(1, sn));
        assert_eq!(sns(&d), vec![sn]);
        assert_eq!(new_source, sn == 1);
        assert!(query.is_none());
        assert_eq!(sub.pending_len(1), 0);
    }
    assert_eq!(sub.last_delivered_sn(1), Some(3));
}

#[test]
fn single_gap_reactive_recovery() {
    // Publisher 1 emits 1, 2, 4: the router delivers 1 and 2, buffers 4,
    // and issues a query for 3 on. The reply with 3 releases 3 and 4.
    let mut sub = subscriber(false);
    let (d, _, q) = sub.on_live_sample(sample(1, 1));
    assert_eq!(sns(&d), vec![1]);
    assert!(q.is_none());
    let (d, _, q) = sub.on_live_sample(sample(1, 2));
    assert_eq!(sns(&d), vec![2]);
    assert!(q.is_none());
    let (d, _, q) = sub.on_live_sample(sample(1, 4));
    assert_eq!(d.len(), 0);
    assert_eq!(sub.pending_len(1), 1);
    let q = q.expect("a reactive recovery query is owed");
    assert_eq!(q.key_expr, "1/test/**");
    assert_eq!(q.value_selector(), "_sn=3..");
    assert_eq!(sub.pending_queries(1), 1);
    // While the query is in flight, another gap sample launches no second
    // reactive query.
    let (d, _, q2) = sub.on_live_sample(sample(1, 5));
    assert_eq!(d.len(), 0);
    assert!(q2.is_none());
    // The reply releases the buffered tail in order.
    let (d, _) = sub.on_reply(sample(1, 3));
    assert_eq!(sns(&d), vec![3, 4, 5]);
    assert_eq!(sub.last_delivered_sn(1), Some(5));
    assert_eq!(sub.pending_len(1), 0);
}

#[test]
fn permanent_loss_flushes_tail() {
    // Publisher 1 emits 1, 2, 4 and the recovery query times out: the
    // consumer sees 1, 2, then on query termination the flushed 4.
    let mut sub = subscriber(false);
    sub.on_live_sample(sample(1, 1));
    sub.on_live_sample(sample(1, 2));
    let (_, _, q) = sub.on_live_sample(sample(1, 4));
    assert!(q.is_some());
    let flushed = sub.on_query_end(1);
    assert_eq!(sns(&flushed), vec![4]);
    assert_eq!(sub.last_delivered_sn(1), Some(4));
    assert_eq!(sub.pending_len(1), 0);
    assert_eq!(sub.pending_queries(1), 0);
    // 3 can never be delivered after the loss flush.
    let (d, _, _) = sub.on_live_sample(sample(1, 3));
    assert_eq!(d.len(), 0);
}

#[test]
fn query_end_without_pending_is_silent() {
    let mut sub = subscriber(false);
    sub.on_live_sample(sample(1, 1));
    let flushed = sub.on_query_end(1);
    assert_eq!(flushed.len(), 0);
    assert_eq!(sub.last_delivered_sn(1), Some(1));
}

#[test]
fn bootstrap_merge() {
    // History is requested: live samples 5 and 6 arrive while the
    // bootstrap query is in flight, the bootstrap replies carry 1 to 4.
    // On bootstrap termination the consumer sees 1 to 6, in order.
    let mut sub = subscriber(true);
    assert!(sub.is_waiting());
    let (d, _, q) = sub.on_live_sample(sample(1, 5));
    assert_eq!(d.len(), 0);
    assert!(q.is_none());
    let (d, _, _) = sub.on_live_sample(sample(1, 6));
    assert_eq!(d.len(), 0);
    for sn in 1..=4u64 {
        let (d, _) = sub.on_reply(sample(1, sn));
        assert_eq!(d.len(), 0);
    }
    assert_eq!(sub.pending_len(1), 6);
    let (flushed, ids) = sub.on_bootstrap_end();
    assert_eq!(sns(&flushed), vec![1, 2, 3, 4, 5, 6]);
    assert_eq!(ids, vec![1]);
    assert!(!sub.is_waiting());
    assert_eq!(sub.last_delivered_sn(1), Some(6));
    // Live traffic resumes seamlessly after the flush.
    let (d, _, q) = sub.on_live_sample(sample(1, 7));
    assert_eq!(sns(&d), vec![7]);
    assert!(q.is_none());
}

#[test]
fn bootstrap_selector_shape() {
    let b = NBFTReliableSubscriberBuilder::new("test/**".to_string()).history(true);
    let (_sub, _h, boot) = NBFTReliableSubscriber::new(b).unwrap();
    let boot = boot.unwrap();
    assert_eq!(boot.key_expr, "*/test/**");
    assert_eq!(boot.value_selector(), "_sn=0..");
}

#[test]
fn two_sources_interleaved() {
    // Two publishers emit 1, 2, 3 each, arrivals interleaved: each
    // source's samples come out in its own order.
    let mut sub = subscriber(false);
    let mut seen_one: Vec<u64> = vec![];
    let mut seen_two: Vec<u64> = vec![];
    for sn in 1..=3u64 {
        for id in [1u64, 2u64] {
            let (d, _, q) = sub.on_live_sample(sample(id, sn));
            assert!(q.is_none());
            for s in &d {
                if s.source_id == Some(1) {
                    seen_one.push(s.source_sn.unwrap());
                } else {
                    seen_two.push(s.source_sn.unwrap());
                }
            }
        }
    }
    assert_eq!(seen_one, vec![1, 2, 3]);
    assert_eq!(seen_two, vec![1, 2, 3]);
    assert_eq!(sub.last_delivered_sn(1), Some(3));
    assert_eq!(sub.last_delivered_sn(2), Some(3));
}

#[test]
fn duplicates_deliver_once() {
    // Replaying the same sample yields exactly one delivery.
    let mut sub = subscriber(false);
    let (d, _, _) = sub.on_live_sample(sample(1, 1));
    assert_eq!(sns(&d), vec![1]);
    for _ in 0..4 {
        let (d, _, q) = sub.on_live_sample(sample(1, 1));
        assert_eq!(d.len(), 0);
        assert!(q.is_none());
    }
    let (d, _) = sub.on_reply(sample(1, 1));
    assert_eq!(d.len(), 0);
    assert_eq!(sub.last_delivered_sn(1), Some(1));
    assert_eq!(sub.pending_len(1), 0);
}

#[test]
fn sample_without_source_info_bypasses_state() {
    let mut sub = subscriber(false);
    let bare = Sample::new("test/a".to_string(), vec![9], None, None);
    let (d, new_source, q) = sub.on_live_sample(bare);
    assert_eq!(d.len(), 1);
    assert_eq!(d[0].payload, vec![9]);
    assert!(!new_source);
    assert!(q.is_none());
}

#[test]
fn wait_withholds_stamped_samples_only() {
    // While the bootstrap flag is up, source-stamped samples are withheld;
    // a sample without source info still goes straight through.
    let mut sub = subscriber(true);
    let (d, _, _) = sub.on_live_sample(sample(1, 1));
    assert_eq!(d.len(), 0);
    let bare = Sample::new("test/a".to_string(), vec![9], None, None);
    let (d, _, _) = sub.on_live_sample(bare);
    assert_eq!(d.len(), 1);
}

#[test]
fn replies_outside_subscription_are_dropped() {
    // A reply whose key expression does not intersect the subscription's
    // is dropped without touching any state.
    let mut sub = subscriber(false);
    let stray = Sample::new("other/x".to_string(), vec![1], Some(1), Some(1));
    let (d, new_source) = sub.on_reply(stray);
    assert_eq!(d.len(), 0);
    assert!(!new_source);
    assert_eq!(sub.last_delivered_sn(1), None);
    // An intersecting reply is routed like a live sample.
    let (d, new_source) = sub.on_reply(sample(1, 1));
    assert_eq!(sns(&d), vec![1]);
    assert!(new_source);
}

#[test]
fn periodic_tick_composes_tail_query() {
    let mut sub = subscriber(false);
    // Unknown source: no query.
    assert!(sub.on_periodic_tick(1).is_none());
    sub.on_live_sample(sample(1, 2));
    let q = sub.on_periodic_tick(1).expect("tail query owed");
    assert_eq!(q.key_expr, "1/test/**");
    assert_eq!(q.value_selector(), "_sn=3..");
    assert_eq!(sub.pending_queries(1), 1);
    let flushed = sub.on_query_end(1);
    assert_eq!(flushed.len(), 0);
    assert_eq!(sub.pending_queries(1), 0);
}

#[test]
fn buffering_the_same_sn_twice_keeps_one_entry() {
    // Under the bootstrap flag, a sample re-buffered under an already
    // buffered sequence number replaces the held one instead of piling up.
    let mut sub = subscriber(true);
    sub.on_live_sample(sample(1, 5));
    sub.on_live_sample(sample(1, 5));
    assert_eq!(sub.pending_len(1), 1);
    let (flushed, _ids) = sub.on_bootstrap_end();
    assert_eq!(sns(&flushed), vec![5]);
}

#[test]
fn close_consumes_the_subscriber() {
    let sub = subscriber(false);
    sub.close();
}
