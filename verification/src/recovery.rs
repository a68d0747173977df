//! Recovery queries: range-scoped requests for missing sequence numbers,
//! addressed to the originating publisher, and the routing of their reply
//! samples.
//!
//! A recovery query's selector is `<source_id>/<subscription_keyexpr>` with
//! the parameter `_sn=<first_missing>..`; the history bootstrap queries
//! `*/<subscription_keyexpr>` with `_sn=0..`. Each reply sample that
//! intersects the subscription's key expression is routed through the
//! sample router exactly as a live sample; other replies are dropped.

use vstd::prelude::*;

use crate::decimal::{dec_digits, fmt_u64};
use crate::range::{range_str, seq_num_range};
use crate::router::{handle_spec, query_end_spec, SourceStates};
use crate::sample::{samples_view, Sample, SampleModel};
use crate::selector::{is_keyexpr, ke_intersects, keyexpr_intersects, Selector};
use crate::state::{src_inv, SourceModel};

verus! {

/// The key-expression part of a recovery query's selector: the source id
/// rendered as a single decimal segment, then the subscription's key
/// expression.
pub open spec fn recovery_key_expr(source_id: u64, sub_key_expr: Seq<char>) -> Seq<char> {
    dec_digits(source_id as nat) + seq!['/'] + sub_key_expr
}

/// The key-expression part of the history bootstrap's selector: a wildcard
/// segment, then the subscription's key expression.
pub open spec fn bootstrap_key_expr(sub_key_expr: Seq<char>) -> Seq<char> {
    seq!['*', '/'] + sub_key_expr
}

/// Composes the selector of a recovery query for one source, asking for
/// sequence numbers from `start` on, open-ended.
pub fn recovery_selector(source_id: u64, sub_key_expr: &str, start: u64) -> (r: Selector)
    ensures
        r.key_expr@ == recovery_key_expr(source_id, sub_key_expr@),
        r.spec_value_selector() == range_str(Some(start), None),
{
    proof {
        reveal_strlit("/");
    }
    let mut ke = fmt_u64(source_id);
    ke.append("/");
    ke.append(sub_key_expr);
    let range = seq_num_range(Some(start), None);
    proof {
        assert("/"@ =~= seq!['/']);
        assert(ke@ =~= recovery_key_expr(source_id, sub_key_expr@));
    }
    Selector::from_key_expr(ke).with_value_selector(range.as_str())
}

/// Composes the history bootstrap's selector: a wildcard over all sources,
/// asking for every sequence number from zero on.
pub fn bootstrap_selector(sub_key_expr: &str) -> (r: Selector)
    ensures
        r.key_expr@ == bootstrap_key_expr(sub_key_expr@),
        r.spec_value_selector() == range_str(Some(0), None),
{
    proof {
        reveal_strlit("*/");
    }
    let mut ke = String::new();
    ke.append("*/");
    ke.append(sub_key_expr);
    let range = seq_num_range(Some(0), None);
    proof {
        assert("*/"@ =~= seq!['*', '/']);
        assert(ke@ =~= bootstrap_key_expr(sub_key_expr@));
    }
    Selector::from_key_expr(ke).with_value_selector(range.as_str())
}

/// What routing a reply does: a reply sample is routed like a live sample
/// when its key expression intersects the subscription's; otherwise it is
/// dropped and nothing changes.
pub open spec fn reply_spec(
    m: Map<u64, SourceModel>,
    wait: bool,
    sub_key_expr: Seq<char>,
    s: SampleModel,
) -> (Map<u64, SourceModel>, Seq<SampleModel>, bool) {
    if is_keyexpr(sub_key_expr) && is_keyexpr(s.key_expr) && ke_intersects(
        sub_key_expr,
        s.key_expr,
    ) {
        handle_spec(m, wait, s)
    } else {
        (m, Seq::<SampleModel>::empty(), false)
    }
}

/// Routes one reply sample of a recovery or bootstrap query: exactly
/// [`reply_spec`] on the table. Returns the samples to hand to the
/// consumer and whether a new source was observed.
pub fn handle_reply(states: &mut SourceStates, wait: bool, sub_key_expr: &str, sample: Sample) -> (r:
    (Vec<Sample>, bool))
    requires
        old(states).wf(),
        old(states).all_inv(),
    ensures
        final(states).wf(),
        final(states).all_inv(),
        ({
            let (m2, d, new) = reply_spec(old(states)@, wait, sub_key_expr@, sample@);
            &&& final(states)@ == m2
            &&& samples_view(r.0@) == d
            &&& r.1 == new
        }),
{
    if keyexpr_intersects(sub_key_expr, sample.key_expr.as_str()) {
        crate::router::handle_sample(states, wait, sample)
    } else {
        proof {
            assert(samples_view(Seq::<Sample>::empty()) =~= Seq::<SampleModel>::empty());
        }
        (Vec::new(), false)
    }
}

/// Permanent loss surfaces the buffered suffix in strictly ascending
/// sequence-number order, and the last delivered number never moves down:
/// what the flush at the end of a failed recovery query delivers.
pub proof fn lemma_flush_ascending(m: Map<u64, SourceModel>, id: u64, wait: bool)
    requires
        m.contains_key(id) ==> src_inv(m[id]),
    ensures
        ({
            let (m2, d) = query_end_spec(m, id, wait);
            &&& (forall|i: int, j: int|
                0 <= i < j < d.len() ==> d[i].source_sn->0 < d[j].source_sn->0)
            &&& (forall|i: int| 0 <= i < d.len() ==> d[i].source_sn is Some)
            &&& (m.contains_key(id) && m[id].last is Some ==> m2[id].last is Some
                && m2[id].last->0 >= m[id].last->0)
            &&& (m.contains_key(id) ==> forall|k: u64|
                k != id && #[trigger] m.contains_key(k) ==> m2.contains_key(k) && m2[k] == m[k])
        }),
{
    if m.contains_key(id) {
        let st = m[id];
        let d = query_end_spec(m, id, wait).1;
        if st.pending.len() > 0 && !wait {
            assert forall|i: int, j: int|
                0 <= i < j < d.len() implies d[i].source_sn->0 < d[j].source_sn->0 by {
                assert(d[i] == st.pending[i].1);
                assert(d[j] == st.pending[j].1);
                assert(st.pending[i].0 < st.pending[j].0);
            }
            assert forall|i: int| 0 <= i < d.len() implies d[i].source_sn is Some by {
                assert(d[i] == st.pending[i].1);
            }
            if st.last is Some {
                assert(st.pending.last().0 > st.last->0);
            }
        }
    }
}

} // verus!
