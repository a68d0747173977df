//! A publication event: key expression, payload and source info.
//!
//! `source_id` identifies the originating publisher; `source_sn` is that
//! publisher's monotonic counter on its samples. Both are optional: a
//! publisher may opt out of reliability, in which case its samples bypass
//! the reorder machinery.

use vstd::prelude::*;

verus! {

/// The mathematical value of a sample.
pub ghost struct SampleModel {
    pub key_expr: Seq<char>,
    pub payload: Seq<u8>,
    pub source_id: Option<u64>,
    pub source_sn: Option<u64>,
}

/// A sample as delivered to and by the subscriber overlay.
#[derive(Clone, Debug)]
pub struct Sample {
    pub key_expr: String,
    pub payload: Vec<u8>,
    pub source_id: Option<u64>,
    pub source_sn: Option<u64>,
}

impl View for Sample {
    type V = SampleModel;

    open spec fn view(&self) -> SampleModel {
        SampleModel {
            key_expr: self.key_expr@,
            payload: self.payload@,
            source_id: self.source_id,
            source_sn: self.source_sn,
        }
    }
}

impl Sample {
    pub fn new(key_expr: String, payload: Vec<u8>, source_id: Option<u64>, source_sn: Option<
        u64,
    >) -> (r: Sample)
        ensures
            r@ == (SampleModel {
                key_expr: key_expr@,
                payload: payload@,
                source_id,
                source_sn,
            }),
    {
        Sample { key_expr, payload, source_id, source_sn }
    }
}

/// The mathematical values of a run of samples.
pub open spec fn samples_view(samples: Seq<Sample>) -> Seq<SampleModel> {
    samples.map(|i: int, s: Sample| s@)
}

} // verus!
