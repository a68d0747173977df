//! Per-link receive buffer that rebuilds a whole message from an ordered
//! run of transport fragments.
//!
//! Fragments must arrive with contiguous sequence numbers; a wrong number or
//! a byte-capacity overflow clears the buffer and surfaces an error, because
//! fragment streams have no recovery below this layer. A terminal decode
//! consumes the accumulated bytes in either outcome.

use vstd::prelude::*;

use crate::buffers::{
    can_decode, decode_message, zbuf_bytes, zbuf_clear, zbuf_empty, zbuf_push_zslice, zslice_bytes,
    zslice_len,
};
use crate::errors::FragError;
use crate::seq_num::SeqNum;

verus! {

/// The reliability profile a link was declared with; it selects the decoder
/// variant used by the terminal decode.
#[derive(Clone, Copy, Debug, PartialEq, Eq, Structural)]
pub enum Reliability {
    Reliable,
    BestEffort,
}

impl Reliability {
    pub open spec fn is_reliable(self) -> bool {
        self is Reliable
    }
}

/// The mathematical state of a defragmentation buffer.
pub ghost struct DefragModel {
    pub reliable: bool,
    pub next_sn: u64,
    pub resolution: u64,
    pub capacity: nat,
    pub bytes: Seq<u8>,
}

impl DefragModel {
    pub open spec fn wf(self) -> bool {
        &&& 2 <= self.resolution
        &&& self.next_sn < self.resolution
        &&& self.bytes.len() <= self.capacity
    }
}

/// One `push` on the model: a wrong sequence number or an overflow clears
/// the accumulated bytes and fails; otherwise the fragment's bytes are
/// appended and the expected number advances by one, wrapping.
pub open spec fn push_spec(m: DefragModel, sn: u64, frag: Seq<u8>) -> (DefragModel, bool) {
    if sn != m.next_sn {
        (DefragModel { bytes: Seq::empty(), ..m }, false)
    } else if m.bytes.len() + frag.len() > m.capacity {
        (DefragModel { bytes: Seq::empty(), ..m }, false)
    } else {
        (
            DefragModel {
                bytes: m.bytes + frag,
                next_sn: (((m.next_sn + 1) % (m.resolution as int)) as u64),
                ..m
            },
            true,
        )
    }
}

/// Pushing a run of fragments, each under the expected sequence number of
/// the state it meets.
pub open spec fn push_run(m: DefragModel, frags: Seq<Seq<u8>>) -> (DefragModel, bool)
    decreases frags.len(),
{
    if frags.len() == 0 {
        (m, true)
    } else {
        let (m1, ok1) = push_spec(m, m.next_sn, frags[0]);
        let (m2, ok2) = push_run(m1, frags.subrange(1, frags.len() as int));
        (m2, ok1 && ok2)
    }
}

pub open spec fn total_len(frags: Seq<Seq<u8>>) -> nat
    decreases frags.len(),
{
    if frags.len() == 0 {
        0
    } else {
        frags[0].len() + total_len(frags.subrange(1, frags.len() as int))
    }
}

pub open spec fn concat_frags(frags: Seq<Seq<u8>>) -> Seq<u8>
    decreases frags.len(),
{
    if frags.len() == 0 {
        Seq::empty()
    } else {
        frags[0] + concat_frags(frags.subrange(1, frags.len() as int))
    }
}

/// A run of fragments with contiguous sequence numbers whose lengths sum to
/// at most the capacity all land in the buffer: every push succeeds and the
/// buffer ends up holding exactly their concatenation, which is what a
/// terminal decode is then handed.
pub proof fn lemma_contiguous_pushes_accumulate(m: DefragModel, frags: Seq<Seq<u8>>)
    requires
        m.wf(),
        m.bytes == Seq::<u8>::empty(),
        total_len(frags) <= m.capacity,
    ensures
        push_run(m, frags).1,
        push_run(m, frags).0.bytes == concat_frags(frags),
        push_run(m, frags).0.wf(),
    decreases frags.len(),
{
    lemma_push_run_appends(m, frags);
    assert(Seq::<u8>::empty() + concat_frags(frags) =~= concat_frags(frags));
}

/// Pushing a run under the expected numbers appends the concatenation of the
/// fragments to whatever the buffer already holds, so long as the total
/// stays within capacity.
proof fn lemma_push_run_appends(m: DefragModel, frags: Seq<Seq<u8>>)
    requires
        m.wf(),
        m.bytes.len() + total_len(frags) <= m.capacity,
    ensures
        push_run(m, frags).1,
        push_run(m, frags).0.bytes == m.bytes + concat_frags(frags),
        push_run(m, frags).0.wf(),
    decreases frags.len(),
{
    if frags.len() == 0 {
        assert(m.bytes + concat_frags(frags) =~= m.bytes);
    } else {
        let (m1, ok1) = push_spec(m, m.next_sn, frags[0]);
        assert(ok1);
        let rest = frags.subrange(1, frags.len() as int);
        lemma_push_run_appends(m1, rest);
        assert((m.bytes + frags[0]) + concat_frags(rest) =~= m.bytes + (frags[0] + concat_frags(
            rest,
        )));
    }
}

/// A push whose sequence number is not the expected one fails, leaves the
/// buffer empty, and does not move the expected number.
pub proof fn lemma_out_of_sequence_clears(m: DefragModel, sn: u64, frag: Seq<u8>)
    requires
        sn != m.next_sn,
    ensures
        !push_spec(m, sn, frag).1,
        push_spec(m, sn, frag).0.bytes == Seq::<u8>::empty(),
        push_spec(m, sn, frag).0.next_sn == m.next_sn,
{
}

/// Ordered accumulation of fragment slices with byte-capacity enforcement
/// and a terminal decode into a whole message.
pub struct DefragBuffer {
    reliability: Reliability,
    sn: SeqNum,
    capacity: usize,
    len: usize,
    buffer: zenoh_buffers::ZBuf,
}

impl View for DefragBuffer {
    type V = DefragModel;

    closed spec fn view(&self) -> DefragModel {
        DefragModel {
            reliable: self.reliability.is_reliable(),
            next_sn: self.sn.spec_get(),
            resolution: self.sn.spec_resolution(),
            capacity: self.capacity as nat,
            bytes: zbuf_bytes(self.buffer),
        }
    }
}

impl DefragBuffer {
    /// The buffer's invariant: a well-formed counter and an accumulated
    /// length that tracks the held bytes and stays within capacity.
    pub closed spec fn inv(self) -> bool {
        &&& self.sn.wf()
        &&& self.len == zbuf_bytes(self.buffer).len()
        &&& self.len <= self.capacity
    }

    /// Makes an empty buffer for a link with the given reliability profile,
    /// counter resolution and byte capacity. Fails as the counter's
    /// constructor does.
    pub fn make(reliability: Reliability, sn_resolution: u64, capacity: usize) -> (r: Result<
        DefragBuffer,
        FragError,
    >)
        ensures
            sn_resolution < 2 ==> r == Result::<DefragBuffer, FragError>::Err(
                FragError::InvalidResolution { resolution: sn_resolution },
            ),
            sn_resolution >= 2 ==> r is Ok,
            r is Ok ==> {
                let b = r->Ok_0;
                &&& b.inv()
                &&& b@.reliable == reliability.is_reliable()
                &&& b@.next_sn == 0
                &&& b@.resolution == sn_resolution
                &&& b@.capacity == capacity
                &&& b@.bytes == Seq::<u8>::empty()
            },
    {
        let sn = match SeqNum::make(0, sn_resolution) {
            Ok(sn) => sn,
            Err(e) => {
                return Err(e);
            },
        };
        Ok(DefragBuffer { reliability, sn, capacity, len: 0, buffer: zbuf_empty() })
    }

    /// Whether the buffer holds no bytes.
    pub fn is_empty(&self) -> (r: bool)
        requires
            self.inv(),
        ensures
            r == (self@.bytes.len() == 0),
    {
        self.len == 0
    }

    /// Drops the accumulated bytes; the expected sequence number stays.
    pub fn clear(&mut self)
        requires
            old(self).inv(),
        ensures
            final(self).inv(),
            final(self)@ == (DefragModel { bytes: Seq::<u8>::empty(), ..old(self)@ }),
    {
        self.len = 0;
        zbuf_clear(&mut self.buffer);
    }

    /// Forcibly resets the expected sequence number, used when the link
    /// signals a resync. The held bytes stay.
    pub fn sync(&mut self, sn: u64) -> (r: Result<(), FragError>)
        requires
            old(self).inv(),
        ensures
            final(self).inv(),
            sn < old(self)@.resolution ==> r is Ok && final(self)@ == (DefragModel {
                next_sn: sn,
                ..old(self)@
            }),
            sn >= old(self)@.resolution ==> r == Result::<(), FragError>::Err(
                FragError::ResyncOutOfRange { sn, resolution: old(self)@.resolution },
            ) && final(self)@ == old(self)@,
    {
        self.sn.set(sn)
    }

    /// Accepts the next fragment: behaves exactly as [`push_spec`] on the
    /// buffer's model, reporting which failure cleared the buffer.
    pub fn push(&mut self, sn: u64, zslice: zenoh_buffers::ZSlice) -> (r: Result<(), FragError>)
        requires
            old(self).inv(),
        ensures
            final(self).inv(),
            (final(self)@, r is Ok) == push_spec(old(self)@, sn, zslice_bytes(zslice)),
            sn != old(self)@.next_sn ==> r == Result::<(), FragError>::Err(
                FragError::OutOfSequence { expected: old(self)@.next_sn, received: sn },
            ),
            sn == old(self)@.next_sn && old(self)@.bytes.len() + zslice_bytes(zslice).len() > old(
                self,
            )@.capacity ==> r == Result::<(), FragError>::Err(
                FragError::Overflow { capacity: old(self).spec_capacity() },
            ),
    {
        if sn != self.sn.get() {
            self.clear();
            return Err(FragError::OutOfSequence { expected: self.sn.get(), received: sn });
        }
        let slen = zslice_len(&zslice);
        if slen > self.capacity - self.len {
            self.clear();
            return Err(FragError::Overflow { capacity: self.capacity });
        }
        self.len = self.len + slen;
        zbuf_push_zslice(&mut self.buffer, zslice);
        self.sn.increment();
        Ok(())
    }

    /// Attempts the terminal decode of the accumulated bytes under the
    /// link's reliability profile. Succeeds exactly when the codec reads a
    /// whole message from them; the buffer is cleared in either outcome,
    /// because a failed decode leaves the bytes permanently unusable.
    pub fn defragment(&mut self) -> (r: Option<zenoh_protocol::network::NetworkMessage>)
        requires
            old(self).inv(),
        ensures
            final(self).inv(),
            final(self)@ == (DefragModel { bytes: Seq::<u8>::empty(), ..old(self)@ }),
            r is Some <==> can_decode(old(self)@.reliable, old(self)@.bytes),
    {
        let res = decode_message(matches!(self.reliability, Reliability::Reliable), &self.buffer);
        self.clear();
        res
    }

    pub closed spec fn spec_capacity(self) -> usize {
        self.capacity
    }
}

} // verus!
