//! Trusted view of the transport buffer and codec types.
//!
//! The fragment layer accumulates reference-counted byte slices in a
//! `zenoh_buffers::ZBuf` and decodes a whole message out of it with the
//! reliability-parameterised codec of `zenoh_codec`. Verus sees those types
//! through the declarations and wrappers below; every contract here is
//! checked against the crates' sources, not proved.

use vstd::prelude::*;
use zenoh_buffers::reader::HasReader;
use zenoh_codec::{RCodec, Zenoh080Reliability};

verus! {

#[verifier::external_type_specification]
#[verifier::external_body]
pub struct ExZBuf(zenoh_buffers::ZBuf);

#[verifier::external_type_specification]
#[verifier::external_body]
pub struct ExZSlice(zenoh_buffers::ZSlice);

#[verifier::external_type_specification]
#[verifier::external_body]
pub struct ExNetworkMessage(zenoh_protocol::network::NetworkMessage);

/// The bytes a `ZBuf` holds: the concatenation of its slices.
pub uninterp spec fn zbuf_bytes(b: zenoh_buffers::ZBuf) -> Seq<u8>;

/// The bytes a `ZSlice` holds.
pub uninterp spec fn zslice_bytes(s: zenoh_buffers::ZSlice) -> Seq<u8>;

/// Whether the reliability-parameterised codec reads a whole message from
/// the front of the given bytes. The codec is deterministic in the bytes and
/// the reliability alone.
pub uninterp spec fn can_decode(reliable: bool, bytes: Seq<u8>) -> bool;

/// Relies on `ZBuf::default`: a fresh buffer holds no slice, so no bytes.
#[verifier::external_body]
pub(crate) fn zbuf_empty() -> (r: zenoh_buffers::ZBuf)
    ensures
        zbuf_bytes(r) == Seq::<u8>::empty(),
{
    zenoh_buffers::ZBuf::default()
}

/// Relies on `ZBuf::clear`: it drops every slice of the buffer.
#[verifier::external_body]
pub(crate) fn zbuf_clear(b: &mut zenoh_buffers::ZBuf)
    ensures
        zbuf_bytes(*final(b)) == Seq::<u8>::empty(),
{
    b.clear()
}

/// Relies on `ZBuf::push_zslice`: it appends the slice's bytes (an empty
/// slice is skipped, which appends nothing).
#[verifier::external_body]
pub(crate) fn zbuf_push_zslice(b: &mut zenoh_buffers::ZBuf, s: zenoh_buffers::ZSlice)
    ensures
        zbuf_bytes(*final(b)) == zbuf_bytes(*old(b)) + zslice_bytes(s),
{
    b.push_zslice(s)
}

/// Relies on `ZSlice::len`: the slice's range is `start..end` within its
/// backing buffer, and `len` returns `end - start`.
#[verifier::external_body]
pub(crate) fn zslice_len(s: &zenoh_buffers::ZSlice) -> (r: usize)
    ensures
        r == zslice_bytes(*s).len(),
{
    s.len()
}

/// Relies on `Zenoh080Reliability::read` (via `RCodec` for `NetworkMessage`)
/// and on `ZBuf::reader`: the codec reads one message from the front of the
/// buffer's bytes, deterministically in the bytes and the reliability, and
/// returns an error exactly when no whole message can be read.
#[verifier::external_body]
pub(crate) fn decode_message(reliable: bool, b: &zenoh_buffers::ZBuf) -> (r: Option<
    zenoh_protocol::network::NetworkMessage,
>)
    ensures
        r is Some <==> can_decode(reliable, zbuf_bytes(*b)),
{
    let reliability = if reliable {
        zenoh_protocol::core::Reliability::Reliable
    } else {
        zenoh_protocol::core::Reliability::BestEffort
    };
    let mut reader = b.reader();
    let rcodec = Zenoh080Reliability::new(reliability);
    let res: Result<zenoh_protocol::network::NetworkMessage, _> = rcodec.read(&mut reader);
    res.ok()
}

} // verus!
