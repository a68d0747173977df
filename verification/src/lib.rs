//! Reliability and reassembly core of a pub/sub messaging client.
//!
//! Two subsystems make up the crate:
//!
//! * the fragment layer: a modular sequence-number counter ([`seq_num::SeqNum`])
//!   and a per-link receive buffer ([`defrag::DefragBuffer`]) that rebuilds a
//!   whole message from an ordered run of transport fragments;
//! * the reliable-subscriber overlay: a per-source reorder window
//!   ([`state::SourceStates`]), a sample router ([`router`]) that merges live
//!   and recovered samples into a gap-free in-order stream, and the recovery
//!   machinery ([`recovery`]) that composes range-scoped recovery queries and
//!   flushes buffered tails when a query ends.
//!
//! The crate holds the protocol decisions only; issuing queries, timers and
//! the transport itself are the caller's affair.

pub mod buffers;
pub mod decimal;
pub mod defrag;
pub mod errors;
pub mod range;
pub mod recovery;
pub mod router;
pub mod sample;
pub mod selector;
pub mod seq_num;
pub mod state;
pub mod subscriber;
