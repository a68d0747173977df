use reliable_sub::defrag::{DefragBuffer, Reliability};
use reliable_sub::errors::FragError;
use reliable_sub::seq_num::SeqNum;

use zenoh_buffers::writer::HasWriter;
use zenoh_buffers::ZSlice;
use zenoh_codec::{WCodec, Zenoh080};
use zenoh_protocol::network::{NetworkMessage, ResponseFinal};

fn slice(bytes: Vec<u8>) -> ZSlice {
    ZSlice::from(bytes)
}

#[test]
fn seq_num_make_rejects_small_resolution() {
    assert_eq!(
        SeqNum::make(0, 0),
        Err(FragError::InvalidResolution { resolution: 0 })
    );
    assert_eq!(
        SeqNum::make(0, 1),
        Err(FragError::InvalidResolution { resolution: 1 })
    );
    assert!(SeqNum::make(0, 2).is_ok());
}

#[test]
fn seq_num_make_rejects_initial_out_of_range() {
    assert_eq!(
        SeqNum::make(5, 4),
        Err(FragError::ResyncOutOfRange {
            sn: 5,
            resolution: 4
        })
    );
    assert_eq!(
        SeqNum::make(4, 4),
        Err(FragError::ResyncOutOfRange {
            sn: 4,
            resolution: 4
        })
    );
}

#[test]
fn seq_num_increment_wraps() {
    let mut sn = SeqNum::make(2, 4).unwrap();
    sn.increment();
    assert_eq!(sn.get(), 3);
    sn.increment();
    assert_eq!(sn.get(), 0);
}

#[test]
fn seq_num_set_checks_range() {
    let mut sn = SeqNum::make(0, 8).unwrap();
    assert!(sn.set(7).is_ok());
    assert_eq!(sn.get(), 7);
    assert_eq!(
        sn.set(8),
        Err(FragError::ResyncOutOfRange {
            sn: 8,
            resolution: 8
        })
    );
    assert_eq!(sn.get(), 7);
}

#[test]
fn seq_num_precedes_uses_half_window() {
    let sn = SeqNum::make(0, 16).unwrap();
    // Plain `<` would get the wrap wrong: 0 follows 15.
    assert!(sn.precedes(15, 0));
    assert!(!sn.precedes(0, 15));
    // Within the half window of 8.
    assert!(sn.precedes(0, 8));
    assert!(!sn.precedes(0, 9));
    assert!(!sn.precedes(3, 3));
}

#[test]
fn defrag_make_rejects_small_resolution() {
    assert_eq!(
        DefragBuffer::make(Reliability::Reliable, 1, 100).err(),
        Some(FragError::InvalidResolution { resolution: 1 })
    );
}

#[test]
fn defrag_out_of_sequence_clears_and_keeps_expectation() {
    let mut db = DefragBuffer::make(Reliability::Reliable, 1 << 28, 100).unwrap();
    db.push(0, slice(vec![1, 2, 3])).unwrap();
    assert!(!db.is_empty());
    // Wrong sequence number: the buffer is cleared, the error names both
    // numbers, and the expected number does not move.
    assert_eq!(
        db.push(5, slice(vec![4])),
        Err(FragError::OutOfSequence {
            expected: 1,
            received: 5
        })
    );
    assert!(db.is_empty());
    assert_eq!(
        db.push(0, slice(vec![9])),
        Err(FragError::OutOfSequence {
            expected: 1,
            received: 0
        })
    );
    assert!(db.push(1, slice(vec![9])).is_ok());
}

#[test]
fn defrag_overflow_on_third_fragment() {
    // Capacity 100: fragments of 40, 40 and 30 overflow on the third push,
    // and the terminal decode then sees an empty buffer and yields nothing.
    let mut db = DefragBuffer::make(Reliability::Reliable, 1 << 28, 100).unwrap();
    db.push(0, slice(vec![0u8; 40])).unwrap();
    db.push(1, slice(vec![0u8; 40])).unwrap();
    assert_eq!(
        db.push(2, slice(vec![0u8; 30])),
        Err(FragError::Overflow { capacity: 100 })
    );
    assert!(db.is_empty());
    assert!(db.defragment().is_none());
}

#[test]
fn defrag_exact_fill_succeeds() {
    let mut db = DefragBuffer::make(Reliability::Reliable, 1 << 28, 10).unwrap();
    db.push(0, slice(vec![0u8; 6])).unwrap();
    assert!(db.push(1, slice(vec![0u8; 4])).is_ok());
    assert_eq!(
        db.push(2, slice(vec![1])),
        Err(FragError::Overflow { capacity: 10 })
    );
}

#[test]
fn defrag_empty_fragment_advances_sn() {
    let mut db = DefragBuffer::make(Reliability::BestEffort, 1 << 28, 10).unwrap();
    db.push(0, slice(vec![])).unwrap();
    assert!(db.is_empty());
    assert!(db.push(1, slice(vec![7])).is_ok());
}

#[test]
fn defrag_sync_resets_expectation() {
    let mut db = DefragBuffer::make(Reliability::Reliable, 1 << 28, 10).unwrap();
    db.sync(5).unwrap();
    assert!(db.push(5, slice(vec![1])).is_ok());
    assert_eq!(
        db.sync(1 << 28),
        Err(FragError::ResyncOutOfRange {
            sn: 1 << 28,
            resolution: 1 << 28
        })
    );
}

#[test]
fn defrag_decodes_contiguous_fragments() {
    // A whole message encoded with the real codec, split in two fragments
    // pushed under contiguous sequence numbers, decodes again.
    let msg: NetworkMessage = ResponseFinal {
        rid: 42,
        ext_qos: Default::default(),
        ext_tstamp: None,
    }
    .into();
    let mut bytes: Vec<u8> = vec![];
    let mut writer = bytes.writer();
    Zenoh080.write(&mut writer, &msg).unwrap();
    assert!(bytes.len() >= 2);
    let cut = bytes.len() / 2;
    let first = bytes[..cut].to_vec();
    let second = bytes[cut..].to_vec();

    let mut db = DefragBuffer::make(Reliability::Reliable, 1 << 28, 1 << 16).unwrap();
    db.push(0, slice(first)).unwrap();
    db.push(1, slice(second)).unwrap();
    let out = db.defragment();
    assert!(out.is_some());
    assert!(db.is_empty());
}

#[test]
fn defrag_garbage_yields_no_message() {
    let mut db = DefragBuffer::make(Reliability::Reliable, 1 << 28, 100).unwrap();
    // 0x00 is no network message id, so the decode must fail.
    db.push(0, slice(vec![0x00, 0x00, 0x00])).unwrap();
    assert!(db.defragment().is_none());
    assert!(db.is_empty());
    // The expected sequence number survives the decode.
    assert!(db.push(1, slice(vec![1])).is_ok());
}
