use reliable_sub::decimal::{fmt_u64, parse_u64};
use reliable_sub::errors::SelectorError;
use reliable_sub::range::{parse_seq_num_range, seq_num_range};

#[test]
fn fmt_u64_renders_decimal() {
    assert_eq!(fmt_u64(0), "0");
    assert_eq!(fmt_u64(7), "7");
    assert_eq!(fmt_u64(10), "10");
    assert_eq!(fmt_u64(1234567890), "1234567890");
    assert_eq!(fmt_u64(u64::MAX), "18446744073709551615");
}

#[test]
fn parse_u64_reads_decimal() {
    assert_eq!(parse_u64("0"), Some(0));
    assert_eq!(parse_u64("1234567890"), Some(1234567890));
    assert_eq!(parse_u64("0042"), Some(42));
    assert_eq!(parse_u64("18446744073709551615"), Some(u64::MAX));
}

#[test]
fn parse_u64_rejects_junk_and_overflow() {
    assert_eq!(parse_u64(""), None);
    assert_eq!(parse_u64("12a"), None);
    assert_eq!(parse_u64("-1"), None);
    assert_eq!(parse_u64("18446744073709551616"), None);
    assert_eq!(parse_u64("99999999999999999999"), None);
}

#[test]
fn seq_num_range_renders_all_shapes() {
    assert_eq!(seq_num_range(Some(5), None), "_sn=5..");
    assert_eq!(seq_num_range(Some(5), Some(10)), "_sn=5..10");
    assert_eq!(seq_num_range(None, Some(10)), "_sn=..10");
    assert_eq!(seq_num_range(None, None), "_sn=..");
    assert_eq!(seq_num_range(Some(0), None), "_sn=0..");
}

#[test]
fn seq_num_range_round_trips_some_some() {
    let s = seq_num_range(Some(3), Some(17));
    assert_eq!(parse_seq_num_range(&s), Ok((Some(3), Some(17))));
}

#[test]
fn seq_num_range_round_trips_some_none() {
    let s = seq_num_range(Some(3), None);
    assert_eq!(parse_seq_num_range(&s), Ok((Some(3), None)));
}

#[test]
fn seq_num_range_round_trips_none_some() {
    let s = seq_num_range(None, Some(17));
    assert_eq!(parse_seq_num_range(&s), Ok((None, Some(17))));
}

#[test]
fn seq_num_range_round_trips_none_none() {
    let s = seq_num_range(None, None);
    assert_eq!(parse_seq_num_range(&s), Ok((None, None)));
}

#[test]
fn seq_num_range_round_trips_extremes() {
    let s = seq_num_range(Some(0), Some(u64::MAX));
    assert_eq!(parse_seq_num_range(&s), Ok((Some(0), Some(u64::MAX))));
}

#[test]
fn parse_seq_num_range_rejects_malformed() {
    let e = Err(SelectorError::InvalidSeqNumRange);
    assert_eq!(parse_seq_num_range(""), e);
    assert_eq!(parse_seq_num_range("_sn="), e);
    assert_eq!(parse_seq_num_range("sn=1.."), e);
    assert_eq!(parse_seq_num_range("_sn=1."), e);
    assert_eq!(parse_seq_num_range("_sn=x.."), e);
    assert_eq!(parse_seq_num_range("_sn=1..y"), e);
    assert_eq!(parse_seq_num_range("_sn=1..2..3"), e);
    assert_eq!(parse_seq_num_range("_sn=18446744073709551616.."), e);
}
