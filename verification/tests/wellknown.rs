use fastproto::wellknown::{
    datetime_to_parts, decode_parts, encode_parts, parts_to_datetime, parts_to_timedelta,
    timedelta_to_parts, timedelta_total_nanos, Timedelta, TimedeltaArgs,
};
use fastproto::wire::{self, WireError, WireType};

#[test]
fn wire_roundtrip() {
    for (secs, nanos) in [
        (0_i64, 0_i32),
        (1_720_620_000, 500),
        (-1, 999_999_999),   // Timestamp just before the epoch
        (-5, -500_000_000),  // negative Duration: same-sign parts
    ] {
        let mut buf = Vec::new();
        encode_parts(&mut buf, secs, nanos);
        assert_eq!(decode_parts(&buf).unwrap(), (secs, nanos));
    }
}

#[test]
fn zero_parts_encode_to_nothing() {
    let mut buf = Vec::new();
    encode_parts(&mut buf, 0, 0);
    assert!(buf.is_empty());
}

#[test]
fn unknown_fields_inside_are_skipped() {
    let mut buf = Vec::new();
    encode_parts(&mut buf, 7, 0);
    wire::write_tag(&mut buf, 9, WireType::Len);
    wire::write_len_delimited(&mut buf, b"junk");
    assert_eq!(decode_parts(&buf).unwrap(), (7, 0));
}

fn delta(days: i64, seconds: i64, microseconds: i64) -> Timedelta {
    Timedelta { days, seconds, microseconds }
}

#[test]
fn timestamp_nanos_are_never_negative() {
    // Half a second before the epoch: -1 day + 86399.5 s.
    let before = delta(-1, 86_399, 500_000);
    assert_eq!(timedelta_total_nanos(before), -500_000_000);
    assert_eq!(datetime_to_parts(before), (-1, 500_000_000));
    assert_eq!(datetime_to_parts(delta(1, 2, 3)), (86_402, 3_000));
    assert_eq!(datetime_to_parts(delta(-1, 0, 0)), (-86_400, 0));
}

#[test]
fn duration_parts_carry_the_same_sign() {
    assert_eq!(timedelta_to_parts(delta(-1, 86_399, 500_000)), (0, -500_000_000));
    assert_eq!(timedelta_to_parts(delta(-1, 86_394, 500_000)), (-5, -500_000_000));
    assert_eq!(timedelta_to_parts(delta(0, 5, 500_000)), (5, 500_000_000));
}

#[test]
fn sub_microsecond_part_is_truncated() {
    assert_eq!(
        parts_to_datetime(7, 1_999),
        TimedeltaArgs { seconds: 7, microseconds: 1 }
    );
    assert_eq!(
        parts_to_timedelta(-7, -1_999),
        TimedeltaArgs { seconds: -7, microseconds: -1 }
    );
    assert_eq!(
        parts_to_timedelta(0, i32::MIN),
        TimedeltaArgs { seconds: 0, microseconds: -2_147_483 }
    );
}

#[test]
fn parts_known_encoding() {
    let mut buf = Vec::new();
    encode_parts(&mut buf, 300, 1);
    assert_eq!(buf, vec![0x08, 0xac, 0x02, 0x10, 0x01]);
    assert_eq!(decode_parts(&[0x08]), Err(WireError::UnexpectedEof));
}

#[test]
fn microseconds_survive_the_parts() {
    for (days, seconds, microseconds) in
        [(0, 0, 0), (-1, 86_399, 999_999), (19_000, 5, 7), (-999_999_999, 0, 1)]
    {
        let value = delta(days, seconds, microseconds);
        let total = timedelta_total_nanos(value) / 1_000;
        let (secs, nanos) = datetime_to_parts(value);
        let args = parts_to_datetime(secs, nanos);
        assert_eq!(args.seconds as i128 * 1_000_000 + args.microseconds as i128, total);
        let (secs, nanos) = timedelta_to_parts(value);
        let args = parts_to_timedelta(secs, nanos);
        assert_eq!(args.seconds as i128 * 1_000_000 + args.microseconds as i128, total);
    }
}
