use scotty::timestamp::Timestamp;
use std::time::{Duration, SystemTime, UNIX_EPOCH};

#[test]
fn new_refuses_a_second_or_more_of_nanoseconds() {
    assert!(Timestamp::new(0, 999_999_999).is_some());
    assert!(Timestamp::new(0, 1_000_000_000).is_none());
    assert!(Timestamp::new(u64::MAX, u32::MAX).is_none());
    let stamp = Timestamp::new(12, 34).unwrap();
    assert_eq!(stamp.secs(), 12);
    assert_eq!(stamp.nanos(), 34);
    assert_eq!(Timestamp::from_parts(12, 34), stamp)
}

#[test]
fn encode_is_seconds_then_nanoseconds_lowest_byte_first() {
    let stamp = Timestamp::new(0x0102_0304_0506_0708, 0x0a0b_0c0d).unwrap();

    assert_eq!(
        stamp.encode(),
        vec![0x08, 0x07, 0x06, 0x05, 0x04, 0x03, 0x02, 0x01, 0x0d, 0x0c, 0x0b, 0x0a]
    );
    assert_eq!(Timestamp::from_parts(0, 0).encode(), vec![0u8; 12])
}

#[test]
fn encode_is_the_stored_form_of_a_system_time() {
    let stamp = Timestamp::new(1_700_000_000, 123_456_789).unwrap();
    let time: SystemTime = UNIX_EPOCH + Duration::new(1_700_000_000, 123_456_789);

    assert_eq!(stamp.encode(), bincode::serialize(&time).unwrap());

    let read: SystemTime = bincode::deserialize(&stamp.encode()).unwrap();
    assert_eq!(read, time)
}

#[test]
fn decode_reads_back_what_encode_wrote() {
    for (secs, nanos) in [
        (0u64, 0u32),
        (1, 1),
        (1_700_000_000, 999_999_999),
        (u64::MAX, 0),
    ] {
        let stamp = Timestamp::new(secs, nanos).unwrap();
        assert_eq!(Timestamp::decode(&stamp.encode()), Some(stamp));
    }
}

#[test]
fn decode_refuses_what_is_no_stored_timestamp() {
    let good = Timestamp::new(5, 6).unwrap().encode();
    let mut long = good.clone();
    long.push(0);
    let mut nanos_too_large = vec![0u8; 8];
    nanos_too_large.extend_from_slice(&1_000_000_000u32.to_le_bytes());

    assert_eq!(Timestamp::decode(&[]), None);
    assert_eq!(Timestamp::decode(&good[..11]), None);
    assert_eq!(Timestamp::decode(&long), None);
    assert_eq!(Timestamp::decode(&nanos_too_large), None);
    assert!(Timestamp::decode(&good).is_some())
}

#[test]
fn is_after_compares_seconds_then_nanoseconds() {
    let a = Timestamp::new(10, 999_999_999).unwrap();
    let b = Timestamp::new(11, 0).unwrap();
    let c = Timestamp::new(11, 1).unwrap();

    assert!(b.is_after(&a));
    assert!(!a.is_after(&b));
    assert!(c.is_after(&b));
    assert!(!b.is_after(&c));
    assert!(!a.is_after(&a));
    assert!(a < b && b < c)
}
