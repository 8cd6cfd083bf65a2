use turnhammer::timespan::TimeSpan;
use turnhammer::wire::{number_datagram, read_header, stamp_datagram, Header, HEADER_LEN};

#[test]
fn header_bytes_are_big_endian() {
    let mut datagram: Vec<u8> = (100u8..120).collect();
    stamp_datagram(&mut datagram, TimeSpan::new(0x0102030405060708, 0x0a0b0c0d));
    number_datagram(&mut datagram, 0xf1f2f3f4);
    let expected: Vec<u8> = vec![
        1, 2, 3, 4, 5, 6, 7, 8, 0x0a, 0x0b, 0x0c, 0x0d, 0xf1, 0xf2, 0xf3, 0xf4, 116, 117, 118, 119,
    ];
    assert_eq!(datagram, expected);
}

#[test]
fn header_reads_what_was_written() {
    let mut datagram = vec![0xffu8; HEADER_LEN];
    stamp_datagram(&mut datagram, TimeSpan::new(u64::MAX, 999_999_999));
    number_datagram(&mut datagram, u32::MAX);
    assert_eq!(
        read_header(&datagram),
        Header { secs: u64::MAX, nanos: 999_999_999, no: u32::MAX }
    );
    stamp_datagram(&mut datagram, TimeSpan::new(7, 8));
    number_datagram(&mut datagram, 9);
    assert_eq!(read_header(&datagram), Header { secs: 7, nanos: 8, no: 9 });
}

#[test]
fn header_is_read_as_it_stands() {
    let mut bytes = vec![0u8; 8];
    bytes.extend_from_slice(&[0xff, 0xff, 0xff, 0xff]);
    bytes.extend_from_slice(&[0, 0, 1, 0]);
    bytes.extend_from_slice(&[9, 9, 9]);
    assert_eq!(read_header(&bytes), Header { secs: 0, nanos: u32::MAX, no: 256 });
}

#[test]
fn stamping_leaves_number_and_payload_alone() {
    let mut datagram: Vec<u8> = (0u8..18).collect();
    stamp_datagram(&mut datagram, TimeSpan::new(0, 0));
    assert_eq!(&datagram[..12], &[0u8; 12][..]);
    assert_eq!(&datagram[12..], &[12, 13, 14, 15, 16, 17][..]);
    number_datagram(&mut datagram, 0);
    assert_eq!(&datagram[12..], &[0, 0, 0, 0, 16, 17][..]);
}

#[test]
fn spans_carry_and_borrow() {
    let a = TimeSpan::new(1, 2_500_000_000);
    assert_eq!(a, TimeSpan { secs: 3, nanos: 500_000_000 });
    let b = TimeSpan::from_millis(1600);
    assert_eq!(b, TimeSpan { secs: 1, nanos: 600_000_000 });
    assert_eq!(a.plus(&b), TimeSpan { secs: 5, nanos: 100_000_000 });
    assert_eq!(a.minus(&b), TimeSpan { secs: 1, nanos: 900_000_000 });
    assert_eq!(TimeSpan::from_nanos(3_000_000_001), TimeSpan { secs: 3, nanos: 1 });
    assert_eq!(TimeSpan::from_secs(9), TimeSpan { secs: 9, nanos: 0 });
    assert!(b.is_shorter_than(&a));
    assert!(!a.is_shorter_than(&b));
    assert!(!a.is_shorter_than(&a));
    assert!(TimeSpan::new(2, 999_999_999).is_shorter_than(&TimeSpan::from_secs(3)));
}
