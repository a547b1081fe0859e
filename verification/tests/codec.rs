use rubble::util::coding::{
    decode_fixed32, decode_fixed64, get_varint32_ptr_fallback, get_varint64, parse_u64,
    put_fixed32, put_fixed64, put_varint32, put_varint64,
};

fn varint64_round_trip(v: u64) -> usize {
    let mut buff: Vec<u8> = Vec::new();
    let written = put_varint64(&mut buff, v);
    assert_eq!(written, buff.len());
    let (rest, decoded) = get_varint64(buff.as_slice()).expect("a fresh encoding must decode");
    assert_eq!(decoded, v);
    assert!(rest.is_empty());
    written
}

fn varint32_round_trip(v: u32) -> usize {
    let mut buff: Vec<u8> = Vec::new();
    let written = put_varint32(&mut buff, v);
    assert_eq!(written, buff.len());
    let result = get_varint32_ptr_fallback(buff.as_slice()).expect(
        "a fresh encoding must decode",
    );
    assert_eq!(result.value, v);
    assert!(result.slice.is_empty());
    written
}

#[test]
fn varint64_round_trips_across_range() {
    for &v in &[
        0u64,
        1,
        127,
        128,
        255,
        16383,
        16384,
        0xffff_ffff,
        0x1_0000_0000,
        u64::MAX - 1,
        u64::MAX,
    ] {
        varint64_round_trip(v);
    }
}

#[test]
fn varint32_round_trips_across_range() {
    for &v in &[0u32, 1, 127, 128, 16383, 16384, 2097151, 2097152, 268435455, 268435456, u32::MAX]
    {
        varint32_round_trip(v);
    }
}

#[test]
fn varint_lengths_are_minimal() {
    assert_eq!(varint64_round_trip(0), 1);
    assert_eq!(varint64_round_trip(127), 1);
    assert_eq!(varint64_round_trip(128), 2);
    assert_eq!(varint64_round_trip(16383), 2);
    assert_eq!(varint64_round_trip(16384), 3);
    assert_eq!(varint64_round_trip(u64::MAX), 10);
    assert_eq!(varint32_round_trip(0), 1);
    assert_eq!(varint32_round_trip(127), 1);
    assert_eq!(varint32_round_trip(128), 2);
    assert_eq!(varint32_round_trip(u32::MAX), 5);
}

#[test]
fn varint64_decode_rejects_truncation() {
    // A continuation bit with nothing after it.
    assert!(get_varint64(&[0x80]).is_err());
    assert!(get_varint64(&[]).is_err());
    // Eleven continuation bytes never reach a terminator in budget.
    assert!(get_varint64(&[0x80; 11]).is_err());
}

#[test]
fn varint32_decode_rejects_overflow() {
    // Five full groups encode a value past 32 bits.
    assert!(get_varint32_ptr_fallback(&[0xff, 0xff, 0xff, 0xff, 0x7f]).is_err());
    assert!(get_varint32_ptr_fallback(&[0x80]).is_err());
}

#[test]
fn varint_decode_leaves_the_rest() {
    let mut buff: Vec<u8> = Vec::new();
    put_varint64(&mut buff, 300);
    buff.extend_from_slice(b"tail");
    let (rest, decoded) = get_varint64(buff.as_slice()).unwrap();
    assert_eq!(decoded, 300);
    assert_eq!(rest, b"tail");
}

#[test]
fn fixed32_round_trips() {
    for &v in &[0u32, 1, 0xff, 0x1234_5678, u32::MAX] {
        let mut buff: Vec<u8> = Vec::new();
        put_fixed32(&mut buff, v);
        assert_eq!(buff.len(), 4);
        assert_eq!(decode_fixed32(buff.as_slice()), v);
    }
}

#[test]
fn fixed64_round_trips() {
    for &v in &[0u64, 1, 0xff, 0x1234_5678_9abc_def0, u64::MAX] {
        let mut buff: Vec<u8> = Vec::new();
        put_fixed64(&mut buff, v);
        assert_eq!(buff.len(), 8);
        assert_eq!(decode_fixed64(buff.as_slice()), v);
    }
}

#[test]
fn fixed32_is_little_endian() {
    let mut buff: Vec<u8> = Vec::new();
    put_fixed32(&mut buff, 0x0403_0201);
    assert_eq!(buff, vec![0x01, 0x02, 0x03, 0x04]);
}

#[test]
fn parse_u64_reads_leading_digits() {
    let r = parse_u64("000123.log").unwrap();
    assert_eq!(r.number, 123);
    assert_eq!(r.offset, 6);

    let r = parse_u64("7").unwrap();
    assert_eq!(r.number, 7);
    assert_eq!(r.offset, 1);
}

#[test]
fn parse_u64_rejects_bad_input() {
    assert!(parse_u64("").is_err());
    assert!(parse_u64("abc").is_err());
    // One digit past what a 64-bit number can hold.
    assert!(parse_u64("99999999999999999999").is_err());
    // The largest value itself still parses.
    assert_eq!(parse_u64("18446744073709551615").unwrap().number, u64::MAX);
}
