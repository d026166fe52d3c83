use registry_builder::wire::{read_string, read_varint, write_string, write_varint};

fn encoded(value: i32) -> Vec<u8> {
    let mut buf = Vec::new();
    write_varint(&mut buf, value);
    buf
}

/// The number of binary digits of `value`, one for zero.
fn binary_digits(value: i32) -> usize {
    if value < 2 {
        1
    } else {
        1 + binary_digits(value / 2)
    }
}

#[test]
fn varint_single_byte() {
    assert_eq!(encoded(0), vec![0x00]);
    assert_eq!(encoded(1), vec![0x01]);
    assert_eq!(encoded(127), vec![0x7f]);
}

#[test]
fn varint_multi_byte() {
    assert_eq!(encoded(128), vec![0x80, 0x01]);
    assert_eq!(encoded(255), vec![0xff, 0x01]);
    assert_eq!(encoded(300), vec![0xac, 0x02]);
    assert_eq!(encoded(25565), vec![0xdd, 0xc7, 0x01]);
    assert_eq!(encoded(2097151), vec![0xff, 0xff, 0x7f]);
    assert_eq!(encoded(i32::MAX), vec![0xff, 0xff, 0xff, 0xff, 0x07]);
}

#[test]
fn varint_appends_to_what_is_there() {
    let mut buf = vec![0xaa, 0xbb];
    write_varint(&mut buf, 300);
    assert_eq!(buf, vec![0xaa, 0xbb, 0xac, 0x02]);
}

#[test]
fn varint_round_trip() {
    let mut samples: Vec<i32> = vec![0, 1, 2, 63, 64, 126, 127, 128, 129, 255, 256, 16383, 16384];
    samples.extend([2097151, 2097152, 268435455, 268435456, i32::MAX - 1, i32::MAX]);
    let mut v: i64 = 3;
    while v < i32::MAX as i64 {
        samples.push(v as i32);
        v = v * 7 + 5;
    }
    for value in samples {
        let buf = encoded(value);
        assert_eq!(read_varint(&buf, 0), Some((value, buf.len())), "value {}", value);
    }
}

#[test]
fn varint_round_trip_with_more_behind() {
    let mut buf = vec![0x01];
    write_varint(&mut buf, 300);
    buf.push(0xff);
    assert_eq!(read_varint(&buf, 1), Some((300, 3)));
}

#[test]
fn varint_length_is_one_byte_per_seven_bits() {
    for value in [0, 1, 127, 128, 16383, 16384, 2097151, 2097152, 268435455, 268435456, i32::MAX] {
        let expected = (binary_digits(value) + 6) / 7;
        assert_eq!(encoded(value).len(), expected, "value {}", value);
    }
    assert_eq!(encoded(0).len(), 1);
    assert_eq!(encoded(127).len(), 1);
    assert_eq!(encoded(128).len(), 2);
    assert_eq!(encoded(i32::MAX).len(), 5);
}

#[test]
fn read_varint_needs_a_last_byte() {
    assert_eq!(read_varint(&[], 0), None);
    assert_eq!(read_varint(&[0x80], 0), None);
    assert_eq!(read_varint(&[0xff, 0xff], 0), None);
    assert_eq!(read_varint(&[0x01], 1), None);
    assert_eq!(read_varint(&[0x01], 2), None);
}

#[test]
fn read_varint_refuses_more_than_31_bits() {
    assert_eq!(read_varint(&[0xff, 0xff, 0xff, 0xff, 0x08], 0), None);
    assert_eq!(read_varint(&[0xff, 0xff, 0xff, 0xff, 0x0f], 0), None);
    assert_eq!(read_varint(&[0x80, 0x80, 0x80, 0x80, 0x80, 0x01], 0), None);
}

#[test]
fn read_varint_takes_groups_of_zero() {
    assert_eq!(read_varint(&[0x80, 0x00], 0), Some((0, 2)));
    assert_eq!(read_varint(&[0x81, 0x80, 0x80, 0x80, 0x80, 0x80, 0x00], 0), Some((1, 7)));
}

#[test]
fn string_is_length_prefixed() {
    let mut buf = Vec::new();
    write_string(&mut buf, "fall");
    assert_eq!(buf, vec![4, b'f', b'a', b'l', b'l']);
}

#[test]
fn empty_string_is_one_zero_byte() {
    let mut buf = Vec::new();
    write_string(&mut buf, "");
    assert_eq!(buf, vec![0]);
}

#[test]
fn string_length_counts_bytes_not_characters() {
    let mut buf = Vec::new();
    write_string(&mut buf, "h\u{e9}\u{20ac}");
    assert_eq!(buf, vec![6, b'h', 0xc3, 0xa9, 0xe2, 0x82, 0xac]);
}

#[test]
fn long_string_has_a_two_byte_length() {
    let text = "x".repeat(200);
    let mut buf = Vec::new();
    write_string(&mut buf, &text);
    assert_eq!(buf.len(), 202);
    assert_eq!(&buf[..2], &[0xc8, 0x01]);
    assert!(buf[2..].iter().all(|b| *b == b'x'));
}

#[test]
fn string_round_trip() {
    for text in ["", "a", "minecraft:damage_type", "gr\u{fc}n/\u{1f600}"] {
        let mut buf = vec![0x7f];
        write_string(&mut buf, text);
        let end = buf.len();
        buf.push(0x00);
        assert_eq!(read_string(&buf, 1), Some((text.to_string(), end)));
    }
    let long = "registry".repeat(100);
    let mut buf = Vec::new();
    write_string(&mut buf, &long);
    assert_eq!(read_string(&buf, 0), Some((long, buf.len())));
}

#[test]
fn read_string_refuses_what_is_cut_short() {
    assert_eq!(read_string(&[], 0), None);
    assert_eq!(read_string(&[3, b'a', b'b'], 0), None);
    assert_eq!(read_string(&[0x80], 0), None);
    assert_eq!(read_string(&[1, b'a'], 3), None);
}

#[test]
fn read_string_refuses_bytes_that_are_no_text() {
    assert_eq!(read_string(&[2, 0xc3, 0x28], 0), None);
    assert_eq!(read_string(&[1, 0xff], 0), None);
}
