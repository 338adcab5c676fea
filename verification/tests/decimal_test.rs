use create_vox::convert::{i32_to_array, u16_to_array, u32_from_vec, u32_to_array, u32_to_i32};
use create_vox::decimal::{push_decimal, push_triple, read_decimal, read_triple};

fn decimal(x: i32) -> String {
    let mut out = Vec::new();
    push_decimal(&mut out, x);
    String::from_utf8(out).unwrap()
}

#[test]
fn numbers_are_written_in_decimal() {
    assert_eq!(decimal(0), "0");
    assert_eq!(decimal(7), "7");
    assert_eq!(decimal(10), "10");
    assert_eq!(decimal(-1), "-1");
    assert_eq!(decimal(1234567890), "1234567890");
    assert_eq!(decimal(i32::MAX), "2147483647");
    assert_eq!(decimal(i32::MIN), "-2147483648");
    let mut out = vec![b'x'];
    push_triple(&mut out, 1, -20, 300);
    assert_eq!(out, b"x1 -20 300");
}

#[test]
fn decimal_text_is_read_back() {
    for x in [0, 1, -1, 9, 10, 99, 100, -100, 65536, i32::MAX, i32::MIN, i32::MIN + 1] {
        let text = decimal(x);
        assert_eq!(read_decimal(text.as_bytes(), 0, text.len()), Some(x));
    }
    assert_eq!(read_decimal(b"ab12cd", 2, 4), Some(12));
    assert_eq!(read_decimal(b"0012", 0, 4), Some(12));
    assert_eq!(read_decimal(b"-0", 0, 2), Some(0));
    assert_eq!(read_decimal(b"", 0, 0), None);
    assert_eq!(read_decimal(b"-", 0, 1), None);
    assert_eq!(read_decimal(b"--1", 0, 3), None);
    assert_eq!(read_decimal(b"1-", 0, 2), None);
    assert_eq!(read_decimal(b"2147483648", 0, 10), None);
    assert_eq!(read_decimal(b"-2147483649", 0, 11), None);
    assert_eq!(read_decimal(b"99999999999999999999999999", 0, 26), None);
    assert_eq!(read_decimal(b"12 ", 0, 3), None);
}

#[test]
fn translation_text_is_read_back() {
    assert_eq!(read_triple(b"1 2 3"), Some((1, 2, 3)));
    assert_eq!(read_triple(b"-1 0 2147483647"), Some((-1, 0, 2147483647)));
    assert_eq!(read_triple(b"1 2"), None);
    assert_eq!(read_triple(b"1 2 "), None);
    assert_eq!(read_triple(b"1 2 3 4"), None);
    assert_eq!(read_triple(b"1,2,3"), None);
    assert_eq!(read_triple(b""), None);
    assert_eq!(read_triple(b"  "), None);
}

#[test]
fn integers_are_little_endian() {
    assert_eq!(u32_to_array(0x01020304), [4, 3, 2, 1]);
    assert_eq!(u32_to_array(u32::MAX), [255, 255, 255, 255]);
    assert_eq!(i32_to_array(-1), [255, 255, 255, 255]);
    assert_eq!(i32_to_array(-2), [254, 255, 255, 255]);
    assert_eq!(i32_to_array(i32::MIN), [0, 0, 0, 0x80]);
    assert_eq!(i32_to_array(i32::MAX), [255, 255, 255, 0x7f]);
    assert_eq!(i32_to_array(258), 258i32.to_le_bytes());
    assert_eq!(u16_to_array(256), [0, 1]);
    assert_eq!(u16_to_array(0xabcd), [0xcd, 0xab]);
    assert_eq!(u32_from_vec(&vec![9, 4, 3, 2, 1], 1), 0x01020304);
    assert_eq!(u32_to_i32(u32::MAX), -1);
    assert_eq!(u32_to_i32(0x8000_0000), i32::MIN);
    assert_eq!(u32_to_i32(0x7fff_ffff), i32::MAX);
    for x in [0, 1, -1, 1 << 20, i32::MIN, i32::MAX, -123456] {
        assert_eq!(i32_to_array(x), x.to_le_bytes());
        assert_eq!(u32_to_i32(u32_from_vec(&x.to_le_bytes().to_vec(), 0)), x);
    }
}
