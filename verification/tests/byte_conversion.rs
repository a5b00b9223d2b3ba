use semantica::byte_conversion::{ByteConversion, FormatError};

#[test]
fn num_types() {
    let val: usize = usize::MAX;
    assert_eq!(usize::from_bytes(val.to_bytes()), val);
    let val: u8 = u8::MAX;
    assert_eq!(u8::from_bytes(val.to_bytes()), val);
    let val: u16 = u16::MAX;
    assert_eq!(u16::from_bytes(val.to_bytes()), val);
    let val: u32 = u32::MAX;
    assert_eq!(u32::from_bytes(val.to_bytes()), val);
    let val: u64 = u64::MAX;
    assert_eq!(u64::from_bytes(val.to_bytes()), val);
    let val: u128 = u128::MAX;
    assert_eq!(u128::from_bytes(val.to_bytes()), val);
    let val: i8 = i8::MAX;
    assert_eq!(i8::from_bytes(val.to_bytes()), val);
    let val: i16 = i16::MAX;
    assert_eq!(i16::from_bytes(val.to_bytes()), val);
    let val: i32 = i32::MAX;
    assert_eq!(i32::from_bytes(val.to_bytes()), val);
    let val: i64 = i64::MAX;
    assert_eq!(i64::from_bytes(val.to_bytes()), val);
    let val: i128 = i128::MAX;
    assert_eq!(i128::from_bytes(val.to_bytes()), val);
}

#[test]
fn string_types() {
    let str = "Hello World!";
    assert_eq!(String::from_bytes(str.to_string().to_bytes()), str.to_string());
}

#[test]
fn num_types_negative() {
    let val: i8 = i8::MIN;
    assert_eq!(i8::from_bytes(val.to_bytes()), val);
    let val: i64 = -1;
    assert_eq!(i64::from_bytes(val.to_bytes()), val);
    let val: i128 = i128::MIN;
    assert_eq!(i128::from_bytes(val.to_bytes()), val);
}

#[test]
fn big_endian_layout() {
    let one: u64 = 1;
    assert_eq!(one.to_bytes(), vec![0, 0, 0, 0, 0, 0, 0, 1]);
    let x: u16 = 0x1234;
    assert_eq!(x.to_bytes(), vec![0x12, 0x34]);
    assert_eq!(i32::from_bytes(vec![0xff, 0xff, 0xff, 0xff]), -1);
    assert_eq!(u32::from_bytes(vec![0x00, 0x01, 0x00, 0x00]), 65536);
}

#[test]
fn wrong_length_is_refused() {
    assert_eq!(u64::try_from_bytes(vec![0, 0, 0]), Err(FormatError));
    assert_eq!(u8::try_from_bytes(vec![]), Err(FormatError));
    assert_eq!(i16::try_from_bytes(vec![1, 2, 3]), Err(FormatError));
}

#[test]
fn string_utf8() {
    let s = "caf\u{e9} \u{1f600}".to_string();
    assert_eq!(String::from_bytes(s.clone().to_bytes()), s);
    // an invalid UTF-8 sequence is refused, not mangled
    assert_eq!(String::try_from_bytes(vec![0xff, 0xfe, 0xfd]), Err(FormatError));
    // a lone continuation byte is refused
    assert_eq!(String::try_from_bytes(vec![0x80]), Err(FormatError));
}
