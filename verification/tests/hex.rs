use weblite::hex::{to_bytes, to_string, to_usize, bytes_as_u32};

#[test]
fn is_zero() {
    let hex = "0x00";
    assert_eq!(to_usize(hex).unwrap(), 0);
}

#[test]
fn is_255() {
    let hex = "0xFF";
    assert_eq!(to_usize(hex).unwrap(), 255usize);
}

#[test]
fn is_511() {
    let hex = "0x01fF";
    assert_eq!(to_usize(hex).unwrap(), 511usize);
}

#[test]
fn is_511_to_bytes() {
    let res = to_bytes("0x01fF").unwrap();
    assert_eq!(res[0], 1u8);
    assert_eq!(res[1], 255u8);
}

#[test]
fn ffff_is_two_bytes_255() {
    let hex = "FFFF";
    let res = to_bytes(hex).unwrap();
    assert_eq!(res[0], 255);
    assert_eq!(res[1], 255);
}

#[test]
fn odd_digit_count_is_rejected() {
    assert_eq!(to_bytes("0x123"), None);
    assert_eq!(to_usize("0x1"), None);
    assert_eq!(to_usize("0x"), None);
    assert_eq!(to_usize(""), None);
}

#[test]
fn non_hex_digit_is_rejected() {
    assert_eq!(to_bytes("0x0g"), None);
    assert_eq!(to_usize("zz"), None);
    assert_eq!(to_bytes("0x 1"), None);
}

#[test]
fn upper_case_prefix_is_accepted() {
    assert_eq!(to_usize("0X1a"), Some(26));
    assert_eq!(to_bytes("0XAbCd"), Some(vec![0xab, 0xcd]));
}

#[test]
fn long_hex_wraps_around_usize() {
    // seventeen digits: the leading digit shifts out of a 64-bit usize
    if usize::BITS == 64 {
        assert_eq!(to_usize("0x10000000000000001f"), Some(0x1f));
    }
}

#[test]
fn to_string_writes_upper_case_with_prefix() {
    assert_eq!(to_string(vec![0x01, 0xab, 0x00]), "0x01AB00");
    assert_eq!(to_string(vec![]), "0x");
}

#[test]
fn to_string_then_to_bytes_gives_the_bytes_back() {
    let bytes = vec![0u8, 1, 0x7f, 0x80, 0xfe, 0xff];
    assert_eq!(to_bytes(&to_string(bytes.clone())), Some(bytes));
}

#[test]
fn bytes_as_u32_is_big_endian() {
    assert_eq!(bytes_as_u32(&[0x11]), 17);
    assert_eq!(bytes_as_u32(&[0x01, 0x01, 0x01, 0x01]), 16843009);
    assert_eq!(bytes_as_u32(&[]), 0);
    assert_eq!(bytes_as_u32(&[0xff, 0xff, 0xff, 0xff]), u32::MAX);
}
