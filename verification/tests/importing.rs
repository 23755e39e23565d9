use hexdump2::import;

#[test]
fn import_with_bad_hex() {
    assert_eq!(None, import("xx aa bb"));
}

#[test]
fn import_ignores_extra_space() {
    assert_eq!(Some(vec![0x00, 0x01, 0xfe, 0xff]), import("00 01    fe ff"));
}

#[test]
fn import_ignores_whitespace_and_line_breaks() {
    assert_eq!(Some(vec![0x00, 0x01, 0xfe, 0xff]), import("  00 01 \r\n  fe ff  \r"));
}

#[test]
fn import_with_offsets_and_bytes() {
    assert_eq!(Some(vec![0x00, 0x01, 0xfe, 0xff]), import("0000 00 01 fe ff"));

    assert_eq!(Some(vec![0x00, 0x01, 0xfe, 0xff]), import("00000000 00 01 fe ff"));

    assert_eq!(Some(vec![0x00, 0x01, 0xfe, 0xff]), import("0000000000000000 00 01 fe ff"));
}

#[test]
fn import_plain_bytes() {
    assert_eq!(Some(vec![0x00, 0x01, 0xfe, 0xff]), import("00 01 fe ff"));
}

#[test]
fn import_skips_offset_token() {
    assert_eq!(Some(vec![0x00, 0x01, 0xfe, 0xff]), import("0000 00 01 fe ff"));
}

#[test]
fn import_ignores_trailing_ascii_blob() {
    assert_eq!(
        Some(vec![0x61, 0x62, 0x63, 0x64, 0x00, 0x19, 0x7f, 0x10]),
        import("61 62 63 64 00 19 7f 10 abcd....")
    );
}

#[test]
fn import_skips_two_byte_gutter_after_padding() {
    assert_eq!(
        Some(vec![0x61, 0x62, 0x63, 0x64, 0x65]),
        import("0000 61 62 63 abc\n                      0003 64 65    de")
    );
}

#[test]
fn import_empty_text() {
    assert_eq!(Some(vec![]), import(""));
}

#[test]
fn import_whitespace_only_lines() {
    assert_eq!(Some(vec![]), import("   \n\t \n  "));
}

#[test]
fn import_accepts_leading_plus_sign() {
    assert_eq!(Some(vec![0x0a, 0xbb]), import("+a bb"));
}

#[test]
fn import_fails_atomically() {
    assert_eq!(None, import("aa bb\nzz\ncc dd"));
}
