use hexdump2::export;
use hexdump2::import;
use hexdump2::ExportOptions;

#[test]
fn round_trip_of_plain_export() {
    let bytes: Vec<u8> = (0u8..=255).collect();
    for per_line in [1usize, 3, 16, 300] {
        let text = export(
            &bytes,
            ExportOptions { with_ascii: false, with_offsets: false, per_line },
        )
        .unwrap();
        assert_eq!(Some(bytes.clone()), import(&text));
    }
}

#[test]
fn round_trip_of_empty_export() {
    let text =
        export(&[], ExportOptions { with_ascii: false, with_offsets: false, per_line: 4 }).unwrap();
    assert_eq!(Some(vec![]), import(&text));
}

#[test]
fn extra_interior_spaces_change_nothing() {
    assert_eq!(Some(vec![0x00, 0x01, 0xfe, 0xff]), import("00 01 fe ff"));
    assert_eq!(Some(vec![0x00, 0x01, 0xfe, 0xff]), import("00  01   fe ff"));
    assert_eq!(Some(vec![0x61, 0x62, 0x63]), import("0000 61 62 63 abc."));
    assert_eq!(Some(vec![0x61, 0x62, 0x63]), import("0000   61  62   63  abc."));
}

#[test]
fn offset_width_grows_with_the_total() {
    let bytes = vec![0u8; 70000];
    let text = export(
        &bytes,
        ExportOptions { with_ascii: false, with_offsets: true, per_line: 16 },
    )
    .unwrap();
    let lines: Vec<&str> = text.split('\n').collect();
    assert_eq!(4375, lines.len());
    assert!(lines[0].starts_with("00000000 "));
    assert!(lines[1].starts_with("00000010 "));
    assert!(!lines[0].starts_with("0000 "));
    for line in &lines {
        assert_eq!(Some(' '), line.chars().nth(8));
        assert!(line[..8].chars().all(|c| c.is_ascii_hexdigit()));
    }
}

#[test]
fn small_totals_use_four_digit_offsets() {
    let text = export(
        &[0u8; 16],
        ExportOptions { with_ascii: false, with_offsets: true, per_line: 8 },
    )
    .unwrap();
    assert_eq!("0000 00 00 00 00 00 00 00 00\n0008 00 00 00 00 00 00 00 00", &text);
}
