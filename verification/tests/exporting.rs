use hexdump2::export;
use hexdump2::export_to;
use hexdump2::ExportError;
use hexdump2::ExportOptions;

#[test]
fn exports_bytes() {
    let mut actual = String::new();
    assert_eq!(
        Ok(()),
        export_to(
            &mut actual,
            &[0, 1, 2, 3],
            ExportOptions { with_ascii: false, with_offsets: false, per_line: 16 }
        )
    );
    assert_eq!("00 01 02 03", &actual);
}

#[test]
fn export_bytes_on_multiple_lines() {
    let mut actual = String::new();
    assert_eq!(
        Ok(()),
        export_to(
            &mut actual,
            &[0, 1, 2, 3],
            ExportOptions { with_ascii: false, with_offsets: false, per_line: 2 }
        )
    );
    assert_eq!("00 01\n02 03", &actual);
}

#[test]
fn exports_offsets_and_bytes() {
    let mut actual = String::new();
    assert_eq!(
        Ok(()),
        export_to(
            &mut actual,
            &[0, 1, 2, 3],
            ExportOptions { with_ascii: false, with_offsets: true, per_line: 2 }
        )
    );
    assert_eq!("0000 00 01\n0002 02 03", &actual);
}

#[test]
fn exports_offsets_bytes_and_ascii() {
    let mut actual = String::new();
    assert_eq!(
        Ok(()),
        export_to(
            &mut actual,
            &[0x61, 0x62, 0x63, 0x64, 0x65, 0x00, 0x19, 0x7f],
            ExportOptions { with_ascii: true, with_offsets: true, per_line: 4 }
        )
    );
    assert_eq!("0000 61 62 63 64 abcd\n0004 65 00 19 7F e...", &actual);
}

#[test]
fn exports_offsets_bytes_and_ascii_with_partial_last_line() {
    let mut actual = String::new();
    assert_eq!(
        Ok(()),
        export_to(
            &mut actual,
            &[0x61, 0x62, 0x63, 0x64, 0x65, 0x00],
            ExportOptions { with_ascii: true, with_offsets: true, per_line: 4 }
        )
    );
    assert_eq!("0000 61 62 63 64 abcd\n0004 65 00       e.", &actual);
}

#[test]
fn exports_to_string() {
    assert_eq!(
        Ok(String::from("00 01 02 03")),
        export(&[0, 1, 2, 3], ExportOptions { with_ascii: false, with_offsets: false, per_line: 4 })
    );
}

#[test]
fn export_empty_bytes() {
    assert_eq!(
        Ok(String::new()),
        export(&[], ExportOptions { with_ascii: false, with_offsets: false, per_line: 8 })
    );
}

#[test]
fn export_rejects_zero_per_line() {
    assert_eq!(
        Err(ExportError::BadOptions),
        export(&[1, 2, 3], ExportOptions { with_ascii: false, with_offsets: false, per_line: 0 })
    );
}

#[test]
fn export_to_rejects_zero_per_line_and_writes_nothing() {
    let mut actual = String::from("kept");
    assert_eq!(
        Err(ExportError::BadOptions),
        export_to(
            &mut actual,
            &[1, 2, 3],
            ExportOptions { with_ascii: true, with_offsets: true, per_line: 0 }
        )
    );
    assert_eq!("kept", &actual);
}

#[test]
fn export_gutter_uses_dots_for_unprintable_bytes() {
    assert_eq!(
        Ok(String::from("1F 7F ..")),
        export(
            &[0x1f, 0x7f],
            ExportOptions { with_ascii: true, with_offsets: false, per_line: 2 }
        )
    );
}

#[test]
fn export_to_appends_to_existing_text() {
    let mut actual = String::from("> ");
    assert_eq!(
        Ok(()),
        export_to(
            &mut actual,
            &[0xab],
            ExportOptions { with_ascii: false, with_offsets: false, per_line: 1 }
        )
    );
    assert_eq!("> AB", &actual);
}
