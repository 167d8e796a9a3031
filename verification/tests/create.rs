use tpu::cmd::create::run;
use tpu::encoding::{BomPolicy, LineEnding, OutputEncoding};

#[test]
fn creates_new_file_utf8_lf() {
    let bytes = run(
        "new.txt",
        false,
        "hello\nworld\n",
        OutputEncoding::Preserve,
        BomPolicy::default(),
        None,
    )
    .unwrap();
    assert_eq!(bytes, b"hello\nworld\n");
}

#[test]
fn refuses_to_overwrite_existing_file() {
    let err = run(
        "exists.txt",
        true,
        "replacement",
        OutputEncoding::Preserve,
        BomPolicy::default(),
        None,
    )
    .unwrap_err();
    assert!(err.contains("already exists"));
}

#[test]
fn honours_crlf_line_ending_override() {
    let bytes = run(
        "crlf.txt",
        false,
        "a\nb\n",
        OutputEncoding::Preserve,
        BomPolicy::default(),
        Some(LineEnding::CrLf),
    )
    .unwrap();
    assert_eq!(bytes, b"a\r\nb\r\n");
}

#[test]
fn a_new_file_begins_with_a_byte_order_mark_where_forced() {
    let bytes =
        run("f", false, "a\n", OutputEncoding::Utf8, BomPolicy::Force, Some(LineEnding::Cr)).unwrap();
    assert_eq!(bytes, b"\xEF\xBB\xBFa\r");
}
