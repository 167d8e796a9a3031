use tpu::cmd::setup::{full_block, inject, inject_text, BEGIN_MARKER, END_MARKER};
use tpu::source::show_text;

#[test]
fn block_contains_markers_and_known_tools() {
    let b = full_block();
    assert!(b.contains(BEGIN_MARKER));
    assert!(b.contains(END_MARKER));
    for tool in &[
        "tpu_read_file",
        "tpu_write_file",
        "tpu_replace_in_file",
        "tpu_copy_file",
        "tpu_render_file",
        "tpu_setup",
    ] {
        assert!(b.contains(tool), "guidance must mention {tool}");
    }
}

#[test]
fn the_block_is_appended_behind_a_blank_line() {
    let block = full_block();
    assert_eq!(inject_text(""), (block.clone(), false));
    assert_eq!(inject_text("a"), (format!("a\n\n{block}"), false));
    assert_eq!(inject_text("a\n"), (format!("a\n\n{block}"), false));
    assert_eq!(inject_text("a\n\n"), (format!("a\n\n{block}"), false));
}

#[test]
fn what_stands_between_the_markers_is_replaced() {
    let block = full_block();
    let text = format!("a\n{BEGIN_MARKER}\nold\n{END_MARKER}\nb\n");
    assert_eq!(inject_text(&text), (format!("a\n{block}b\n"), true));
    let text = format!("{END_MARKER} a\n{BEGIN_MARKER}\nold\n{END_MARKER}\nb\n");
    assert_eq!(inject_text(&text), (format!("{END_MARKER} a\n{block}b\n"), true));
}

#[test]
fn injecting_again_changes_nothing() {
    let (once, _) = inject_text("intro\n");
    assert_eq!(inject_text(&once), (once.clone(), true));
    let plan = inject("f", Some(once.as_bytes()), false).unwrap();
    assert!(!plan.updated && plan.replaced && plan.plan.is_none());
}

/// A text in UTF-16 behind its byte-order mark.
fn utf16(text: &str, big: bool) -> Vec<u8> {
    let units = std::iter::once(0xFEFF).chain(text.encode_utf16());
    if big {
        units.flat_map(u16::to_be_bytes).collect()
    } else {
        units.flat_map(u16::to_le_bytes).collect()
    }
}

#[test]
fn injecting_again_leaves_the_file() {
    let stray = format!("a\n{BEGIN_MARKER}\nb\n");
    for text in ["", "ä\r\nb\r\n", "a\rb", "\u{FEFF}a\nb\r\nc\r", stray.as_str()] {
        let mut marked = b"\xEF\xBB\xBF".to_vec();
        marked.extend_from_slice(text.as_bytes());
        let files = [text.as_bytes().to_vec(), marked, utf16(text, false), utf16(text, true)];
        for old in files {
            let first = inject("f", Some(&old), false).unwrap();
            assert!(first.updated && !first.replaced);
            let left = first.plan.unwrap().bytes;
            assert_eq!(show_text(&left).unwrap().text, first.text);
            let second = inject("f", Some(&left), false).unwrap();
            assert!(!second.updated && second.replaced && second.plan.is_none());
        }
    }
    let left = inject("f", None, false).unwrap().plan.unwrap().bytes;
    let second = inject("f", Some(&left), false).unwrap();
    assert!(!second.updated && second.replaced && second.plan.is_none());
}

#[test]
fn a_new_file_gets_the_block_alone() {
    let plan = inject("f", None, false).unwrap();
    assert!(plan.updated && !plan.replaced);
    assert_eq!(plan.plan.unwrap().bytes, full_block().into_bytes());
}

#[test]
fn injection_keeps_the_line_endings_of_the_file() {
    let plan = inject("f", Some(b"a\r\n"), false).unwrap();
    let bytes = plan.plan.unwrap().bytes;
    let text = String::from_utf8(bytes).unwrap();
    assert_eq!(text, format!("a\n\n{}", full_block()).replace('\n', "\r\n"));
}

#[test]
fn a_begin_marker_without_an_end_is_text() {
    let text = format!("a\n{BEGIN_MARKER}\nkept\n");
    let (once, replaced) = inject_text(&text);
    assert_eq!(once, format!("{text}\n{}", full_block()));
    assert!(!replaced);
    assert_eq!(inject_text(&once), (once.clone(), true));
    let text = format!("{BEGIN_MARKER} kept {BEGIN_MARKER} old {END_MARKER} b");
    let block = full_block();
    assert_eq!(inject_text(&text).0, format!("{BEGIN_MARKER} kept {} b", block.trim_end()));
}
