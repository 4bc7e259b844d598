//! Reads of a stream, and the cell that the fingerprint is published in.

use h2_fingerprint::text::{join_strings, push_decimal, same_text};
use h2_fingerprint::{Tap, Watch, PREFACE};

/// A connection with one setting and one pseudo-header.
fn wire() -> Vec<u8> {
    let mut v = Vec::from(PREFACE);
    v.extend_from_slice(&[0, 0, 6, 4, 0, 0, 0, 0, 0, 0, 4, 0, 0, 0xff, 0xff]);
    v.extend_from_slice(&[0, 0, 1, 1, 5, 0, 0, 0, 1, 0x82]);
    v
}

#[test]
fn fingerprint_is_published_once() {
    let (mut tap, cell) = Tap::new();
    let bytes = wire();
    assert_eq!(tap.after_read(&bytes[..30]), None);
    assert!(cell.get().is_none());
    assert_eq!(tap.after_read(&bytes[30..]), Some(Ok(())));
    assert_eq!(cell.get().map(String::as_str), Some("4:65535|0|0|m"));
    // From then on reads pass unnoticed.
    assert_eq!(tap.after_read(&bytes), None);
    assert_eq!(tap.after_read(&[]), None);
    assert_eq!(cell.get().map(String::as_str), Some("4:65535|0|0|m"));
}

#[test]
fn a_full_cell_keeps_its_contents() {
    let (mut tap, cell) = Tap::new();
    cell.set("other".to_string()).unwrap();
    assert_eq!(tap.after_read(&wire()), Some(Err("4:65535|0|0|m".to_string())));
    assert_eq!(cell.get().map(String::as_str), Some("other"));
}

#[test]
fn other_traffic_leaves_the_cell_empty() {
    let (mut tap, cell) = Tap::new();
    assert_eq!(tap.after_read(b"GET / HTTP/1.1\r\nHost: example.com\r\n\r\n"), None);
    assert_eq!(tap.after_read(&wire()), None);
    assert!(cell.get().is_none());
}

#[test]
fn end_of_the_connection_ends_the_watch() {
    let mut watch = Watch::new();
    let bytes = wire();
    assert_eq!(watch.after_read(&bytes[..30]), None);
    assert_eq!(watch.after_read(&[]), None);
    assert_eq!(watch.after_read(&bytes[30..]), None);
    assert_eq!(watch.after_read(&bytes), None);
}

#[test]
fn each_connection_has_a_cell_of_its_own() {
    let (mut one, first) = Tap::new();
    let (_, second) = Tap::new();
    assert_eq!(one.after_read(&wire()), Some(Ok(())));
    assert!(first.get().is_some());
    assert!(second.get().is_none());
}

#[test]
fn numbers_and_lists_as_text() {
    let mut out = String::from("n=");
    push_decimal(&mut out, 0);
    push_decimal(&mut out, 4294967295);
    assert_eq!(out, "n=04294967295");
    let parts = vec!["a".to_string(), "".to_string(), "bc".to_string()];
    assert_eq!(join_strings(&parts, ','), "a,,bc");
    assert_eq!(join_strings(&Vec::new(), ','), "");
    assert!(same_text(":path", ":path"));
    assert!(!same_text(":path", ":paths"));
    assert!(!same_text(":path", ":patH"));
}

#[test]
fn reads_that_complete_nothing_leave_the_cell_empty() {
    // While more bytes are needed, when sniffing is given up, and at the end.
    let bytes = wire();
    for (first, second) in [
        (&bytes[..24], &b"\x00\x00\x05\x04\x00\x00\x00\x00\x00\x00\x00\x00\x00\x00"[..]),
        (&bytes[..1], &b"OST"[..]),
        (&bytes[..30], &b""[..]),
    ] {
        let (mut tap, cell) = Tap::new();
        assert!(cell.get().is_none());
        assert_eq!(tap.after_read(first), None);
        assert!(cell.get().is_none());
        assert_eq!(tap.after_read(second), None);
        assert!(cell.get().is_none());
        assert_eq!(tap.after_read(&bytes), None);
        assert!(cell.get().is_none());
        // Nothing was handed to it, so it can still be filled.
        assert_eq!(cell.set("free".to_string()), Ok(()));
    }
}
