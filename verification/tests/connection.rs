//! Whole connections, as bytes on the wire.

use h2_fingerprint::hpack::{FLAG_PADDED, FLAG_PRIORITY};
use h2_fingerprint::preamble::{
    FRAME_HEADERS, FRAME_PRIORITY, FRAME_SETTINGS, FRAME_WINDOW_UPDATE, MAX_PRIORITY_FRAMES,
};
use h2_fingerprint::{Feed, Sniffer, PREFACE, SNIFF_LIMIT};

// ---- synthetic wire builders ----

fn frame(ftype: u8, flags: u8, stream_id: u32, payload: &[u8]) -> Vec<u8> {
    let len = payload.len();
    let mut v = vec![(len >> 16) as u8, (len >> 8) as u8, len as u8, ftype, flags];
    v.extend_from_slice(&stream_id.to_be_bytes());
    v.extend_from_slice(payload);
    v
}

fn settings(pairs: &[(u16, u32)]) -> Vec<u8> {
    let mut p = Vec::new();
    for (k, v) in pairs {
        p.extend_from_slice(&k.to_be_bytes());
        p.extend_from_slice(&v.to_be_bytes());
    }
    frame(FRAME_SETTINGS, 0, 0, &p)
}

fn window_update(inc: u32) -> Vec<u8> {
    frame(FRAME_WINDOW_UPDATE, 0, 0, &inc.to_be_bytes())
}

fn priority(stream_id: u32, exclusive: bool, dep: u32, weight: u16) -> Vec<u8> {
    let mut p = Vec::new();
    let raw = if exclusive { dep | 0x8000_0000 } else { dep };
    p.extend_from_slice(&raw.to_be_bytes());
    p.push((weight - 1) as u8);
    frame(FRAME_PRIORITY, 0, stream_id, &p)
}

/// Indexed header field (static index).
fn indexed(idx: u8) -> Vec<u8> {
    vec![0x80 | idx]
}

/// Literal header field with incremental indexing, indexed name, plain value.
fn literal_indexed_name(idx: u8, value: &str) -> Vec<u8> {
    let mut v = vec![0x40 | idx];
    v.push(value.len() as u8);
    v.extend_from_slice(value.as_bytes());
    v
}

/// Literal header field with incremental indexing, plain name.
fn literal_new_name(name: &str, value: &str) -> Vec<u8> {
    let mut v = vec![0x40, name.len() as u8];
    v.extend_from_slice(name.as_bytes());
    v.push(value.len() as u8);
    v.extend_from_slice(value.as_bytes());
    v
}

fn headers(block: Vec<u8>) -> Vec<u8> {
    // END_HEADERS and END_STREAM.
    frame(FRAME_HEADERS, 0x4 | 0x1, 1, &block)
}

fn sniff(bytes: &[u8]) -> Option<String> {
    let mut s = Sniffer::new();
    match s.feed(bytes) {
        Feed::Done(fp) => Some(fp),
        _ => None,
    }
}

// ---- connections ----

#[test]
fn curl_like_connection() {
    // SETTINGS(3,4), WINDOW_UPDATE, order m,p,s,a with :method GET and :scheme
    // https as static indices, :path and :authority as literals with indexed names.
    let mut wire = Vec::from(PREFACE);
    wire.extend(settings(&[(3, 100), (4, 1073741824)]));
    wire.extend(window_update(1073741824 - 65535));
    let mut block = Vec::new();
    block.extend(indexed(2)); // :method GET
    block.extend(literal_indexed_name(4, "/index")); // :path
    block.extend(indexed(7)); // :scheme https
    block.extend(literal_indexed_name(1, "example.com")); // :authority
    block.extend(literal_indexed_name(58, "curl/8.4.0")); // user-agent
    wire.extend(headers(block));

    assert_eq!(
        sniff(&wire).as_deref(),
        Some("3:100;4:1073741824|1073676289|0|m,p,s,a")
    );
}

#[test]
fn browser_like_connection_with_priority_frames() {
    // SETTINGS, several PRIORITY frames, WINDOW_UPDATE, order m,p,a,s.
    let mut wire = Vec::from(PREFACE);
    wire.extend(settings(&[(1, 65536), (4, 131072), (5, 16384)]));
    wire.extend(priority(3, false, 0, 201));
    wire.extend(priority(5, false, 0, 101));
    wire.extend(window_update(12517377));
    let mut block = Vec::new();
    block.extend(indexed(2)); // :method
    block.extend(literal_indexed_name(4, "/")); // :path
    block.extend(literal_indexed_name(1, "example.com")); // :authority
    block.extend(indexed(7)); // :scheme
    wire.extend(headers(block));

    assert_eq!(
        sniff(&wire).as_deref(),
        Some("1:65536;4:131072;5:16384|12517377|3:0:0:201,5:0:0:101|m,p,a,s")
    );
}

#[test]
fn chrome_like_order_and_no_window_update() {
    let mut wire = Vec::from(PREFACE);
    wire.extend(settings(&[(1, 65536), (2, 0), (4, 6291456), (6, 262144)]));
    let mut block = Vec::new();
    block.extend(indexed(2)); // m
    block.extend(literal_indexed_name(1, "example.com")); // a
    block.extend(indexed(7)); // s
    block.extend(literal_indexed_name(4, "/")); // p
    wire.extend(headers(block));

    assert_eq!(
        sniff(&wire).as_deref(),
        Some("1:65536;2:0;4:6291456;6:262144|0|0|m,a,s,p")
    );
}

#[test]
fn split_across_many_reads_is_identical() {
    let mut wire = Vec::from(PREFACE);
    wire.extend(settings(&[(1, 65536), (2, 0)]));
    wire.extend(window_update(15663105));
    let mut block = Vec::new();
    block.extend(indexed(2));
    block.extend(literal_indexed_name(1, "h.example"));
    block.extend(indexed(7));
    block.extend(literal_indexed_name(4, "/"));
    wire.extend(headers(block));

    let whole = sniff(&wire).unwrap();

    // One byte at a time: the incremental walk must agree.
    let mut s = Sniffer::new();
    let mut got = None;
    for b in &wire {
        if let Feed::Done(fp) = s.feed(&[*b]) {
            got = Some(fp);
            break;
        }
    }
    assert_eq!(got.as_deref(), Some(whole.as_str()));
}

#[test]
fn literal_new_name_pseudo_header_is_understood() {
    let mut wire = Vec::from(PREFACE);
    wire.extend(settings(&[(4, 65535)]));
    let mut block = Vec::new();
    block.extend(literal_new_name(":method", "GET"));
    block.extend(literal_new_name(":authority", "example.com"));
    block.extend(literal_new_name(":scheme", "https"));
    block.extend(literal_new_name(":path", "/"));
    block.extend(literal_new_name("accept", "*/*"));
    wire.extend(headers(block));

    assert_eq!(sniff(&wire).as_deref(), Some("4:65535|0|0|m,a,s,p"));
}

#[test]
fn padded_and_prioritized_headers_frame() {
    let mut wire = Vec::from(PREFACE);
    wire.extend(settings(&[(4, 65535)]));
    let mut block = vec![3u8]; // pad length
    block.extend_from_slice(&0u32.to_be_bytes()); // stream dependency
    block.push(200); // weight
    block.extend(indexed(2));
    block.extend(indexed(7));
    block.extend(literal_indexed_name(4, "/"));
    block.extend(literal_indexed_name(1, "e.com"));
    block.extend_from_slice(&[0, 0, 0]); // padding
    wire.extend(frame(
        FRAME_HEADERS,
        0x4 | FLAG_PADDED | FLAG_PRIORITY,
        1,
        &block,
    ));

    assert_eq!(sniff(&wire).as_deref(), Some("4:65535|0|0|m,s,p,a"));
}

#[test]
fn huffman_literal_pseudo_name_fails_open_to_empty_ps() {
    // A pseudo-header whose name is Huffman-coded cannot be identified: the other
    // components are there, the order is not.
    let mut wire = Vec::from(PREFACE);
    wire.extend(settings(&[(4, 65535)]));
    let mut block = vec![0x40u8, 0x80 | 3, 0xb8, 0xdb, 0x2e];
    block.push(3);
    block.extend_from_slice(b"GET");
    block.extend(indexed(7));
    wire.extend(headers(block));

    assert_eq!(sniff(&wire).as_deref(), Some("4:65535|0|0|"));
}

#[test]
fn dynamic_table_index_fails_open_to_empty_ps() {
    let mut wire = Vec::from(PREFACE);
    wire.extend(settings(&[(4, 65535)]));
    let mut block = Vec::new();
    block.extend(indexed(62)); // first dynamic-table slot
    wire.extend(headers(block));

    assert_eq!(sniff(&wire).as_deref(), Some("4:65535|0|0|"));
}

#[test]
fn duplicate_pseudo_header_fails_open_to_empty_ps() {
    let mut wire = Vec::from(PREFACE);
    wire.extend(settings(&[(4, 65535)]));
    let mut block = Vec::new();
    block.extend(indexed(2));
    block.extend(indexed(3)); // :method twice
    wire.extend(headers(block));

    assert_eq!(sniff(&wire).as_deref(), Some("4:65535|0|0|"));
}

#[test]
fn http1_traffic_aborts_immediately() {
    let mut s = Sniffer::new();
    assert!(matches!(s.feed(b"GET / HTTP/1.1\r\n"), Feed::Abort));

    // Even a single divergent byte is enough.
    let mut s = Sniffer::new();
    assert!(matches!(s.feed(b"P"), Feed::More));
    assert!(matches!(s.feed(b"OST"), Feed::Abort));
}

#[test]
fn truncated_input_never_completes_and_never_panics() {
    let mut wire = Vec::from(PREFACE);
    wire.extend(settings(&[(1, 65536)]));
    let mut block = Vec::new();
    block.extend(indexed(2));
    block.extend(literal_indexed_name(1, "example.com"));
    wire.extend(headers(block));

    for cut in 0..wire.len() {
        let mut s = Sniffer::new();
        // Any prefix must either want more or abort, never complete.
        assert!(
            !matches!(s.feed(&wire[..cut]), Feed::Done(_)),
            "prefix of {cut} bytes completed"
        );
    }
}

#[test]
fn oversized_headers_frame_aborts() {
    let mut wire = Vec::from(PREFACE);
    wire.extend(settings(&[(1, 65536)]));
    // Declare a HEADERS frame larger than the bound.
    let len = SNIFF_LIMIT + 1;
    wire.extend_from_slice(&[
        (len >> 16) as u8,
        (len >> 8) as u8,
        len as u8,
        FRAME_HEADERS,
        0x4,
    ]);
    wire.extend_from_slice(&1u32.to_be_bytes());
    let mut s = Sniffer::new();
    assert!(matches!(s.feed(&wire), Feed::Abort));
}

#[test]
fn buffer_is_bounded() {
    let mut s = Sniffer::new();
    assert!(matches!(s.feed(&PREFACE), Feed::More));
    // A stream of well-formed but useless frames must not grow the buffer past
    // the bound.
    let ping = frame(0x6, 0, 0, &[0u8; 8]);
    let mut fed = PREFACE.len();
    loop {
        match s.feed(&ping) {
            Feed::More => {
                fed += ping.len();
                assert!(s.buffered() <= SNIFF_LIMIT);
                assert!(fed < SNIFF_LIMIT + ping.len());
            }
            Feed::Abort => break,
            Feed::Done(_) => panic!("PING must not complete a fingerprint"),
        }
    }
}

#[test]
fn garbage_after_preface_aborts() {
    let mut wire = Vec::from(PREFACE);
    // SETTINGS with a payload length that is not a multiple of 6.
    wire.extend(frame(FRAME_SETTINGS, 0, 0, &[0u8; 5]));
    let mut s = Sniffer::new();
    assert!(matches!(s.feed(&wire), Feed::Abort));
}

#[test]
fn random_bytes_after_preface_never_panic() {
    // Cheap deterministic fuzz: LCG-generated payloads behind a valid preface.
    let mut state: u64 = 0x2545_F491_4F6C_DD1D;
    for _ in 0..2000 {
        let mut wire = Vec::from(PREFACE);
        let n = (state % 300) as usize;
        for _ in 0..n {
            state = state.wrapping_mul(6364136223846793005).wrapping_add(1);
            wire.push((state >> 33) as u8);
        }
        let mut s = Sniffer::new();
        let _ = s.feed(&wire); // must not panic
        state = state.wrapping_mul(6364136223846793005).wrapping_add(1);
    }
}

// ---- details of the format ----

#[test]
fn preface_is_the_one_of_http2() {
    assert_eq!(&PREFACE[..], b"PRI * HTTP/2.0\r\n\r\nSM\r\n\r\n");
    assert_eq!(SNIFF_LIMIT, 32768);
}

#[test]
fn every_split_into_two_reads_is_identical() {
    let mut wire = Vec::from(PREFACE);
    wire.extend(settings(&[(1, 65536), (2, 0)]));
    wire.extend(priority(3, true, 7, 256));
    wire.extend(headers(indexed(2)));
    assert_eq!(sniff(&wire).as_deref(), Some("1:65536;2:0|0|3:1:7:256|m"));
    for cut in 0..wire.len() {
        let mut s = Sniffer::new();
        assert!(matches!(s.feed(&wire[..cut]), Feed::More));
        assert_eq!(s.buffered(), cut);
        match s.feed(&wire[cut..]) {
            Feed::Done(fp) => assert_eq!(fp, "1:65536;2:0|0|3:1:7:256|m"),
            other => panic!("cut at {cut}: {other:?}"),
        }
        assert_eq!(s.buffered(), 0);
    }
}

#[test]
fn what_follows_the_first_headers_frame_does_not_matter() {
    let mut wire = Vec::from(PREFACE);
    wire.extend(settings(&[(4, 65535)]));
    wire.extend(headers(indexed(2)));
    let alone = sniff(&wire);
    wire.extend(window_update(1));
    wire.extend(headers(indexed(7)));
    assert_eq!(sniff(&wire), alone);
    assert_eq!(alone.as_deref(), Some("4:65535|0|0|m"));
}

#[test]
fn first_settings_and_first_window_update_stand() {
    let mut wire = Vec::from(PREFACE);
    wire.extend(frame(FRAME_SETTINGS, 0x1, 0, &[])); // acknowledgement
    wire.extend(settings(&[(6, 1), (1, 2), (65535, 4294967295)]));
    wire.extend(settings(&[(9, 9)]));
    wire.extend(frame(FRAME_WINDOW_UPDATE, 0, 1, &[0, 0, 0, 5])); // of a stream
    wire.extend(window_update(0x8000_0010)); // reserved bit set
    wire.extend(window_update(99));
    wire.extend(headers(indexed(2)));
    assert_eq!(sniff(&wire).as_deref(), Some("6:1;1:2;65535:4294967295|16|0|m"));
}

#[test]
fn malformed_frames_abort() {
    for bad in [
        frame(FRAME_WINDOW_UPDATE, 0, 0, &[0, 0, 1]),
        frame(FRAME_WINDOW_UPDATE, 0, 3, &[0; 5]),
        frame(FRAME_PRIORITY, 0, 3, &[0; 4]),
        frame(FRAME_SETTINGS, 0, 0, &[0; 7]),
        frame(FRAME_SETTINGS, 0x1, 0, &[0; 3]),
    ] {
        let mut wire = Vec::from(PREFACE);
        wire.extend(bad);
        let mut s = Sniffer::new();
        assert!(matches!(s.feed(&wire), Feed::Abort));
        assert_eq!(s.buffered(), 0);
    }
}

#[test]
fn priority_frames_are_capped() {
    let mut wire = Vec::from(PREFACE);
    for i in 0..20 {
        wire.extend(priority(0x8000_0000 + 2 * i + 1, false, i, 1));
    }
    wire.extend(headers(indexed(2)));
    let fp = sniff(&wire).unwrap();
    let parts: Vec<&str> = fp.split('|').collect();
    assert_eq!(parts.len(), 4);
    assert_eq!(parts[0], "");
    let recorded: Vec<&str> = parts[2].split(',').collect();
    assert_eq!(recorded.len(), MAX_PRIORITY_FRAMES);
    assert_eq!(recorded[0], "1:0:0:1");
    assert_eq!(recorded[15], "31:0:15:1");
}

#[test]
fn other_frames_do_not_show() {
    let mut wire = Vec::from(PREFACE);
    wire.extend(frame(0x6, 0, 0, &[0; 8])); // PING
    wire.extend(settings(&[(4, 65535)]));
    wire.extend(frame(0x3, 0, 1, &[0; 4])); // RST_STREAM
    wire.extend(frame(0x77, 0xff, 9, &[]));
    wire.extend(headers(indexed(2)));
    assert_eq!(sniff(&wire).as_deref(), Some("4:65535|0|0|m"));
}

#[test]
fn empty_preamble_still_has_four_components() {
    let mut wire = Vec::from(PREFACE);
    wire.extend(headers(Vec::new()));
    assert_eq!(sniff(&wire).as_deref(), Some("|0|0|"));
}

#[test]
fn input_over_the_limit_aborts_and_is_not_taken_in() {
    let mut s = Sniffer::new();
    assert!(matches!(s.feed(&PREFACE), Feed::More));
    let rest = vec![0u8; SNIFF_LIMIT - PREFACE.len() + 1];
    assert!(matches!(s.feed(&rest), Feed::Abort));
    assert_eq!(s.buffered(), PREFACE.len());
    // What still fits is taken in.
    assert!(matches!(s.feed(&rest[..8]), Feed::More));
    assert_eq!(s.buffered(), PREFACE.len() + 8);
}

#[test]
fn largest_frame_within_the_limit_is_waited_for() {
    let mut wire = Vec::from(PREFACE);
    wire.extend_from_slice(&[0, 0x80, 0, FRAME_HEADERS, 0, 0, 0, 0, 1]);
    let mut s = Sniffer::new();
    assert!(matches!(s.feed(&wire), Feed::More));
}

#[test]
fn parse_and_render_directly() {
    let mut s = Sniffer::new();
    assert_eq!(s.parse(), Ok(None));
    assert_eq!(s.render("x"), "|0|0|x");
    let mut wire = Vec::from(PREFACE);
    wire.extend(settings(&[(1, 10), (2, 205)]));
    wire.extend(window_update(7));
    assert!(matches!(s.feed(&wire), Feed::More));
    assert_eq!(s.parse(), Ok(None));
    assert_eq!(s.render("m,a"), "1:10;2:205|7|0|m,a");
}

#[test]
fn pieces_may_complete_before_the_limit_is_passed() {
    let mut wire = Vec::from(PREFACE);
    wire.extend(headers(indexed(2)));
    let complete = wire.len();
    wire.resize(SNIFF_LIMIT + 1, 0);
    // In one read there is too much to take in; in two the first completes.
    assert!(matches!(Sniffer::new().feed(&wire), Feed::Abort));
    match Sniffer::new().feed(&wire[..complete]) {
        Feed::Done(fp) => assert_eq!(fp, "|0|0|m"),
        other => panic!("{other:?}"),
    }
    // Exactly the limit is taken in.
    match Sniffer::new().feed(&wire[..SNIFF_LIMIT]) {
        Feed::Done(fp) => assert_eq!(fp, "|0|0|m"),
        other => panic!("{other:?}"),
    }
}

#[test]
fn fingerprints_tell_connections_apart() {
    let preambles: [Vec<u8>; 6] = [
        Vec::new(),
        settings(&[(1, 23), (4, 5)]),
        settings(&[(4, 5), (1, 23)]),
        settings(&[(12, 3), (4, 5)]),
        window_update(7),
        priority(1, false, 2, 3),
    ];
    let mut seen: Vec<String> = Vec::new();
    for preamble in preambles {
        for block in [indexed(2), indexed(7), Vec::new()] {
            let mut wire = Vec::from(PREFACE);
            wire.extend(&preamble);
            wire.extend(headers(block));
            let fp = sniff(&wire).unwrap();
            assert_eq!(fp.split('|').count(), 4);
            assert!(!seen.contains(&fp), "{fp} twice");
            seen.push(fp);
        }
    }
    assert_eq!(seen.len(), 18);
}

#[test]
fn malformed_later_settings_abort() {
    for flags in [0, 0x1] {
        let mut wire = Vec::from(PREFACE);
        wire.extend(settings(&[(4, 65535)]));
        wire.extend(frame(FRAME_SETTINGS, flags, 0, &[0u8; 5]));
        wire.extend(headers(vec![0x82]));
        let mut s = Sniffer::new();
        assert!(matches!(s.feed(&wire), Feed::Abort));
        assert_eq!(s.buffered(), 0);
    }
}

#[test]
fn a_sniffer_that_needs_bytes_renders_four_parts() {
    let mut wire = Vec::from(PREFACE);
    wire.extend(settings(&[(65535, 4294967295)]));
    wire.extend(frame(FRAME_WINDOW_UPDATE, 0, 0, &[0xff; 4]));
    wire.extend(frame(FRAME_PRIORITY, 0, 0xffff_ffff, &[0xff; 5]));
    wire.extend(frame(FRAME_PRIORITY, 0, 0, &[0; 5]));
    let mut s = Sniffer::new();
    assert!(matches!(s.feed(&wire), Feed::More));
    for order in ["", "m", "m,a,s,p"] {
        let text = s.render(order);
        let parts: Vec<&str> = text.split('|').collect();
        assert_eq!(
            parts,
            vec![
                "65535:4294967295",
                "2147483647",
                "2147483647:1:2147483647:256,0:0:0:1",
                order,
            ]
        );
    }
}
