//! Integers, strings and header blocks.

use h2_fingerprint::hpack::{
    decode_int, decode_str, field_for_index, field_for_name, hpack_pseudo_order, pseudo_order,
    Field, FLAG_PADDED, FLAG_PRIORITY,
};

#[test]
fn integers_of_the_standard() {
    // The examples of RFC 7541 appendix C.1.
    assert_eq!(decode_int(&[0x0a], 5), Some((10, &[][..])));
    assert_eq!(decode_int(&[0xff, 0x9a, 0x0a, 7], 5), Some((1337, &[7][..])));
    assert_eq!(decode_int(&[0x2a], 8), Some((42, &[][..])));
}

#[test]
fn integers_at_the_edges() {
    assert_eq!(decode_int(&[], 7), None);
    assert_eq!(decode_int(&[0x7e, 1], 7), Some((126, &[1][..])));
    assert_eq!(decode_int(&[0x7f, 0], 7), Some((127, &[][..])));
    assert_eq!(decode_int(&[0x7f], 7), None);
    assert_eq!(decode_int(&[0x7f, 0x80], 7), None);
    // Five continuation octets are read, a sixth is not.
    assert_eq!(
        decode_int(&[0x7f, 0xff, 0xff, 0xff, 0xff, 0x7f], 7),
        Some((127 + 0x7_ffff_ffff, &[][..]))
    );
    assert_eq!(decode_int(&[0x7f, 0x80, 0x80, 0x80, 0x80, 0x80, 0], 7), None);
    // Prefixes as wide as the first octet and wider.
    assert_eq!(decode_int(&[0xff, 1], 8), Some((256, &[][..])));
    assert_eq!(decode_int(&[0xff, 1], 9), Some((255, &[1][..])));
    assert_eq!(decode_int(&[0xff], 63), Some((255, &[][..])));
    assert_eq!(decode_int(&[0xff, 1], 0), Some((1, &[][..])));
}

#[test]
fn strings_plain_and_coded() {
    let text = |s: &str| Some(s.to_string());
    assert_eq!(decode_str(&[3, b'G', b'E', b'T', 9]), Some((text("GET"), &[9][..])));
    assert_eq!(decode_str(&[0]), Some((text(""), &[][..])));
    assert_eq!(decode_str(&[0x82, 1, 2, 3]), Some((None, &[3][..])));
    assert_eq!(decode_str(&[]), None);
    assert_eq!(decode_str(&[3, b'G', b'E']), None);
    assert_eq!(decode_str(&[0x83, 1, 2]), None);
    // A plain string has to be UTF-8, a coded one does not.
    assert_eq!(decode_str(&[1, 0xff]), None);
    assert_eq!(decode_str(&[0x81, 0xff]), Some((None, &[][..])));
    assert_eq!(decode_str(&[2, 0xc3, 0xa9]), Some((text("\u{e9}"), &[][..])));
}

#[test]
fn fields_by_index() {
    let want = ['a', 'm', 'm', 'p', 'p', 's', 's'];
    assert_eq!(field_for_index(0), None);
    for (i, c) in want.iter().enumerate() {
        assert_eq!(field_for_index(i as u64 + 1), Some(Field::Pseudo(*c)));
    }
    assert_eq!(field_for_index(8), Some(Field::Regular));
    assert_eq!(field_for_index(61), Some(Field::Regular));
    assert_eq!(field_for_index(62), None);
    assert_eq!(field_for_index(u64::MAX), None);
}

#[test]
fn fields_by_name() {
    assert_eq!(field_for_name(":method"), Some(Field::Pseudo('m')));
    assert_eq!(field_for_name(":authority"), Some(Field::Pseudo('a')));
    assert_eq!(field_for_name(":scheme"), Some(Field::Pseudo('s')));
    assert_eq!(field_for_name(":path"), Some(Field::Pseudo('p')));
    assert_eq!(field_for_name(":protocol"), None);
    assert_eq!(field_for_name(":"), None);
    assert_eq!(field_for_name(":paths"), None);
    assert_eq!(field_for_name(""), Some(Field::Regular));
    assert_eq!(field_for_name("accept"), Some(Field::Regular));
    assert_eq!(field_for_name("\u{ff1a}path"), Some(Field::Regular));
}

#[test]
fn orders_of_blocks() {
    let order = |block: &[u8]| hpack_pseudo_order(block);
    assert_eq!(order(&[0x82, 0x87, 0x84, 0x81]).as_deref(), Some("m,s,p,a"));
    // A regular header ends the walk, whatever follows it.
    assert_eq!(order(&[0x82, 0x88, 0xff, 0xff]).as_deref(), Some("m"));
    // A regular header first, and nothing at all.
    assert_eq!(order(&[0x88, 0x82]), None);
    assert_eq!(order(&[]), None);
    // Table size updates do not show.
    assert_eq!(order(&[0x3f, 0xe1, 0x1f, 0x82, 0x20, 0x87]).as_deref(), Some("m,s"));
    assert_eq!(order(&[0x3f]), None);
    // Without indexing and never indexed: a 4-bit prefix.
    assert_eq!(order(&[0x02, 1, b'G', 0x14, 1, b'/']).as_deref(), Some("m,p"));
    // A coded value is skipped.
    assert_eq!(order(&[0x41, 0x82, 0xff, 0xff, 0x82]).as_deref(), Some("a,m"));
    // Index 0, a value that is cut off, and a value that is not UTF-8.
    assert_eq!(order(&[0x80]), None);
    assert_eq!(order(&[0x82, 0x44, 2, b'/']), None);
    assert_eq!(order(&[0x82, 0x44, 1, 0xff]), None);
    // The value is skipped after the field, so a regular one has to be whole too.
    assert_eq!(order(&[0x82, 0x48, 2, b'2']), None);
    // A name without a letter.
    let mut block = vec![0x82, 0x40, 9];
    block.extend_from_slice(b":protocol");
    block.extend_from_slice(&[1, b'x']);
    assert_eq!(order(&block), None);
    assert_eq!(order(&[0x82, 0x83]), None);
}

#[test]
fn padding_and_priority_fields() {
    assert_eq!(pseudo_order(&[0x82], 0).as_deref(), Some("m"));
    assert_eq!(pseudo_order(&[2, 0x82, 0, 0], FLAG_PADDED).as_deref(), Some("m"));
    assert_eq!(pseudo_order(&[0, 0x82], FLAG_PADDED).as_deref(), Some("m"));
    assert_eq!(pseudo_order(&[], FLAG_PADDED), None);
    assert_eq!(pseudo_order(&[3, 0x82, 0], FLAG_PADDED), None);
    assert_eq!(pseudo_order(&[2, 0x82, 0], FLAG_PADDED), None);
    assert_eq!(pseudo_order(&[0, 0, 0, 0, 9, 0x82], FLAG_PRIORITY).as_deref(), Some("m"));
    assert_eq!(pseudo_order(&[0, 0, 0, 0], FLAG_PRIORITY), None);
    assert_eq!(
        pseudo_order(&[1, 0, 0, 0, 0, 9, 0x82, 0], FLAG_PADDED | FLAG_PRIORITY).as_deref(),
        Some("m")
    );
}

/// An integer as HPACK writes it, with zeros above the prefix.
fn encoded(value: u64, prefix_bits: u32) -> Vec<u8> {
    let max = (1u64 << prefix_bits) - 1;
    if value < max {
        return vec![value as u8];
    }
    let mut out = vec![max as u8];
    let mut left = value - max;
    while left >= 128 {
        out.push((left % 128 + 128) as u8);
        left /= 128;
    }
    out.push(left as u8);
    out
}

#[test]
fn written_integers_are_read_back() {
    for prefix_bits in 1..=8 {
        for value in [0, 1, 14, 15, 127, 128, 255, 16383, 16384, 1337, 4294967295] {
            let mut bytes = encoded(value, prefix_bits);
            bytes.push(0xaa);
            assert_eq!(decode_int(&bytes, prefix_bits), Some((value, &[0xaa][..])));
        }
    }
}

#[test]
fn names_and_indices_agree() {
    for (idx, name) in [
        (1, ":authority"),
        (2, ":method"),
        (3, ":method"),
        (4, ":path"),
        (5, ":path"),
        (6, ":scheme"),
        (7, ":scheme"),
    ] {
        assert_eq!(field_for_index(idx), field_for_name(name));
    }
    for idx in 15..=61 {
        assert_eq!(field_for_index(idx), field_for_name("user-agent"));
    }
    // `:status`, which no request has.
    for idx in 8..=14 {
        assert_eq!(field_for_index(idx), Some(Field::Regular));
    }
    assert_eq!(field_for_name(":status"), None);
}
