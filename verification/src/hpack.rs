//! The part of HPACK (RFC 7541) that the order of pseudo-headers needs.
//!
//! No decoder state is kept. On a fresh connection the dynamic table is empty,
//! so an index up to 61 names a static entry, and literals carry their length,
//! so a header block can be walked from one representation to the next.

use crate::text;
use vstd::prelude::*;
use vstd::slice::slice_subrange;
use vstd::string::StrSliceExecFns;

verus! {

/// The most continuation octets that an integer may have: enough for every
/// 32-bit value.
pub const MAX_CONTINUATION: usize = 5;

/// The continuation octets of an integer, RFC 7541 section 5.1: seven bits each,
/// least significant first, the top bit set on all but the last. The value and
/// the bytes behind it, or `None` if the last octet is not among the first
/// `octets`.
pub open spec fn continuation(s: Seq<u8>, octets: nat) -> Option<(nat, Seq<u8>)>
    decreases octets,
{
    if octets == 0 || s.len() == 0 {
        None
    } else if s[0] < 128 {
        Some((s[0] as nat, s.skip(1)))
    } else {
        match continuation(s.skip(1), (octets - 1) as nat) {
            Some((high, rest)) => Some(((s[0] - 128 + 128 * high) as nat, rest)),
            None => None,
        }
    }
}

/// An integer with an N-bit prefix, RFC 7541 section 5.1: the value and the bytes
/// behind it.
pub open spec fn integer(s: Seq<u8>, prefix_bits: nat) -> Option<(nat, Seq<u8>)> {
    let modulus = vstd::arithmetic::power2::pow2(prefix_bits);
    if s.len() == 0 {
        None
    } else if s[0] as nat % modulus < modulus - 1 {
        Some((s[0] as nat % modulus, s.skip(1)))
    } else {
        match continuation(s.skip(1), MAX_CONTINUATION as nat) {
            Some((high, rest)) => Some(((modulus - 1 + high) as nat, rest)),
            None => None,
        }
    }
}

/// A string literal, RFC 7541 section 5.2: its text, or `None` in place of the
/// text if it is Huffman-coded, and the bytes behind it. A plain string that is
/// not UTF-8 is refused.
pub open spec fn string_literal(s: Seq<u8>) -> Option<(Option<Seq<char>>, Seq<u8>)> {
    match integer(s, 7) {
        None => None,
        Some((len, rest)) => if rest.len() < len {
            None
        } else if s[0] >= 128 {
            Some((None, rest.skip(len as int)))
        } else if vstd::utf8::valid_utf8(rest.take(len as int)) {
            Some((Some(vstd::utf8::decode_utf8(rest.take(len as int))), rest.skip(len as int)))
        } else {
            None
        },
    }
}

/// The bytes behind an integer's continuation are a shorter suffix.
pub proof fn lemma_continuation_suffix(s: Seq<u8>, octets: nat)
    ensures
        continuation(s, octets) matches Some((v, rest)) ==> rest.len() < s.len() && rest == s.skip(
            s.len() - rest.len(),
        ),
    decreases octets,
{
    if octets != 0 && s.len() != 0 && s[0] >= 128 {
        lemma_continuation_suffix(s.skip(1), (octets - 1) as nat);
        if let Some((v, rest)) = continuation(s.skip(1), (octets - 1) as nat) {
            assert(s.skip(1).skip(s.len() - 1 - rest.len()) =~= s.skip(s.len() - rest.len()));
        }
    }
}

/// The bytes behind an integer are a shorter suffix.
pub proof fn lemma_integer_suffix(s: Seq<u8>, prefix_bits: nat)
    ensures
        integer(s, prefix_bits) matches Some((v, rest)) ==> rest.len() < s.len() && rest == s.skip(
            s.len() - rest.len(),
        ),
{
    if s.len() != 0 {
        lemma_continuation_suffix(s.skip(1), MAX_CONTINUATION as nat);
        if let Some((v, rest)) = continuation(s.skip(1), MAX_CONTINUATION as nat) {
            assert(s.skip(1).skip(s.len() - 1 - rest.len()) =~= s.skip(s.len() - rest.len()));
        }
    }
}

/// The bytes behind a string literal are a shorter suffix.
pub proof fn lemma_string_suffix(s: Seq<u8>)
    ensures
        string_literal(s) matches Some((v, rest)) ==> rest.len() < s.len() && rest == s.skip(
            s.len() - rest.len(),
        ),
{
    lemma_integer_suffix(s, 7);
    if let Some((len, rest)) = integer(s, 7) {
        if len <= rest.len() {
            assert(rest.skip(len as int) =~= s.skip(s.len() - rest.skip(len as int).len()));
        }
    }
}

/// Decodes an integer with a prefix of `prefix_bits` bits. Returns the value and
/// the remaining bytes, or `None` if the input ends too early or the integer has
/// more than five continuation octets.
pub fn decode_int(buf: &[u8], prefix_bits: u32) -> (decoded: Option<(u64, &[u8])>)
    requires
        prefix_bits < 64,
    ensures
        match decoded {
            Some((value, rest)) => integer(buf@, prefix_bits as nat) == Some(
                (value as nat, rest@),
            ),
            None => integer(buf@, prefix_bits as nat) is None,
        },
{
    if buf.len() == 0 {
        return None;
    }
    let modulus: u64 = 1u64 << prefix_bits;
    proof {
        vstd::bits::lemma_u64_pow2_no_overflow(prefix_bits as nat);
        vstd::bits::lemma_u64_shl_is_mul(1, prefix_bits as u64);
    }
    let low: u64 = buf[0] as u64 % modulus;
    let mut rest = slice_subrange(buf, 1, buf.len());
    assert(rest@ =~= buf@.skip(1));
    if low < modulus - 1 {
        return Some((low, rest));
    }
    assert(low == modulus - 1 && low <= 255) by {
        vstd::arithmetic::div_mod::lemma_mod_bound(buf@[0] as int, modulus as int);
        vstd::arithmetic::div_mod::lemma_mod_decreases(buf@[0] as nat, modulus as nat);
    }
    let ghost tail = rest@;
    let mut value: u64 = low;
    let mut unit: u64 = 1;
    let mut i: usize = 0;
    while i < MAX_CONTINUATION
        invariant
            i <= MAX_CONTINUATION,
            MAX_CONTINUATION == 5,
            low <= 255,
            low <= value < 256 + unit,
            i == 0 ==> unit == 1,
            i == 1 ==> unit == 0x80,
            i == 2 ==> unit == 0x4000,
            i == 3 ==> unit == 0x20_0000,
            i == 4 ==> unit == 0x1000_0000,
            i == 5 ==> unit == 0x8_0000_0000,
            continuation(tail, 5) == match continuation(rest@, (5 - i) as nat) {
                Some((high, behind)) => Some(((value - low + unit * high) as nat, behind)),
                None => None,
            },
            buf@.len() > 0,
            tail == buf@.skip(1),
            modulus == vstd::arithmetic::power2::pow2(prefix_bits as nat),
            low == modulus - 1,
            low == buf@[0] as nat % modulus as nat,
        decreases MAX_CONTINUATION - i,
    {
        if rest.len() == 0 {
            return None;
        }
        let b: u8 = rest[0];
        let bits: u64 = (b % 128) as u64;
        assert(bits * unit <= 127 * unit) by (nonlinear_arith)
            requires
                bits <= 127,
        ;
        let ghost before = rest@;
        let ghost sum = value;
        rest = slice_subrange(rest, 1, rest.len());
        assert(rest@ =~= before.skip(1));
        value = value + bits * unit;
        if b < 128 {
            assert(bits == b as u64);
            assert(unit * (b as nat) == bits * unit) by (nonlinear_arith)
                requires
                    bits == b,
            ;
            return Some((value, rest));
        }
        assert(bits == b - 128);
        proof {
            if let Some((high, behind)) = continuation(rest@, (4 - i) as nat) {
                assert(unit * (b - 128 + 128 * high) == bits * unit + (unit * 128) * high)
                    by (nonlinear_arith)
                    requires
                        bits == b - 128,
                ;
            }
        }
        unit = unit * 128;
        i += 1;
    }
    None
}

/// `std::str::from_utf8`: the bytes as a string, if they are valid UTF-8.
#[verifier::external_body]
fn utf8_text(bytes: &[u8]) -> (text: Option<&str>)
    ensures
        text is Some <==> vstd::utf8::valid_utf8(bytes@),
        text matches Some(s) ==> vstd::utf8::encode_utf8(s@) == bytes@,
{
    std::str::from_utf8(bytes).ok()
}

/// Decodes a string literal. Returns `(None, rest)` for a Huffman-coded string,
/// which is skipped rather than decoded, and the remaining bytes in both cases.
pub fn decode_str(buf: &[u8]) -> (decoded: Option<(Option<String>, &[u8])>)
    ensures
        match decoded {
            Some((Some(text), rest)) => string_literal(buf@) == Some((Some(text@), rest@)),
            Some((None, rest)) => string_literal(buf@) == Some(
                (None::<Seq<char>>, rest@),
            ),
            None => string_literal(buf@) is None,
        },
{
    let (len, rest) = match decode_int(buf, 7) {
        Some(decoded) => decoded,
        None => {
            return None;
        },
    };
    if (rest.len() as u64) < len {
        return None;
    }
    let len: usize = len as usize;
    let raw = slice_subrange(rest, 0, len);
    let tail = slice_subrange(rest, len, rest.len());
    assert(raw@ =~= rest@.take(len as int));
    assert(tail@ =~= rest@.skip(len as int));
    if buf[0] >= 128 {
        return Some((None, tail));
    }
    match utf8_text(raw) {
        Some(text) => {
            proof {
                vstd::utf8::encode_utf8_decode_utf8(text@);
            }
            Some((Some(text.to_owned()), tail))
        },
        None => None,
    }
}

/// What an index or a literal name means for the walk.
#[derive(Debug, Clone, Copy, PartialEq, Eq, Structural)]
pub enum Field {
    /// A pseudo-header, represented by its letter.
    Pseudo(char),
    /// A regular header: the pseudo-header section is over (RFC 9113 section 8.3).
    Regular,
}

/// The field that a static-table index names, RFC 7541 appendix A. Index 0 names
/// none, and an index past 61 needs dynamic-table state.
pub open spec fn indexed_field(idx: nat) -> Option<Field> {
    if idx == 1 {
        Some(Field::Pseudo('a'))
    } else if idx == 2 || idx == 3 {
        Some(Field::Pseudo('m'))
    } else if idx == 4 || idx == 5 {
        Some(Field::Pseudo('p'))
    } else if idx == 6 || idx == 7 {
        Some(Field::Pseudo('s'))
    } else if 8 <= idx <= 61 {
        Some(Field::Regular)
    } else {
        None
    }
}

/// The field that a plain header name names. A pseudo-header without a letter
/// names none.
pub open spec fn named_field(name: Seq<char>) -> Option<Field> {
    if name == ":method"@ {
        Some(Field::Pseudo('m'))
    } else if name == ":authority"@ {
        Some(Field::Pseudo('a'))
    } else if name == ":scheme"@ {
        Some(Field::Pseudo('s'))
    } else if name == ":path"@ {
        Some(Field::Pseudo('p'))
    } else if name.len() > 0 && name[0] == ':' {
        None
    } else {
        Some(Field::Regular)
    }
}

/// Maps a static-table index to a field. `None` means that it cannot be resolved.
pub fn field_for_index(idx: u64) -> (field: Option<Field>)
    ensures
        field == indexed_field(idx as nat),
{
    match idx {
        // :authority
        1 => Some(Field::Pseudo('a')),
        // :method GET and POST
        2 | 3 => Some(Field::Pseudo('m')),
        // :path / and /index.html
        4 | 5 => Some(Field::Pseudo('p')),
        // :scheme http and https
        6 | 7 => Some(Field::Pseudo('s')),
        8..=61 => Some(Field::Regular),
        _ => None,
    }
}

/// Maps a plain header name to a field. `:protocol` (RFC 8441) and every unknown
/// pseudo-header have no letter: rather than drop one and report a wrong order,
/// they are not resolved.
pub fn field_for_name(name: &str) -> (field: Option<Field>)
    ensures
        field == named_field(name@),
{
    if text::same_text(name, ":method") {
        Some(Field::Pseudo('m'))
    } else if text::same_text(name, ":authority") {
        Some(Field::Pseudo('a'))
    } else if text::same_text(name, ":scheme") {
        Some(Field::Pseudo('s'))
    } else if text::same_text(name, ":path") {
        Some(Field::Pseudo('p'))
    } else if !name.is_empty() && name.get_char(0) == ':' {
        None
    } else {
        Some(Field::Regular)
    }
}

/// Cap on the pseudo-headers of a block. There are only four with a letter.
pub const MAX_PSEUDO: usize = 8;

/// HEADERS flag: the payload is padded, RFC 9113 section 6.2.
pub const FLAG_PADDED: u8 = 0x8;

/// HEADERS flag: priority fields precede the block, RFC 9113 section 6.2.
pub const FLAG_PRIORITY: u8 = 0x20;

/// The field of the literal representation whose index and what follows it are
/// given, and the bytes behind the representation.
pub open spec fn literal(idx: nat, s: Seq<u8>) -> Option<(Field, Seq<u8>)> {
    let named = if idx != 0 {
        match indexed_field(idx) {
            Some(field) => Some((field, s)),
            None => None,
        }
    } else {
        match string_literal(s) {
            Some((Some(name), rest)) => match named_field(name) {
                Some(field) => Some((field, rest)),
                None => None,
            },
            _ => None,
        }
    };
    match named {
        Some((field, value)) => match string_literal(value) {
            Some((_, rest)) => Some((field, rest)),
            None => None,
        },
        None => None,
    }
}

/// The first representation of a block, RFC 7541 section 6: its field, or `None`
/// in place of the field for a dynamic table size update, and the bytes behind
/// it. The outer `None` means that the block cannot be read on.
pub open spec fn representation(block: Seq<u8>) -> Option<(Option<Field>, Seq<u8>)> {
    let b = block[0];
    if b >= 0x80 {
        match integer(block, 7) {
            Some((idx, rest)) => match indexed_field(idx) {
                Some(field) => Some((Some(field), rest)),
                None => None,
            },
            None => None,
        }
    } else if 0x20 <= b < 0x40 {
        match integer(block, 5) {
            Some((_, rest)) => Some((None, rest)),
            None => None,
        }
    } else {
        match integer(block, if b >= 0x40 { 6 } else { 4 }) {
            Some((idx, s)) => match literal(idx, s) {
                Some((field, rest)) => Some((Some(field), rest)),
                None => None,
            },
            None => None,
        }
    }
}

/// The bytes behind a representation are a shorter suffix.
pub proof fn lemma_representation_suffix(block: Seq<u8>)
    requires
        block.len() > 0,
    ensures
        representation(block) matches Some((f, rest)) ==> rest.len() < block.len() && rest
            == block.skip(block.len() - rest.len()),
{
    let b = block[0];
    lemma_integer_suffix(block, 7);
    lemma_integer_suffix(block, 5);
    let prefix: nat = if b >= 0x40 {
        6
    } else {
        4
    };
    lemma_integer_suffix(block, prefix);
    if let Some((idx, s)) = integer(block, prefix) {
        lemma_string_suffix(s);
        if let Some((_, value)) = string_literal(s) {
            lemma_string_suffix(value);
        }
        if !(b >= 0x80) && !(0x20 <= b < 0x40) {
            if let Some((field, rest)) = literal(idx, s) {
                assert(rest =~= block.skip(block.len() - rest.len()));
            }
        }
    }
}

/// The letters of the pseudo-headers at the head of a block, in order, behind
/// those already found. `None` if the block cannot be read with certainty: a
/// representation that cannot be resolved, or a pseudo-header seen twice.
pub open spec fn pseudo_letters(block: Seq<u8>, found: Seq<char>) -> Option<Seq<char>>
    decreases block.len(),
{
    if block.len() == 0 {
        Some(found)
    } else {
        proof {
            lemma_representation_suffix(block);
        }
        match representation(block) {
            None => None,
            Some((None, rest)) => pseudo_letters(rest, found),
            Some((Some(Field::Regular), rest)) => Some(found),
            Some((Some(Field::Pseudo(letter)), rest)) => if found.contains(letter) || found.len()
                >= MAX_PSEUDO {
                None
            } else {
                pseudo_letters(rest, found.push(letter))
            },
        }
    }
}

/// Letters with commas between them.
pub open spec fn letters_text(letters: Seq<char>) -> Seq<char> {
    text::join(letters.map_values(|c: char| seq![c]), ',')
}

/// The pseudo-header order of a header block, if it can be told and is not empty.
pub open spec fn block_order(block: Seq<u8>) -> Option<Seq<char>> {
    match pseudo_letters(block, Seq::empty()) {
        Some(letters) => if letters.len() > 0 {
            Some(letters_text(letters))
        } else {
            None
        },
        None => None,
    }
}

/// The payload of a HEADERS frame without its padding, RFC 9113 section 6.2.
pub open spec fn unpadded(payload: Seq<u8>, flags: u8) -> Option<Seq<u8>> {
    if flags & FLAG_PADDED == 0 {
        Some(payload)
    } else if payload.len() == 0 || payload[0] > payload.len() - 1 {
        None
    } else {
        Some(payload.subrange(1, payload.len() - payload[0]))
    }
}

/// The header block of a HEADERS frame, RFC 9113 section 6.2.
pub open spec fn header_block(payload: Seq<u8>, flags: u8) -> Option<Seq<u8>> {
    match unpadded(payload, flags) {
        None => None,
        Some(body) => if flags & FLAG_PRIORITY == 0 {
            Some(body)
        } else if body.len() < 5 {
            None
        } else {
            Some(body.skip(5))
        },
    }
}

/// The pseudo-header order of a HEADERS frame, if it can be told.
pub open spec fn frame_order(payload: Seq<u8>, flags: u8) -> Option<Seq<char>> {
    match header_block(payload, flags) {
        Some(block) => block_order(block),
        None => None,
    }
}

/// Reads one literal representation behind its index.
fn read_literal(idx: u64, s: &[u8]) -> (read: Option<(Field, &[u8])>)
    ensures
        match read {
            Some((field, rest)) => literal(idx as nat, s@) == Some((field, rest@)),
            None => literal(idx as nat, s@) is None,
        },
{
    let (field, value) = if idx == 0 {
        let (name, rest) = decode_str(s)?;
        // A Huffman-coded name is not decoded, so it may be a pseudo-header.
        (field_for_name(name?.as_str())?, rest)
    } else {
        (field_for_index(idx)?, s)
    };
    // The value is skipped, whatever the name was.
    let (_, rest) = decode_str(value)?;
    Some((field, rest))
}

/// Reads one representation.
fn read_representation(block: &[u8]) -> (read: Option<(Option<Field>, &[u8])>)
    requires
        block@.len() > 0,
    ensures
        match read {
            Some((field, rest)) => representation(block@) == Some((field, rest@)),
            None => representation(block@) is None,
        },
{
    let b: u8 = block[0];
    if b >= 0x80 {
        // Indexed header field. No value follows.
        let (idx, rest) = decode_int(block, 7)?;
        Some((Some(field_for_index(idx)?), rest))
    } else if 0x20 <= b && b < 0x40 {
        // Dynamic table size update. Neither name nor value follows.
        let (_, rest) = decode_int(block, 5)?;
        Some((None, rest))
    } else {
        // Literal header field: with incremental indexing a 6-bit prefix,
        // without indexing or never indexed a 4-bit prefix.
        let (idx, s) = decode_int(
            block,
            if b >= 0x40 {
                6
            } else {
                4
            },
        )?;
        let (field, rest) = read_literal(idx, s)?;
        Some((Some(field), rest))
    }
}

/// Whether a letter is among those found.
fn has_letter(letters: &Vec<char>, letter: char) -> (found: bool)
    ensures
        found == letters@.contains(letter),
{
    let mut i: usize = 0;
    while i < letters.len()
        invariant
            i <= letters@.len(),
            forall|j: int| 0 <= j < i ==> letters@[j] != letter,
        decreases letters@.len() - i,
    {
        if letters[i] == letter {
            return true;
        }
        i += 1;
    }
    false
}

/// The letters with commas between them.
fn join_letters(letters: &Vec<char>) -> (out: String)
    ensures
        out@ == letters_text(letters@),
{
    let mut out = String::new();
    let ghost parts = letters@.map_values(|c: char| seq![c]);
    let mut i: usize = 0;
    while i < letters.len()
        invariant
            i <= letters@.len(),
            parts == letters@.map_values(|c: char| seq![c]),
            out@ == text::join(parts.take(i as int), ','),
        decreases letters@.len() - i,
    {
        if i > 0 {
            out.push(',');
        }
        out.push(letters[i]);
        proof {
            let next = parts.take(i + 1);
            assert(next.drop_last() =~= parts.take(i as int));
            assert(next.last() == seq![letters@[i as int]]);
        }
        i += 1;
    }
    assert(parts.take(i as int) =~= parts);
    out
}

/// Walks a header block for the order of its pseudo-headers. The walk stops at
/// the first regular header.
pub fn hpack_pseudo_order(block: &[u8]) -> (order: Option<String>)
    ensures
        text::opt_text(order) == block_order(block@),
{
    let mut left = block;
    let mut order: Vec<char> = Vec::new();
    let mut open: bool = true;
    while open && left.len() > 0
        invariant
            open ==> pseudo_letters(block@, Seq::empty()) == pseudo_letters(left@, order@),
            !open ==> pseudo_letters(block@, Seq::empty()) == Some(order@),
        decreases (if open { 1int } else { 0 }), left@.len(),
    {
        proof {
            lemma_representation_suffix(left@);
        }
        let (field, rest) = read_representation(left)?;
        left = rest;
        match field {
            None => {},
            Some(Field::Regular) => {
                open = false;
            },
            Some(Field::Pseudo(letter)) => {
                if has_letter(&order, letter) || order.len() >= MAX_PSEUDO {
                    return None;
                }
                order.push(letter);
            },
        }
    }
    if order.len() == 0 {
        return None;
    }
    Some(join_letters(&order))
}

/// Extracts the pseudo-header order from the payload of a HEADERS frame. `None`
/// means that it could not be told with certainty.
pub fn pseudo_order(payload: &[u8], flags: u8) -> (order: Option<String>)
    ensures
        text::opt_text(order) == frame_order(payload@, flags),
{
    let mut block = payload;
    if flags & FLAG_PADDED != 0 {
        if block.len() == 0 {
            return None;
        }
        let pad: usize = block[0] as usize;
        if pad > block.len() - 1 {
            return None;
        }
        block = slice_subrange(block, 1, block.len() - pad);
    }
    if flags & FLAG_PRIORITY != 0 {
        // A stream dependency of four bytes and a weight of one.
        if block.len() < 5 {
            return None;
        }
        let ghost body = block@;
        block = slice_subrange(block, 5, block.len());
        assert(block@ =~= body.skip(5));
    }
    hpack_pseudo_order(block)
}

} // verus!
