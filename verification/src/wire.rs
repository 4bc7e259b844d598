//! What a client means and what it writes: the wire format from the sender's side,
//! and how a reader takes a fingerprint apart.
//!
//! Everything here is about the sender and the reader. The numbers are those of
//! RFC 9113 and RFC 7541.

use crate::text;
use vstd::prelude::*;

verus! {

/// The connection preface, RFC 9113 section 3.4.
pub open spec fn preface() -> Seq<u8> {
    seq![
        0x50, 0x52, 0x49, 0x20, 0x2a, 0x20, 0x48, 0x54, 0x54, 0x50, 0x2f, 0x32, 0x2e, 0x30, 0x0d,
        0x0a, 0x0d, 0x0a, 0x53, 0x4d, 0x0d, 0x0a, 0x0d, 0x0a,
    ]
}

/// `n` written in a number of bytes, most significant first.
pub open spec fn big_endian(n: nat, bytes: nat) -> Seq<u8>
    decreases bytes,
{
    if bytes == 0 {
        Seq::empty()
    } else {
        big_endian(n / 256, (bytes - 1) as nat).push((n % 256) as u8)
    }
}

/// A number of 31 bits behind a leading bit, in four bytes.
pub open spec fn bit_and_31(bit: bool, n: nat) -> Seq<u8> {
    big_endian(
        if bit {
            n + 0x8000_0000
        } else {
            n
        },
        4,
    )
}

/// What stands in a frame that is not HEADERS.
pub enum Body {
    /// SETTINGS: identifiers and values.
    Settings(Seq<(u16, u32)>),
    /// WINDOW_UPDATE: the reserved bit and the increment.
    WindowUpdate { reserved: bool, increment: nat },
    /// PRIORITY: the exclusive bit, the stream depended on and the weight.
    Priority { exclusive: bool, dependency: nat, weight: nat },
    /// A frame of another type.
    Other { kind: u8, payload: Seq<u8> },
}

/// A frame as it is sent.
pub struct SentFrame {
    pub flags: u8,
    /// The reserved bit in front of the stream.
    pub reserved: bool,
    pub stream: nat,
    pub body: Body,
}

/// The type of a frame.
pub open spec fn kind(body: Body) -> u8 {
    match body {
        Body::Settings(_) => 4,
        Body::WindowUpdate { .. } => 8,
        Body::Priority { .. } => 2,
        Body::Other { kind, .. } => kind,
    }
}

/// Settings as they are written, one after the other.
pub open spec fn settings_bytes(list: Seq<(u16, u32)>) -> Seq<u8>
    decreases list.len(),
{
    if list.len() == 0 {
        Seq::empty()
    } else {
        settings_bytes(list.drop_last()) + (big_endian(list.last().0 as nat, 2) + big_endian(
            list.last().1 as nat,
            4,
        ))
    }
}

/// The payload of a frame. A weight is written as one less than it is.
pub open spec fn payload_bytes(body: Body) -> Seq<u8> {
    match body {
        Body::Settings(list) => settings_bytes(list),
        Body::WindowUpdate { reserved, increment } => bit_and_31(reserved, increment),
        Body::Priority { exclusive, dependency, weight } => bit_and_31(exclusive, dependency).push(
            (weight - 1) as u8,
        ),
        Body::Other { payload, .. } => payload,
    }
}

/// The bytes of a frame header that declares a payload length.
pub open spec fn header_bytes(len: nat, kind: u8, flags: u8, reserved: bool, stream: nat) -> Seq<
    u8,
> {
    big_endian(len, 3).push(kind).push(flags) + bit_and_31(reserved, stream)
}

/// The bytes of a frame.
pub open spec fn frame_bytes(
    kind: u8,
    flags: u8,
    reserved: bool,
    stream: nat,
    payload: Seq<u8>,
) -> Seq<u8> {
    header_bytes(payload.len(), kind, flags, reserved, stream) + payload
}

/// The bytes of a frame that is not HEADERS.
pub open spec fn sent_bytes(frame: SentFrame) -> Seq<u8> {
    frame_bytes(
        kind(frame.body),
        frame.flags,
        frame.reserved,
        frame.stream,
        payload_bytes(frame.body),
    )
}

/// Whether a frame can be written, with a payload of no more than 32 KiB.
pub open spec fn frame_fits(frame: SentFrame) -> bool {
    &&& frame.stream < 0x8000_0000
    &&& match frame.body {
        Body::Settings(list) => 6 * list.len() <= 0x8000,
        Body::WindowUpdate { increment, .. } => increment < 0x8000_0000,
        Body::Priority { dependency, weight, .. } => dependency < 0x8000_0000 && 1 <= weight
            <= 256,
        Body::Other { kind, payload } => kind != 1 && kind != 2 && kind != 4 && kind != 8
            && payload.len() <= 0x8000,
    }
}

/// Whether all frames can be written.
pub open spec fn frames_fit(frames: Seq<SentFrame>) -> bool {
    forall|i: int| 0 <= i < frames.len() ==> frame_fits(#[trigger] frames[i])
}

/// The bytes of frames, one after the other.
pub open spec fn all_sent_bytes(frames: Seq<SentFrame>) -> Seq<u8>
    decreases frames.len(),
{
    if frames.len() == 0 {
        Seq::empty()
    } else {
        sent_bytes(frames[0]) + all_sent_bytes(frames.drop_first())
    }
}

/// The settings of the first SETTINGS frame that is no acknowledgement: whose flags
/// are even.
pub open spec fn first_settings(frames: Seq<SentFrame>) -> Option<Seq<(u16, u32)>>
    decreases frames.len(),
{
    if frames.len() == 0 {
        None
    } else {
        match frames[0].body {
            Body::Settings(list) => if frames[0].flags % 2 == 0 {
                Some(list)
            } else {
                first_settings(frames.drop_first())
            },
            _ => first_settings(frames.drop_first()),
        }
    }
}

/// The increment of the first WINDOW_UPDATE on stream 0.
pub open spec fn first_increment(frames: Seq<SentFrame>) -> Option<nat>
    decreases frames.len(),
{
    if frames.len() == 0 {
        None
    } else {
        match frames[0].body {
            Body::WindowUpdate { increment, .. } => if frames[0].stream == 0 {
                Some(increment)
            } else {
                first_increment(frames.drop_first())
            },
            _ => first_increment(frames.drop_first()),
        }
    }
}

/// The numbers of the PRIORITY frames: stream, exclusive bit, stream depended on
/// and weight.
pub open spec fn priorities(frames: Seq<SentFrame>) -> Seq<Seq<nat>>
    decreases frames.len(),
{
    if frames.len() == 0 {
        Seq::empty()
    } else {
        let others = priorities(frames.drop_first());
        match frames[0].body {
            Body::Priority { exclusive, dependency, weight } => seq![
                seq![
                    frames[0].stream,
                    if exclusive {
                        1nat
                    } else {
                        0nat
                    },
                    dependency,
                    weight,
                ],
            ] + others,
            _ => others,
        }
    }
}

/// The first of a list, no more than `n` of it.
pub open spec fn at_most<T>(list: Seq<T>, n: int) -> Seq<T> {
    if list.len() <= n {
        list
    } else {
        list.take(n)
    }
}

/// `v` in exactly `octets` octets of seven bits, least significant first, with the
/// top bit set on all but the last.
pub open spec fn septets(v: nat, octets: nat) -> Seq<u8>
    decreases octets,
{
    if octets <= 1 {
        seq![v as u8]
    } else {
        seq![(v % 128 + 128) as u8] + septets(v / 128, (octets - 1) as nat)
    }
}

/// The integer `v` with a prefix of `bits` bits under `high`, and with `octets`
/// continuation octets if the prefix does not hold it, RFC 7541 section 5.1.
pub open spec fn integer_bytes(v: nat, bits: nat, high: nat, octets: nat) -> Seq<u8> {
    let full = (vstd::arithmetic::power2::pow2(bits) - 1) as nat;
    if v < full {
        seq![(high * (full + 1) + v) as u8]
    } else {
        seq![(high * (full + 1) + full) as u8] + septets((v - full) as nat, octets)
    }
}

/// Whether an integer can be written so, with no more than five continuation octets.
pub open spec fn integer_fits(v: nat, bits: nat, octets: nat) -> bool {
    let full = (vstd::arithmetic::power2::pow2(bits) - 1) as nat;
    v < full || 1 <= octets <= 5 && v - full < vstd::arithmetic::power::pow(128, octets)
}

/// A string literal as it is sent: its octets, whether they are Huffman-coded, and
/// how many continuation octets its length has if it needs any.
pub struct Literal {
    pub coded: bool,
    pub octets: Seq<u8>,
    pub extra: nat,
}

/// The bytes of a string literal, RFC 7541 section 5.2.
pub open spec fn literal_bytes(l: Literal) -> Seq<u8> {
    integer_bytes(
        l.octets.len(),
        7,
        if l.coded {
            1
        } else {
            0
        },
        l.extra,
    ) + l.octets
}

/// Whether a string literal can be written.
pub open spec fn literal_fits(l: Literal) -> bool {
    integer_fits(l.octets.len(), 7, l.extra)
}

/// How a literal header field asks to be indexed.
pub enum Form {
    Incremental,
    Without,
    Never,
}

/// A representation in a header block, RFC 7541 section 6. The number `extra` is that
/// of the continuation octets of the size or index, if it needs any.
pub enum Item {
    Resize { size: nat, extra: nat },
    Indexed { index: nat, extra: nat },
    IndexedName { form: Form, index: nat, extra: nat, value: Literal },
    NewName { form: Form, name: Literal, value: Literal },
}

/// How many bits of the first octet hold the index of a literal header field.
pub open spec fn form_bits(form: Form) -> nat {
    match form {
        Form::Incremental => 6,
        Form::Without => 4,
        Form::Never => 4,
    }
}

/// What stands above those bits.
pub open spec fn form_high(form: Form) -> nat {
    match form {
        Form::Incremental => 1,
        Form::Without => 0,
        Form::Never => 1,
    }
}

/// The bytes of a representation.
pub open spec fn item_bytes(item: Item) -> Seq<u8> {
    match item {
        Item::Resize { size, extra } => integer_bytes(size, 5, 1, extra),
        Item::Indexed { index, extra } => integer_bytes(index, 7, 1, extra),
        Item::IndexedName { form, index, extra, value } => integer_bytes(
            index,
            form_bits(form),
            form_high(form),
            extra,
        ) + literal_bytes(value),
        Item::NewName { form, name, value } => integer_bytes(
            0,
            form_bits(form),
            form_high(form),
            0,
        ) + literal_bytes(name) + literal_bytes(value),
    }
}

/// Whether a representation can be written.
pub open spec fn item_fits(item: Item) -> bool {
    match item {
        Item::Resize { size, extra } => integer_fits(size, 5, extra),
        Item::Indexed { index, extra } => integer_fits(index, 7, extra),
        Item::IndexedName { form, index, extra, value } => index > 0 && integer_fits(
            index,
            form_bits(form),
            extra,
        ) && literal_fits(value),
        Item::NewName { name, value, .. } => literal_fits(name) && literal_fits(value),
    }
}

/// Whether all representations can be written.
pub open spec fn items_fit(items: Seq<Item>) -> bool {
    forall|i: int| 0 <= i < items.len() ==> item_fits(#[trigger] items[i])
}

/// The bytes of representations, one after the other.
pub open spec fn all_item_bytes(items: Seq<Item>) -> Seq<u8>
    decreases items.len(),
{
    if items.len() == 0 {
        Seq::empty()
    } else {
        item_bytes(items[0]) + all_item_bytes(items.drop_first())
    }
}

/// What a representation is to one who reads the order of pseudo-headers.
pub enum Meaning {
    /// No header.
    Nothing,
    /// The pseudo-header with this letter.
    Letter(char),
    /// A regular header.
    Regular,
    /// Something that cannot be told.
    Uncertain,
}

/// What the entries of the static table are, RFC 7541 appendix A.
pub open spec fn entry_meaning(index: nat) -> Meaning {
    if index == 1 {
        Meaning::Letter('a')
    } else if 2 <= index <= 3 {
        Meaning::Letter('m')
    } else if 4 <= index <= 5 {
        Meaning::Letter('p')
    } else if 6 <= index <= 7 {
        Meaning::Letter('s')
    } else if 8 <= index <= 61 {
        Meaning::Regular
    } else {
        Meaning::Uncertain
    }
}

/// What a header name is.
pub open spec fn name_meaning(name: Seq<char>) -> Meaning {
    if name == ":authority"@ {
        Meaning::Letter('a')
    } else if name == ":method"@ {
        Meaning::Letter('m')
    } else if name == ":path"@ {
        Meaning::Letter('p')
    } else if name == ":scheme"@ {
        Meaning::Letter('s')
    } else if name.len() > 0 && name[0] == ':' {
        Meaning::Uncertain
    } else {
        Meaning::Regular
    }
}

/// Whether a string literal can be read past: it is coded, or it is UTF-8.
pub open spec fn legible(l: Literal) -> bool {
    l.coded || vstd::utf8::valid_utf8(l.octets)
}

/// What a representation is.
pub open spec fn item_meaning(item: Item) -> Meaning {
    match item {
        Item::Resize { .. } => Meaning::Nothing,
        Item::Indexed { index, .. } => entry_meaning(index),
        Item::IndexedName { index, value, .. } => if legible(value) {
            entry_meaning(index)
        } else {
            Meaning::Uncertain
        },
        Item::NewName { name, value, .. } => if !name.coded && legible(name) && legible(value) {
            name_meaning(vstd::utf8::decode_utf8(name.octets))
        } else {
            Meaning::Uncertain
        },
    }
}

/// The letters of the pseudo-headers among the representations, in order.
pub open spec fn letters(items: Seq<Item>) -> Seq<char>
    decreases items.len(),
{
    if items.len() == 0 {
        Seq::empty()
    } else {
        let others = letters(items.drop_first());
        match item_meaning(items[0]) {
            Meaning::Letter(c) => seq![c] + others,
            _ => others,
        }
    }
}

/// Whether there are only pseudo-headers with a letter, none of them twice, and
/// table size updates.
pub open spec fn pseudo_section(items: Seq<Item>) -> bool {
    &&& items_fit(items)
    &&& letters(items).no_duplicates()
    &&& forall|i: int|
        0 <= i < items.len() ==> {
            ||| item_meaning(#[trigger] items[i]) is Nothing
            ||| item_meaning(items[i]) is Letter
        }
}

/// A HEADERS frame as it is sent.
pub struct SentHeaders {
    pub flags: u8,
    pub reserved: bool,
    pub stream: nat,
    pub padding: Option<Seq<u8>>,
    pub priority: Option<Seq<u8>>,
    pub block: Seq<u8>,
}

/// The payload of a HEADERS frame, RFC 9113 section 6.2: the length of the padding,
/// the priority fields, the header block and the padding.
pub open spec fn headers_payload(h: SentHeaders) -> Seq<u8> {
    let body = match h.priority {
        Some(fields) => fields + h.block,
        None => h.block,
    };
    match h.padding {
        Some(padding) => seq![padding.len() as u8] + body + padding,
        None => body,
    }
}

/// The bytes of a HEADERS frame.
pub open spec fn headers_bytes(h: SentHeaders) -> Seq<u8> {
    frame_bytes(1, h.flags, h.reserved, h.stream, headers_payload(h))
}

/// Whether a HEADERS frame can be written, and its flags say what it holds.
pub open spec fn headers_fit(h: SentHeaders) -> bool {
    &&& h.stream < 0x8000_0000
    &&& headers_payload(h).len() <= 0x8000
    &&& (h.padding is Some) == (h.flags & 0x8 != 0)
    &&& (h.priority is Some) == (h.flags & 0x20 != 0)
    &&& h.padding matches Some(padding) ==> padding.len() < 256
    &&& h.priority matches Some(fields) ==> fields.len() == 5
}

/// The number that decimal digits stand for.
pub open spec fn digits_value(s: Seq<char>) -> nat
    decreases s.len(),
{
    if s.len() == 0 {
        0
    } else {
        (digits_value(s.drop_last()) * 10 + (s.last() as nat - '0' as nat)) as nat
    }
}

/// Whether a text is the decimal number `n`: digits, without a leading zero.
pub open spec fn is_numeral(s: Seq<char>, n: nat) -> bool {
    &&& s.len() > 0
    &&& forall|i: int| 0 <= i < s.len() ==> '0' <= #[trigger] s[i] <= '9'
    &&& s.len() > 1 ==> s[0] != '0'
    &&& digits_value(s) == n
}

/// Whether a text is these numbers with colons between them.
pub open spec fn is_numerals(s: Seq<char>, numbers: Seq<nat>) -> bool {
    let parts = text::split(s, ':');
    &&& parts.len() == numbers.len()
    &&& forall|i: int| 0 <= i < parts.len() ==> is_numeral(#[trigger] parts[i], numbers[i])
}

/// Whether a text is these letters with commas between them.
pub open spec fn spells(s: Seq<char>, letters: Seq<char>) -> bool {
    if letters.len() == 0 {
        s.len() == 0
    } else {
        &&& s.len() == 2 * letters.len() - 1
        &&& forall|i: int| 0 <= i < letters.len() ==> s[2 * i] == #[trigger] letters[i]
        &&& forall|i: int| 0 <= i < s.len() && i % 2 == 1 ==> #[trigger] s[i] == ','
    }
}

/// Whether a text is a list of settings: nothing for none of them, and otherwise
/// `id:value` with semicolons between them.
pub open spec fn says_settings(s: Seq<char>, settings: Seq<(u16, u32)>) -> bool {
    if settings.len() == 0 {
        s.len() == 0
    } else {
        let parts = text::split(s, ';');
        &&& parts.len() == settings.len()
        &&& forall|i: int|
            0 <= i < parts.len() ==> is_numerals(
                #[trigger] parts[i],
                seq![settings[i].0 as nat, settings[i].1 as nat],
            )
    }
}

/// Whether a text is a list of priorities: `0` for none of them, and otherwise their
/// numbers with commas between the priorities.
pub open spec fn says_priorities(s: Seq<char>, list: Seq<Seq<nat>>) -> bool {
    if list.len() == 0 {
        s == seq!['0']
    } else {
        let parts = text::split(s, ',');
        &&& parts.len() == list.len()
        &&& forall|i: int| 0 <= i < parts.len() ==> is_numerals(#[trigger] parts[i], list[i])
    }
}

/// Whether a fingerprint says this of a connection.
pub open spec fn says(
    fingerprint: Seq<char>,
    settings: Seq<(u16, u32)>,
    increment: nat,
    list: Seq<Seq<nat>>,
    letters: Seq<char>,
) -> bool {
    let parts = text::split(fingerprint, '|');
    &&& parts.len() == 4
    &&& says_settings(parts[0], settings)
    &&& is_numeral(parts[1], increment)
    &&& says_priorities(parts[2], list)
    &&& spells(parts[3], letters)
}

/// Whether a fingerprint says of a connection what was sent in its frames and, in
/// its first HEADERS frame, with these letters.
pub open spec fn says_what_was_sent(
    fingerprint: Seq<char>,
    frames: Seq<SentFrame>,
    letters: Seq<char>,
) -> bool {
    says(
        fingerprint,
        match first_settings(frames) {
            Some(list) => list,
            None => Seq::empty(),
        },
        match first_increment(frames) {
            Some(increment) => increment,
            None => 0,
        },
        at_most(priorities(frames), 16),
        letters,
    )
}

} // verus!
