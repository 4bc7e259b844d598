//! The model: what the first bytes of an HTTP/2 connection say.
//!
//! A client opens with the preface, then sends frames (RFC 9113 sections 3.4, 4
//! and 6). Up to the first HEADERS frame those frames are gathered, and with it
//! the fingerprint is complete.

use crate::{hpack, text};
use vstd::prelude::*;

verus! {

/// Client connection preface, RFC 9113 section 3.4:
/// `PRI * HTTP/2.0\r\n\r\nSM\r\n\r\n`.
pub const PREFACE: [u8; 24] = [
    0x50, 0x52, 0x49, 0x20, 0x2a, 0x20, 0x48, 0x54, 0x54, 0x50, 0x2f, 0x32, 0x2e, 0x30, 0x0d, 0x0a,
    0x0d, 0x0a, 0x53, 0x4d, 0x0d, 0x0a, 0x0d, 0x0a,
];

/// Upper bound on the bytes copied for sniffing, per connection: twice the default
/// of `SETTINGS_MAX_FRAME_SIZE` (RFC 9113 section 6.5.2), which leaves room for a
/// full first HEADERS frame of the default size behind the other frames.
pub const SNIFF_LIMIT: usize = 32 * 1024;

/// Cap on recorded PRIORITY frames, so that a client cannot grow the output
/// without bound.
pub const MAX_PRIORITY_FRAMES: usize = 16;

/// Bytes of a frame header, RFC 9113 section 4.1.
pub const FRAME_HEADER: usize = 9;

/// Frame type HEADERS, RFC 9113 section 6.2.
pub const FRAME_HEADERS: u8 = 0x1;

/// Frame type PRIORITY, RFC 9113 section 6.3.
pub const FRAME_PRIORITY: u8 = 0x2;

/// Frame type SETTINGS, RFC 9113 section 6.5.
pub const FRAME_SETTINGS: u8 = 0x4;

/// Frame type WINDOW_UPDATE, RFC 9113 section 6.9.
pub const FRAME_WINDOW_UPDATE: u8 = 0x8;

/// SETTINGS flag: acknowledgement, RFC 9113 section 6.5.
pub const FLAG_ACK: u8 = 0x1;

/// Bytes of one setting: an identifier of two and a value of four.
pub const SETTING_SIZE: usize = 6;

/// What is gathered from the frames before the first HEADERS frame.
#[verifier::ext_equal]
pub struct Gathered {
    /// Whether a SETTINGS frame that is no acknowledgement was seen.
    pub seen_settings: bool,
    /// The settings of that frame, in the order sent.
    pub settings: Seq<(u16, u32)>,
    /// The increment of the first WINDOW_UPDATE of the connection.
    pub window_update: Option<u32>,
    /// The texts of the PRIORITY frames.
    pub priorities: Seq<Seq<char>>,
}

/// One frame.
pub struct Frame {
    pub kind: u8,
    pub flags: u8,
    pub stream: nat,
    pub payload: Seq<u8>,
}

/// What a frame does.
pub enum Effect {
    /// It is gathered, or passed over.
    Gather(Gathered),
    /// It completes the fingerprint.
    Finish(Seq<char>),
    /// It is malformed.
    Refuse,
}

/// What the bytes so far amount to.
pub enum Outcome {
    /// More bytes are needed.
    Pending,
    /// The fingerprint is complete.
    Complete(Seq<char>),
    /// There will be no fingerprint.
    Refused,
}

/// What a walk over frames comes to.
#[verifier::ext_equal]
pub struct Scan {
    pub outcome: Outcome,
    pub got: Gathered,
    /// The length of the frames that were gathered or passed over.
    pub used: nat,
}

/// The state of a sniffer.
#[verifier::ext_equal]
pub struct SnifferState {
    /// The bytes received.
    pub buf: Seq<u8>,
    /// How many of them belong to the preface and to frames dealt with.
    pub pos: nat,
    /// Whether the preface was received whole.
    pub preface_done: bool,
    pub got: Gathered,
}

/// The 16-bit number at `i`, most significant byte first.
pub open spec fn be16(s: Seq<u8>, i: int) -> nat {
    (s[i] * 0x100 + s[i + 1]) as nat
}

/// The 24-bit number at `i`, most significant byte first.
pub open spec fn be24(s: Seq<u8>, i: int) -> nat {
    (s[i] * 0x1_0000 + s[i + 1] * 0x100 + s[i + 2]) as nat
}

/// The 32-bit number at `i`, most significant byte first.
pub open spec fn be32(s: Seq<u8>, i: int) -> nat {
    (s[i] * 0x100_0000 + s[i + 1] * 0x1_0000 + s[i + 2] * 0x100 + s[i + 3]) as nat
}

/// The low 31 bits of a 32-bit number: without its reserved or exclusive bit.
pub open spec fn low31(n: nat) -> nat {
    n % 0x8000_0000
}

/// The setting number `k` of a SETTINGS payload.
pub open spec fn setting_at(payload: Seq<u8>, k: int) -> (u16, u32) {
    (
        be16(payload, SETTING_SIZE * k) as u16,
        be32(payload, SETTING_SIZE * k + 2) as u32,
    )
}

/// The settings of a SETTINGS payload, in order.
pub open spec fn settings_of(payload: Seq<u8>) -> Seq<(u16, u32)> {
    Seq::new(payload.len() / SETTING_SIZE as nat, |k: int| setting_at(payload, k))
}

/// A setting as `id:value`.
pub open spec fn setting_text(setting: (u16, u32)) -> Seq<char> {
    text::join(seq![text::decimal(setting.0 as nat), text::decimal(setting.1 as nat)], ':')
}

/// A PRIORITY frame as `stream:exclusive:dependency:weight`. On the wire the
/// weight is one less than it is (RFC 9113 section 6.3).
pub open spec fn priority_text(stream: nat, payload: Seq<u8>) -> Seq<char> {
    let dependency = be32(payload, 0);
    text::join(
        seq![
            text::decimal(stream),
            text::decimal(dependency / 0x8000_0000),
            text::decimal(low31(dependency)),
            text::decimal((payload[4] + 1) as nat),
        ],
        ':',
    )
}

/// The settings component: the settings joined by `;`.
pub open spec fn settings_component(got: Gathered) -> Seq<char> {
    text::join(got.settings.map_values(|s: (u16, u32)| setting_text(s)), ';')
}

/// The window component: the increment, or 0 without one.
pub open spec fn window_component(got: Gathered) -> Seq<char> {
    text::decimal(
        match got.window_update {
            Some(increment) => increment as nat,
            None => 0,
        },
    )
}

/// The priority component: the PRIORITY frames joined by `,`, or 0 without one.
pub open spec fn priority_component(got: Gathered) -> Seq<char> {
    if got.priorities.len() == 0 {
        seq!['0']
    } else {
        text::join(got.priorities, ',')
    }
}

/// The fingerprint: the four components joined by `|`.
pub open spec fn fingerprint(got: Gathered, order: Seq<char>) -> Seq<char> {
    text::join(
        seq![settings_component(got), window_component(got), priority_component(got), order],
        '|',
    )
}

/// What a frame does to what was gathered before it.
#[verifier::opaque]
pub open spec fn effect(got: Gathered, frame: Frame) -> Effect {
    let payload = frame.payload;
    if frame.kind == FRAME_SETTINGS {
        if payload.len() % SETTING_SIZE as nat != 0 {
            Effect::Refuse
        } else if frame.flags & FLAG_ACK != 0 || got.seen_settings {
            Effect::Gather(got)
        } else {
            Effect::Gather(
                Gathered {
                    seen_settings: true,
                    settings: got.settings + settings_of(payload),
                    ..got
                },
            )
        }
    } else if frame.kind == FRAME_WINDOW_UPDATE {
        if payload.len() != 4 {
            Effect::Refuse
        } else if frame.stream != 0 || got.window_update is Some {
            Effect::Gather(got)
        } else {
            Effect::Gather(
                Gathered { window_update: Some(low31(be32(payload, 0)) as u32), ..got },
            )
        }
    } else if frame.kind == FRAME_PRIORITY {
        if payload.len() != 5 {
            Effect::Refuse
        } else if got.priorities.len() >= MAX_PRIORITY_FRAMES {
            Effect::Gather(got)
        } else {
            Effect::Gather(
                Gathered {
                    priorities: got.priorities.push(priority_text(frame.stream, payload)),
                    ..got
                },
            )
        }
    } else if frame.kind == FRAME_HEADERS {
        Effect::Finish(
            fingerprint(
                got,
                match hpack::frame_order(payload, frame.flags) {
                    Some(order) => order,
                    None => Seq::empty(),
                },
            ),
        )
    } else {
        Effect::Gather(got)
    }
}

/// The payload length that the frame header at the head of `s` declares.
pub open spec fn payload_len(s: Seq<u8>) -> nat {
    be24(s, 0)
}

/// The length of the frame at the head of `s`, header and payload.
pub open spec fn frame_len(s: Seq<u8>) -> nat {
    FRAME_HEADER as nat + payload_len(s)
}

/// The frame at the head of `s`, RFC 9113 section 4.1.
pub open spec fn first_frame(s: Seq<u8>) -> Frame {
    Frame {
        kind: s[3],
        flags: s[4],
        stream: low31(be32(s, 5)),
        payload: s.subrange(FRAME_HEADER as int, frame_len(s) as int),
    }
}

/// Walks the frames in `rest`, with `got` gathered before.
pub open spec fn scan(got: Gathered, rest: Seq<u8>) -> Scan
    decreases rest.len(),
{
    if rest.len() < FRAME_HEADER {
        Scan { outcome: Outcome::Pending, got, used: 0 }
    } else if payload_len(rest) > SNIFF_LIMIT {
        Scan { outcome: Outcome::Refused, got, used: 0 }
    } else if rest.len() < frame_len(rest) {
        Scan { outcome: Outcome::Pending, got, used: 0 }
    } else {
        match effect(got, first_frame(rest)) {
            Effect::Gather(next) => {
                let tail = scan(next, rest.skip(frame_len(rest) as int));
                Scan { used: frame_len(rest) + tail.used, ..tail }
            },
            Effect::Finish(text) => Scan { outcome: Outcome::Complete(text), got, used: 0 },
            Effect::Refuse => Scan { outcome: Outcome::Refused, got, used: 0 },
        }
    }
}

/// Whether `s` and the preface are the same as far as both go.
pub open spec fn agrees_with_preface(s: Seq<u8>) -> bool {
    forall|i: int| 0 <= i < s.len() && i < PREFACE@.len() ==> s[i] == #[trigger] PREFACE@[i]
}

/// Nothing gathered.
pub open spec fn nothing() -> Gathered {
    Gathered {
        seen_settings: false,
        settings: Seq::empty(),
        window_update: None,
        priorities: Seq::empty(),
    }
}

/// A sniffer that has received `buf` and not looked at it yet.
pub open spec fn unread(buf: Seq<u8>) -> SnifferState {
    SnifferState { buf, pos: 0, preface_done: false, got: nothing() }
}

/// What a look at the buffered bytes comes to, and the state after it.
pub open spec fn parsed(st: SnifferState) -> (Outcome, SnifferState) {
    if !st.preface_done && !agrees_with_preface(st.buf) {
        (Outcome::Refused, st)
    } else if !st.preface_done && st.buf.len() < PREFACE@.len() {
        (Outcome::Pending, st)
    } else {
        let start = if st.preface_done {
            st.pos
        } else {
            PREFACE@.len()
        };
        let s = scan(st.got, st.buf.skip(start as int));
        (s.outcome, SnifferState { pos: start + s.used, preface_done: true, got: s.got, ..st })
    }
}

/// What more bytes come to, and the state after them. When sniffing ends the
/// buffer is given up; bytes past the limit are not taken in at all.
pub open spec fn fed(st: SnifferState, data: Seq<u8>) -> (Outcome, SnifferState) {
    if st.buf.len() + data.len() > SNIFF_LIMIT {
        (Outcome::Refused, st)
    } else {
        let (outcome, next) = parsed(SnifferState { buf: st.buf + data, ..st });
        (
            outcome,
            if outcome is Pending {
                next
            } else {
                SnifferState { buf: Seq::empty(), ..next }
            },
        )
    }
}

/// Whether more bytes can be looked at: the bytes dealt with are still buffered.
pub open spec fn readable(st: SnifferState) -> bool {
    st.preface_done ==> st.pos <= st.buf.len()
}

/// What the first bytes of a connection come to.
pub open spec fn verdict(bytes: Seq<u8>) -> Outcome {
    fed(unread(Seq::empty()), bytes).0
}

/// Whether sniffing goes on, and the state is the one that the buffered bytes
/// determine.
pub open spec fn live(st: SnifferState) -> bool {
    &&& st.buf.len() <= SNIFF_LIMIT
    &&& parsed(unread(st.buf)) == (Outcome::Pending, st)
}

} // verus!
