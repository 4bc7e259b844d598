//! What holds of the sniffer as a whole.

use crate::preamble::{
    Effect, Gathered, Outcome, Scan, SnifferState, FLAG_ACK, FRAME_HEADER, FRAME_HEADERS,
    FRAME_PRIORITY, FRAME_SETTINGS, FRAME_WINDOW_UPDATE, MAX_PRIORITY_FRAMES, PREFACE,
    SETTING_SIZE, SNIFF_LIMIT,
};
use crate::tap::TapState;
use crate::{hpack, hpack_laws, preamble, tap, text};
use vstd::prelude::*;

verus! {

/// A walk uses no more than there is.
pub proof fn lemma_scan_used(got: Gathered, rest: Seq<u8>)
    ensures
        preamble::scan(got, rest).used <= rest.len(),
    decreases rest.len(),
{
    if FRAME_HEADER <= rest.len() && preamble::payload_len(rest) <= SNIFF_LIMIT
        && preamble::frame_len(rest) <= rest.len() {
        if let Effect::Gather(next) = preamble::effect(got, preamble::first_frame(rest)) {
            lemma_scan_used(next, rest.skip(preamble::frame_len(rest) as int));
        }
    }
}

/// A walk that pends is resumed by more bytes from where it stood, and one that
/// ended is not changed by them.
pub proof fn lemma_scan_resume(got: Gathered, a: Seq<u8>, b: Seq<u8>)
    ensures
        ({
            let s = preamble::scan(got, a);
            if s.outcome is Pending {
                let tail = preamble::scan(s.got, (a + b).skip(s.used as int));
                preamble::scan(got, a + b) == (Scan { used: s.used + tail.used, ..tail })
            } else {
                preamble::scan(got, a + b) == s
            }
        }),
    decreases a.len(),
{
    let n = preamble::frame_len(a) as int;
    if a.len() < FRAME_HEADER {
        assert((a + b).skip(0) =~= a + b);
    } else if preamble::payload_len(a) > SNIFF_LIMIT {
    } else if a.len() < n {
        assert((a + b).skip(0) =~= a + b);
    } else {
        assert(preamble::first_frame(a + b).payload =~= preamble::first_frame(a).payload);
        if let Effect::Gather(next) = preamble::effect(got, preamble::first_frame(a)) {
            lemma_scan_resume(next, a.skip(n), b);
            lemma_scan_used(next, a.skip(n));
            assert((a + b).skip(n) =~= a.skip(n) + b);
            let s = preamble::scan(next, a.skip(n));
            assert((a.skip(n) + b).skip(s.used as int) =~= (a + b).skip(n + s.used));
        }
    }
}

/// In a live state the bytes dealt with are buffered.
pub proof fn lemma_live_readable(st: SnifferState)
    requires
        preamble::live(st),
    ensures
        preamble::readable(st),
{
    if st.preface_done {
        lemma_scan_used(preamble::nothing(), st.buf.skip(PREFACE@.len() as int));
    }
}

/// What a live state makes of more bytes is what the bytes received so far come
/// to, and it stays live while more are needed.
pub proof fn live_state_is_determined_by_its_bytes(st: SnifferState, data: Seq<u8>)
    requires
        preamble::live(st),
    ensures
        preamble::fed(st, data).0 == preamble::verdict(st.buf + data),
        preamble::fed(st, data).0 is Pending ==> preamble::live(preamble::fed(st, data).1)
            && preamble::fed(st, data).1.buf == st.buf + data,
{
    let all = st.buf + data;
    assert(Seq::<u8>::empty() + all =~= all);
    if all.len() <= SNIFF_LIMIT {
        let n = PREFACE@.len() as int;
        if st.buf.len() < n {
        } else {
            assert(preamble::agrees_with_preface(all)) by {
                assert forall|i: int| 0 <= i < all.len() && i < n implies all[i]
                    == #[trigger] PREFACE@[i] by {
                    assert(st.buf[i] == PREFACE@[i]);
                }
            }
            let first = st.buf.skip(n);
            lemma_scan_resume(preamble::nothing(), first, data);
            lemma_scan_used(preamble::nothing(), first);
            let s = preamble::scan(preamble::nothing(), first);
            assert(first + data =~= all.skip(n));
            assert((first + data).skip(s.used as int) =~= all.skip(n + s.used));
        }
    }
}

/// What reads in pieces come to, one after the other, up to the first that ends
/// sniffing.
pub open spec fn fed_all(st: SnifferState, pieces: Seq<Seq<u8>>) -> Outcome
    decreases pieces.len(),
{
    if pieces.len() == 0 {
        Outcome::Pending
    } else {
        let (outcome, next) = preamble::fed(st, pieces[0]);
        if outcome is Pending {
            fed_all(next, pieces.drop_first())
        } else {
            outcome
        }
    }
}

/// An outcome that ended sniffing is not changed by what follows, as long as
/// everything fits the buffer.
pub proof fn what_follows_does_not_matter(bytes: Seq<u8>, more: Seq<u8>)
    requires
        bytes.len() + more.len() <= SNIFF_LIMIT,
        !(preamble::verdict(bytes) is Pending),
    ensures
        preamble::verdict(bytes + more) == preamble::verdict(bytes),
{
    let n = PREFACE@.len() as int;
    assert(Seq::<u8>::empty() + bytes =~= bytes);
    assert(Seq::<u8>::empty() + (bytes + more) =~= bytes + more);
    if preamble::agrees_with_preface(bytes) {
        assert(preamble::agrees_with_preface(bytes + more)) by {
            assert forall|i: int| 0 <= i < (bytes + more).len() && i < n implies (bytes + more)[i]
                == #[trigger] PREFACE@[i] by {
                assert(bytes[i] == PREFACE@[i]);
            }
        }
        lemma_scan_resume(preamble::nothing(), bytes.skip(n), more);
        assert(bytes.skip(n) + more =~= (bytes + more).skip(n));
    } else {
        let i = choose|i: int|
            0 <= i < bytes.len() && i < n && bytes[i] != #[trigger] PREFACE@[i];
        assert((bytes + more)[i] != PREFACE@[i]);
    }
}

/// However the bytes of a connection are split into reads, they come to the same
/// as in one read, as long as they fit the buffer.
pub proof fn split_reads_are_identical(st: SnifferState, pieces: Seq<Seq<u8>>)
    requires
        preamble::live(st),
        st.buf.len() + pieces.flatten().len() <= SNIFF_LIMIT,
    ensures
        fed_all(st, pieces) == preamble::verdict(st.buf + pieces.flatten()),
    decreases pieces.len(),
{
    if pieces.len() == 0 {
        live_state_is_determined_by_its_bytes(st, Seq::empty());
        assert(pieces.flatten() =~= Seq::<u8>::empty());
        assert(st.buf + Seq::<u8>::empty() =~= st.buf);
        assert(Seq::<u8>::empty() + st.buf =~= st.buf);
    } else {
        let first = pieces[0];
        let others = pieces.drop_first();
        assert(pieces.flatten() == first + others.flatten());
        live_state_is_determined_by_its_bytes(st, first);
        assert(st.buf + pieces.flatten() =~= (st.buf + first) + others.flatten());
        let (outcome, next) = preamble::fed(st, first);
        if outcome is Pending {
            split_reads_are_identical(next, others);
        } else {
            what_follows_does_not_matter(st.buf + first, others.flatten());
        }
    }
}

/// Bytes that diverge from the preface are refused at once, whatever follows.
pub proof fn other_traffic_is_refused(bytes: Seq<u8>, i: int)
    requires
        0 <= i < bytes.len(),
        i < PREFACE@.len(),
        bytes[i] != PREFACE@[i],
    ensures
        preamble::verdict(bytes) is Refused,
{
    assert(Seq::<u8>::empty() + bytes =~= bytes);
    assert(!preamble::agrees_with_preface(bytes));
}

/// A sniffer never holds more than the limit, and holds nothing once it has
/// looked at the bytes and come to an end.
pub proof fn buffer_is_bounded(st: SnifferState, data: Seq<u8>)
    requires
        st.buf.len() <= SNIFF_LIMIT,
    ensures
        preamble::fed(st, data).1.buf.len() <= SNIFF_LIMIT,
        st.buf.len() + data.len() <= SNIFF_LIMIT && !(preamble::fed(st, data).0 is Pending)
            ==> preamble::fed(st, data).1.buf.len() == 0,
{
}

/// The frames of a connection's bytes, behind the preface.
pub open spec fn frames(bytes: Seq<u8>) -> Seq<u8> {
    bytes.skip(PREFACE@.len() as int)
}

/// Where the frame stands that completed the fingerprint, counted from the end of
/// the preface.
pub open spec fn headers_start(bytes: Seq<u8>) -> nat {
    preamble::scan(preamble::nothing(), frames(bytes)).used
}

/// Where the frame ends that completed the fingerprint.
pub open spec fn headers_end(bytes: Seq<u8>) -> nat {
    PREFACE@.len() + headers_start(bytes) + preamble::frame_len(
        frames(bytes).skip(headers_start(bytes) as int),
    )
}

/// A complete walk: it stopped at a whole HEADERS frame, from which and from what
/// was gathered before it the fingerprint is made.
pub proof fn lemma_scan_complete(got: Gathered, rest: Seq<u8>)
    requires
        preamble::scan(got, rest).outcome is Complete,
    ensures
        ({
            let s = preamble::scan(got, rest);
            let left = rest.skip(s.used as int);
            let frame = preamble::first_frame(left);
            &&& s.used + preamble::frame_len(left) <= rest.len()
            &&& left.len() >= FRAME_HEADER
            &&& frame.kind == FRAME_HEADERS
            &&& s.outcome == Outcome::Complete(
                preamble::fingerprint(
                    s.got,
                    match hpack::frame_order(frame.payload, frame.flags) {
                        Some(order) => order,
                        None => Seq::empty(),
                    },
                ),
            )
        }),
    decreases rest.len(),
{
    reveal(preamble::effect);
    let n = preamble::frame_len(rest) as int;
    match preamble::effect(got, preamble::first_frame(rest)) {
        Effect::Gather(next) => {
            lemma_scan_complete(next, rest.skip(n));
            let s = preamble::scan(next, rest.skip(n));
            assert(rest.skip(n).skip(s.used as int) =~= rest.skip(n + s.used));
        },
        _ => {
            assert(rest.skip(0) =~= rest);
        },
    }
}

/// A walk that completes pends on every cut before the end of its last frame, and
/// comes to the same on every later one.
pub proof fn lemma_scan_cut(got: Gathered, rest: Seq<u8>, cut: int)
    requires
        preamble::scan(got, rest).outcome is Complete,
        0 <= cut <= rest.len(),
    ensures
        ({
            let s = preamble::scan(got, rest);
            if cut < s.used + preamble::frame_len(rest.skip(s.used as int)) {
                preamble::scan(got, rest.take(cut)).outcome is Pending
            } else {
                preamble::scan(got, rest.take(cut)) == s
            }
        }),
    decreases rest.len(),
{
    lemma_scan_complete(got, rest);
    let n = preamble::frame_len(rest) as int;
    let short = rest.take(cut);
    if cut >= FRAME_HEADER {
        assert(preamble::frame_len(short) == n);
    }
    if cut >= n {
        assert(preamble::first_frame(short).payload =~= preamble::first_frame(rest).payload);
    }
    match preamble::effect(got, preamble::first_frame(rest)) {
        Effect::Gather(next) => {
            if cut >= n {
                let s = preamble::scan(next, rest.skip(n));
                assert(rest.skip(n).skip(s.used as int) =~= rest.skip(n + s.used));
                lemma_scan_cut(next, rest.skip(n), cut - n);
                assert(short.skip(n) =~= rest.skip(n).take(cut - n));
            } else {
                lemma_scan_complete(next, rest.skip(n));
            }
        },
        _ => {
            assert(rest.skip(0) =~= rest);
        },
    }
}

/// A fingerprint is complete with the last byte of the first HEADERS frame: no
/// shorter piece of the bytes completes, and every longer one comes to the same.
pub proof fn completes_with_the_first_headers_frame(bytes: Seq<u8>, cut: int)
    requires
        preamble::verdict(bytes) is Complete,
        0 <= cut <= bytes.len(),
    ensures
        headers_end(bytes) <= bytes.len(),
        cut < headers_end(bytes) ==> preamble::verdict(bytes.take(cut)) is Pending,
        cut >= headers_end(bytes) ==> preamble::verdict(bytes.take(cut)) == preamble::verdict(
            bytes,
        ),
{
    let n = PREFACE@.len() as int;
    let none = preamble::nothing();
    let short = bytes.take(cut);
    assert(Seq::<u8>::empty() + bytes =~= bytes);
    assert(Seq::<u8>::empty() + short =~= short);
    lemma_scan_complete(none, frames(bytes));
    assert(preamble::agrees_with_preface(short)) by {
        assert forall|i: int| 0 <= i < short.len() && i < n implies short[i]
            == #[trigger] PREFACE@[i] by {
            assert(bytes[i] == PREFACE@[i]);
        }
    }
    if cut >= n {
        assert(short.skip(n) =~= frames(bytes).take(cut - n));
        lemma_scan_cut(none, frames(bytes), cut - n);
    }
}

/// Whether `rest` begins with a whole frame that fits the buffer.
pub open spec fn begins_with_frame(rest: Seq<u8>) -> bool {
    &&& FRAME_HEADER <= rest.len()
    &&& preamble::payload_len(rest) <= SNIFF_LIMIT
    &&& preamble::frame_len(rest) <= rest.len()
}

/// A HEADERS frame always completes the fingerprint. If its order cannot be told,
/// the order component is empty.
pub proof fn headers_always_complete(got: Gathered, rest: Seq<u8>)
    requires
        begins_with_frame(rest),
        preamble::first_frame(rest).kind == FRAME_HEADERS,
    ensures
        ({
            let frame = preamble::first_frame(rest);
            preamble::scan(got, rest).outcome == Outcome::Complete(
                preamble::fingerprint(
                    got,
                    match hpack::frame_order(frame.payload, frame.flags) {
                        Some(order) => order,
                        None => Seq::empty(),
                    },
                ),
            )
        }),
{
    reveal(preamble::effect);
}

/// Whether the frame at the head of `rest` has the wrong size: settings that are not
/// whole, a window update or a priority of another length than theirs, or any
/// frame that is too long to be buffered.
pub open spec fn begins_malformed(rest: Seq<u8>) -> bool {
    let frame = preamble::first_frame(rest);
    &&& FRAME_HEADER <= rest.len()
    &&& preamble::payload_len(rest) > SNIFF_LIMIT || begins_with_frame(rest) && {
        ||| frame.kind == FRAME_SETTINGS && frame.payload.len() % SETTING_SIZE as nat != 0
        ||| frame.kind == FRAME_WINDOW_UPDATE && frame.payload.len() != 4
        ||| frame.kind == FRAME_PRIORITY && frame.payload.len() != 5
    }
}

/// A frame of the wrong size is refused, whatever its flags are and whatever was
/// gathered before it.
pub proof fn malformed_frames_are_refused(got: Gathered, rest: Seq<u8>)
    requires
        begins_malformed(rest),
    ensures
        preamble::scan(got, rest).outcome is Refused,
{
    reveal(preamble::effect);
}

/// A connection with a frame of the wrong size behind whole frames of the preamble
/// has no fingerprint, whatever follows.
pub proof fn malformed_frames_end_sniffing(head: Seq<u8>, rest: Seq<u8>)
    requires
        preamble::scan(preamble::nothing(), head).outcome is Pending,
        preamble::scan(preamble::nothing(), head).used == head.len(),
        begins_malformed(rest),
    ensures
        preamble::verdict(PREFACE@ + head + rest) is Refused,
{
    let bytes = PREFACE@ + head + rest;
    assert(Seq::<u8>::empty() + bytes =~= bytes);
    assert(bytes.skip(PREFACE@.len() as int) =~= head + rest);
    assert((head + rest).skip(head.len() as int) =~= rest);
    lemma_scan_resume(preamble::nothing(), head, rest);
    malformed_frames_are_refused(preamble::scan(preamble::nothing(), head).got, rest);
}

/// Frames of other types, whole SETTINGS acknowledgements and window updates of
/// single streams do not show.
pub proof fn other_frames_do_not_show(got: Gathered, rest: Seq<u8>)
    requires
        begins_with_frame(rest),
        ({
            let frame = preamble::first_frame(rest);
            ||| frame.kind != FRAME_SETTINGS && frame.kind != FRAME_WINDOW_UPDATE && frame.kind
                != FRAME_PRIORITY && frame.kind != FRAME_HEADERS
            ||| frame.kind == FRAME_SETTINGS && frame.flags & FLAG_ACK != 0
                && frame.payload.len() % SETTING_SIZE as nat == 0
            ||| frame.kind == FRAME_WINDOW_UPDATE && frame.payload.len() == 4 && frame.stream
                != 0
        }),
    ensures
        ({
            let tail = preamble::scan(got, rest.skip(preamble::frame_len(rest) as int));
            &&& preamble::scan(got, rest).outcome == tail.outcome
            &&& preamble::scan(got, rest).got == tail.got
        }),
{
    reveal(preamble::effect);
}

/// The first settings and the first window update stand, PRIORITY frames are only
/// added behind those recorded, and their number is bounded.
pub proof fn first_frames_stand(got: Gathered, rest: Seq<u8>)
    ensures
        ({
            let end = preamble::scan(got, rest).got;
            &&& got.seen_settings ==> end.seen_settings && end.settings == got.settings
            &&& got.window_update is Some ==> end.window_update == got.window_update
            &&& got.priorities.is_prefix_of(end.priorities)
            &&& got.priorities.len() <= MAX_PRIORITY_FRAMES ==> end.priorities.len()
                <= MAX_PRIORITY_FRAMES
        }),
    decreases rest.len(),
{
    reveal(preamble::effect);
    if begins_with_frame(rest) {
        if let Effect::Gather(next) = preamble::effect(got, preamble::first_frame(rest)) {
            first_frames_stand(next, rest.skip(preamble::frame_len(rest) as int));
            assert(got.priorities.is_prefix_of(next.priorities));
        }
    }
}

/// Whether a text consists of digits and colons.
pub open spec fn digits_and_colons(s: Seq<char>) -> bool {
    forall|i: int| 0 <= i < s.len() ==> '0' <= #[trigger] s[i] <= ':'
}

/// Decimal numbers joined by colons are of digits and colons.
proof fn lemma_digits_and_colons(numbers: Seq<nat>)
    ensures
        digits_and_colons(text::join(numbers.map_values(|n: nat| text::decimal(n)), ':')),
    decreases numbers.len(),
{
    let parts = numbers.map_values(|n: nat| text::decimal(n));
    if numbers.len() == 1 {
        text::lemma_decimal_digits(numbers[0]);
    } else if numbers.len() > 1 {
        lemma_digits_and_colons(numbers.drop_last());
        text::lemma_decimal_digits(numbers.last());
        assert(parts.drop_last() =~= numbers.drop_last().map_values(|n: nat| text::decimal(n)));
    }
}

/// A setting is of digits and colons.
proof fn lemma_setting_plain(setting: (u16, u32))
    ensures
        digits_and_colons(preamble::setting_text(setting)),
{
    let numbers = seq![setting.0 as nat, setting.1 as nat];
    lemma_digits_and_colons(numbers);
    assert(numbers.map_values(|n: nat| text::decimal(n)) =~= seq![
        text::decimal(setting.0 as nat),
        text::decimal(setting.1 as nat),
    ]);
}

/// The text of a priority with the given numbers.
pub open spec fn priority_numbers(
    stream: nat,
    exclusive: nat,
    dependency: nat,
    weight: nat,
) -> Seq<char> {
    text::join(
        seq![
            text::decimal(stream),
            text::decimal(exclusive),
            text::decimal(dependency),
            text::decimal(weight),
        ],
        ':',
    )
}

/// Whether a text is `stream:exclusive:dependency:weight` with numbers that a
/// PRIORITY frame can hold.
pub open spec fn is_priority(s: Seq<char>) -> bool {
    exists|stream: nat, exclusive: nat, dependency: nat, weight: nat|
        s == #[trigger] priority_numbers(stream, exclusive, dependency, weight) && stream
            <= 0x7fff_ffff && exclusive <= 1 && dependency <= 0x7fff_ffff && 1 <= weight <= 256
}

/// A priority is of digits and colons, with at least one colon.
proof fn lemma_priority_plain(s: Seq<char>)
    requires
        is_priority(s),
    ensures
        digits_and_colons(s),
        s.contains(':'),
{
    let (stream, exclusive, dependency, weight): (nat, nat, nat, nat) = choose|
        stream: nat,
        exclusive: nat,
        dependency: nat,
        weight: nat,
    | s == #[trigger] priority_numbers(stream, exclusive, dependency, weight);
    let numbers = seq![stream, exclusive, dependency, weight];
    lemma_digits_and_colons(numbers);
    assert(numbers.map_values(|n: nat| text::decimal(n)) =~= seq![
        text::decimal(stream),
        text::decimal(exclusive),
        text::decimal(dependency),
        text::decimal(weight),
    ]);
    text::lemma_join_four(
        text::decimal(stream),
        text::decimal(exclusive),
        text::decimal(dependency),
        text::decimal(weight),
        ':',
    );
    assert(s[text::decimal(stream).len() as int] == ':');
}

/// Whether what was gathered has the form that frames give it: a window increment
/// of 31 bits, and a bounded number of priorities.
pub open spec fn well_shaped(got: Gathered) -> bool {
    &&& got.window_update matches Some(increment) ==> increment <= 0x7fff_ffff
    &&& got.priorities.len() <= MAX_PRIORITY_FRAMES
    &&& forall|i: int| 0 <= i < got.priorities.len() ==> is_priority(#[trigger] got.priorities[i])
}

/// Frames keep the form of what was gathered before them.
proof fn lemma_scan_shape(got: Gathered, rest: Seq<u8>)
    requires
        well_shaped(got),
    ensures
        well_shaped(preamble::scan(got, rest).got),
    decreases rest.len(),
{
    reveal(preamble::effect);
    if begins_with_frame(rest) {
        let frame = preamble::first_frame(rest);
        if let Effect::Gather(next) = preamble::effect(got, frame) {
            let dependency = preamble::be32(frame.payload, 0);
            assert(preamble::priority_text(frame.stream, frame.payload) == priority_numbers(
                frame.stream,
                dependency / 0x8000_0000,
                preamble::low31(dependency),
                (frame.payload[4] + 1) as nat,
            ));
            assert(is_priority(preamble::priority_text(frame.stream, frame.payload)));
            assert(well_shaped(next));
            lemma_scan_shape(next, rest.skip(preamble::frame_len(rest) as int));
        }
    }
}

/// Whatever the frames, what is gathered from them has a window increment of at
/// most 31 bits, and up to sixteen priorities whose exclusive part is 0 or 1 and
/// whose weight is from 1 to 256.
pub proof fn what_is_gathered_is_well_shaped(rest: Seq<u8>)
    ensures
        well_shaped(preamble::scan(preamble::nothing(), rest).got),
{
    lemma_scan_shape(preamble::nothing(), rest);
}

/// The bars tell the four components of a fingerprint apart, the semicolons its
/// settings and the commas its priorities.
pub proof fn components_can_be_split(got: Gathered, order: Seq<char>)
    requires
        well_shaped(got),
        !order.contains('|'),
    ensures
        text::split(preamble::fingerprint(got, order), '|') == seq![
            preamble::settings_component(got),
            preamble::window_component(got),
            preamble::priority_component(got),
            order,
        ],
        got.settings.len() > 0 ==> text::split(preamble::settings_component(got), ';')
            == setting_texts(got),
        got.priorities.len() > 0 ==> text::split(preamble::priority_component(got), ',')
            == got.priorities,
{
    let settings = setting_texts(got);
    assert forall|i: int| 0 <= i < settings.len() implies !(#[trigger] settings[i]).contains(';')
        && !settings[i].contains('|') by {
        lemma_setting_plain(got.settings[i]);
    }
    assert forall|i: int| 0 <= i < got.priorities.len() implies !(
    #[trigger] got.priorities[i]).contains(',') && !got.priorities[i].contains('|') by {
        lemma_priority_plain(got.priorities[i]);
    }
    if settings.len() > 0 {
        text::joined_parts_can_be_split(settings, ';');
    }
    if got.priorities.len() > 0 {
        text::joined_parts_can_be_split(got.priorities, ',');
    }
    text::lemma_join_lacks(settings, ';', '|');
    text::lemma_join_lacks(got.priorities, ',', '|');
    text::lemma_decimal_digits(window_increment(got));
    let parts = seq![
        preamble::settings_component(got),
        preamble::window_component(got),
        preamble::priority_component(got),
        order,
    ];
    assert(!parts[0].contains('|'));
    assert(!parts[1].contains('|'));
    assert(!parts[2].contains('|'));
    assert(!parts[3].contains('|'));
    text::joined_parts_can_be_split(parts, '|');
}

/// The window increment that a fingerprint reports.
pub open spec fn window_increment(got: Gathered) -> nat {
    match got.window_update {
        Some(increment) => increment as nat,
        None => 0,
    }
}

/// While a sniffer still needs bytes, what it renders with an order that was told,
/// or with none, has four parts between bars: the settings; a window increment of
/// at most 31 bits; `0`, or one to sixteen priorities joined by commas, each with
/// an exclusive part of 0 or 1 and a weight from 1 to 256; and the order as given.
pub proof fn live_states_render_four_components(
    st: SnifferState,
    payload: Seq<u8>,
    flags: u8,
    order: Seq<char>,
)
    requires
        preamble::live(st),
        order.len() == 0 || hpack::frame_order(payload, flags) == Some(order),
    ensures
        ({
            let parts = text::split(preamble::fingerprint(st.got, order), '|');
            &&& parts.len() == 4
            &&& parts[0] == preamble::settings_component(st.got)
            &&& parts[1] == text::decimal(window_increment(st.got))
            &&& window_increment(st.got) <= 0x7fff_ffff
            &&& if st.got.priorities.len() == 0 {
                parts[2] == seq!['0']
            } else {
                &&& text::split(parts[2], ',') == st.got.priorities
                &&& st.got.priorities.len() <= 16
                &&& forall|i: int|
                    0 <= i < st.got.priorities.len() ==> is_priority(
                        #[trigger] st.got.priorities[i],
                    )
            }
            &&& parts[3] == order
        }),
{
    what_is_gathered_is_well_shaped(frames(st.buf));
    if let Some(block) = hpack::header_block(payload, flags) {
        hpack_laws::orders_are_of_distinct_letters(block);
    }
    components_can_be_split(st.got, order);
}

/// What was gathered before the frame that completed the fingerprint.
pub open spec fn gathered(bytes: Seq<u8>) -> Gathered {
    preamble::scan(preamble::nothing(), frames(bytes)).got
}

/// The pseudo-header order of the frame that completed the fingerprint.
pub open spec fn headers_order(bytes: Seq<u8>) -> Seq<char> {
    let frame = preamble::first_frame(frames(bytes).skip(headers_start(bytes) as int));
    match hpack::frame_order(frame.payload, frame.flags) {
        Some(order) => order,
        None => Seq::empty(),
    }
}

/// The settings of a fingerprint, each as text.
pub open spec fn setting_texts(got: Gathered) -> Seq<Seq<char>> {
    got.settings.map_values(|s: (u16, u32)| preamble::setting_text(s))
}

/// A fingerprint has four components, which the bars tell apart: the settings in
/// the order sent, the window update, the priorities, and the pseudo-header order
/// of the first HEADERS frame.
pub proof fn fingerprints_have_four_components(bytes: Seq<u8>)
    requires
        preamble::verdict(bytes) is Complete,
    ensures
        preamble::verdict(bytes) == Outcome::Complete(
            preamble::fingerprint(gathered(bytes), headers_order(bytes)),
        ),
        text::split(preamble::fingerprint(gathered(bytes), headers_order(bytes)), '|') == seq![
            preamble::settings_component(gathered(bytes)),
            preamble::window_component(gathered(bytes)),
            preamble::priority_component(gathered(bytes)),
            headers_order(bytes),
        ],
        gathered(bytes).settings.len() > 0 ==> text::split(
            preamble::settings_component(gathered(bytes)),
            ';',
        ) == setting_texts(gathered(bytes)),
        gathered(bytes).priorities.len() > 0 ==> text::split(
            preamble::priority_component(gathered(bytes)),
            ',',
        ) == gathered(bytes).priorities,
        well_shaped(gathered(bytes)),
{
    assert(Seq::<u8>::empty() + bytes =~= bytes);
    lemma_scan_complete(preamble::nothing(), frames(bytes));
    what_is_gathered_is_well_shaped(frames(bytes));
    let frame = preamble::first_frame(frames(bytes).skip(headers_start(bytes) as int));
    if let Some(block) = hpack::header_block(frame.payload, frame.flags) {
        hpack_laws::orders_are_of_distinct_letters(block);
    }
    components_can_be_split(gathered(bytes), headers_order(bytes));
}

/// Different settings differ as text.
proof fn lemma_settings_distinct(a: (u16, u32), b: (u16, u32))
    requires
        preamble::setting_text(a) == preamble::setting_text(b),
    ensures
        a == b,
{
    let x = seq![text::decimal(a.0 as nat), text::decimal(a.1 as nat)];
    let y = seq![text::decimal(b.0 as nat), text::decimal(b.1 as nat)];
    text::lemma_decimal_digits(a.0 as nat);
    text::lemma_decimal_digits(a.1 as nat);
    text::lemma_decimal_digits(b.0 as nat);
    text::lemma_decimal_digits(b.1 as nat);
    text::joined_parts_can_be_split(x, ':');
    text::joined_parts_can_be_split(y, ':');
    assert(x[0] == y[0] && x[1] == y[1]);
    text::decimals_are_distinct(a.0 as nat, b.0 as nat);
    text::decimals_are_distinct(a.1 as nat, b.1 as nat);
}

/// The settings component tells how many settings there are, and which.
proof fn lemma_settings_component_distinct(a: Gathered, b: Gathered)
    requires
        preamble::settings_component(a) == preamble::settings_component(b),
        a.settings.len() > 0,
    ensures
        a.settings == b.settings,
{
    let x = setting_texts(a);
    let y = setting_texts(b);
    assert forall|i: int| 0 <= i < x.len() implies !(#[trigger] x[i]).contains(';') by {
        lemma_setting_plain(a.settings[i]);
    }
    assert forall|i: int| 0 <= i < y.len() implies !(#[trigger] y[i]).contains(';') by {
        lemma_setting_plain(b.settings[i]);
    }
    text::joined_parts_can_be_split(x, ';');
    if b.settings.len() == 0 {
        assert(text::split(Seq::<char>::empty(), ';') =~= seq![Seq::<char>::empty()]);
        assert(x[0].len() == 0);
        text::lemma_join_two(
            text::decimal(a.settings[0].0 as nat),
            text::decimal(a.settings[0].1 as nat),
            ':',
        );
        assert(false);
    }
    text::joined_parts_can_be_split(y, ';');
    assert forall|i: int| 0 <= i < a.settings.len() implies a.settings[i] == b.settings[i] by {
        assert(x[i] == y[i]);
        lemma_settings_distinct(a.settings[i], b.settings[i]);
    }
    assert(x.len() == y.len());
    assert(a.settings =~= b.settings);
}

/// The priority component tells how many priorities there are, and which.
proof fn lemma_priority_component_distinct(a: Gathered, b: Gathered)
    requires
        preamble::priority_component(a) == preamble::priority_component(b),
        well_shaped(a),
        well_shaped(b),
        a.priorities.len() > 0,
    ensures
        a.priorities == b.priorities,
{
    assert forall|i: int| 0 <= i < a.priorities.len() implies !(
    #[trigger] a.priorities[i]).contains(',') by {
        lemma_priority_plain(a.priorities[i]);
    }
    assert forall|i: int| 0 <= i < b.priorities.len() implies !(
    #[trigger] b.priorities[i]).contains(',') by {
        lemma_priority_plain(b.priorities[i]);
    }
    text::joined_parts_can_be_split(a.priorities, ',');
    if b.priorities.len() == 0 {
        let zero = seq![seq!['0']];
        text::joined_parts_can_be_split(zero, ',');
        assert(text::join(zero, ',') == seq!['0']);
        assert(a.priorities == zero);
        lemma_priority_plain(a.priorities[0]);
        assert(false);
    }
    text::joined_parts_can_be_split(b.priorities, ',');
}

/// Connections have the same fingerprint only if they sent the same settings in
/// the same order, the same window increment, where none counts as 0, the same
/// recorded priorities and the same pseudo-header order.
pub proof fn fingerprints_tell_connections_apart(a: Seq<u8>, b: Seq<u8>)
    requires
        preamble::verdict(a) is Complete,
        preamble::verdict(a) == preamble::verdict(b),
    ensures
        gathered(a).settings == gathered(b).settings,
        window_increment(gathered(a)) == window_increment(gathered(b)),
        gathered(a).priorities == gathered(b).priorities,
        headers_order(a) == headers_order(b),
{
    fingerprints_have_four_components(a);
    fingerprints_have_four_components(b);
    let g = gathered(a);
    let h = gathered(b);
    let x = text::split(preamble::fingerprint(g, headers_order(a)), '|');
    let y = text::split(preamble::fingerprint(h, headers_order(b)), '|');
    assert(x[0] == y[0] && x[1] == y[1] && x[2] == y[2] && x[3] == y[3]);
    if g.settings.len() > 0 {
        lemma_settings_component_distinct(g, h);
    } else if h.settings.len() > 0 {
        lemma_settings_component_distinct(h, g);
    } else {
        assert(g.settings =~= h.settings);
    }
    if g.priorities.len() > 0 {
        lemma_priority_component_distinct(g, h);
    } else if h.priorities.len() > 0 {
        lemma_priority_component_distinct(h, g);
    } else {
        assert(g.priorities =~= h.priorities);
    }
    text::decimals_are_distinct(window_increment(g), window_increment(h));
}

/// The state of a tap after a number of reads.
pub open spec fn tapped_all(st: TapState, reads: Seq<Seq<u8>>) -> TapState
    decreases reads.len(),
{
    if reads.len() == 0 {
        st
    } else {
        tapped_all(tap::tapped(st, reads[0]), reads.drop_first())
    }
}

/// Reads one after the other.
pub proof fn lemma_tapped_in_turn(st: TapState, a: Seq<Seq<u8>>, b: Seq<Seq<u8>>)
    ensures
        tapped_all(st, a + b) == tapped_all(tapped_all(st, a), b),
    decreases a.len(),
{
    if a.len() == 0 {
        assert(a + b =~= b);
    } else {
        assert((a + b).drop_first() =~= a.drop_first() + b);
        lemma_tapped_in_turn(tap::tapped(st, a[0]), a.drop_first(), b);
    }
}

/// A read hands the fingerprint to the cell if it completes one, and nothing
/// otherwise: not at the end of the connection, not while more bytes are needed,
/// not when sniffing is given up, and not once it has ended.
pub proof fn each_read_hands_what_it_completes(st: TapState, new: Seq<u8>)
    ensures
        ({
            let after = tap::tapped(st, new);
            match st.sniffer {
                None => after == st,
                Some(sniffer) => if new.len() == 0 {
                    after.sniffer is None && after.handed == st.handed
                } else {
                    match preamble::fed(sniffer, new).0 {
                        Outcome::Pending => after.sniffer == Some(preamble::fed(sniffer, new).1)
                            && after.handed == st.handed,
                        Outcome::Complete(text) => after.sniffer is None && after.handed
                            == st.handed.push(text),
                        Outcome::Refused => after.sniffer is None && after.handed == st.handed,
                    }
                },
            }
        }),
{
}

/// Once sniffing has ended a tap does not change any more, and nothing is handed to
/// its cell.
pub proof fn nothing_is_handed_after_the_end(st: TapState, reads: Seq<Seq<u8>>)
    requires
        st.sniffer is None,
    ensures
        tapped_all(st, reads) == st,
    decreases reads.len(),
{
    if reads.len() > 0 {
        nothing_is_handed_after_the_end(tap::tapped(st, reads[0]), reads.drop_first());
    }
}

/// Over any reads at most one text is handed to the cell, and with it sniffing
/// ends.
pub proof fn handed_at_most_once(st: TapState, reads: Seq<Seq<u8>>)
    requires
        st.handed.len() == 0,
    ensures
        tapped_all(st, reads).handed.len() <= 1,
        tapped_all(st, reads).handed.len() == 1 ==> tapped_all(st, reads).sniffer is None,
    decreases reads.len(),
{
    if reads.len() > 0 {
        let next = tap::tapped(st, reads[0]);
        if next.handed.len() == 0 {
            handed_at_most_once(next, reads.drop_first());
        } else {
            nothing_is_handed_after_the_end(next, reads.drop_first());
        }
    }
}

/// What was handed to the cell stands: no later read adds to it.
pub proof fn what_was_handed_stands(reads: Seq<Seq<u8>>, later: Seq<Seq<u8>>)
    requires
        tapped_all(tap::untouched(), reads).handed.len() > 0,
    ensures
        tapped_all(tap::untouched(), reads + later) == tapped_all(tap::untouched(), reads),
{
    lemma_tapped_in_turn(tap::untouched(), reads, later);
    handed_at_most_once(tap::untouched(), reads);
    nothing_is_handed_after_the_end(tapped_all(tap::untouched(), reads), later);
}

/// What a tap with a live sniffer hands over reads that fit the buffer.
proof fn lemma_handed_is_the_fingerprint(st: TapState, sniffer: SnifferState, reads: Seq<Seq<u8>>)
    requires
        st.sniffer == Some(sniffer),
        st.handed.len() == 0,
        preamble::live(sniffer),
        forall|i: int| 0 <= i < reads.len() ==> (#[trigger] reads[i]).len() > 0,
        sniffer.buf.len() + reads.flatten().len() <= SNIFF_LIMIT,
    ensures
        tapped_all(st, reads).handed == match preamble::verdict(sniffer.buf + reads.flatten()) {
            Outcome::Complete(text) => seq![text],
            _ => Seq::empty(),
        },
    decreases reads.len(),
{
    split_reads_are_identical(sniffer, reads);
    if reads.len() > 0 {
        let first = reads[0];
        let others = reads.drop_first();
        assert(first.len() > 0);
        assert(reads.flatten() == first + others.flatten());
        live_state_is_determined_by_its_bytes(sniffer, first);
        let (outcome, next) = preamble::fed(sniffer, first);
        assert forall|i: int| 0 <= i < others.len() implies (#[trigger] others[i]).len() > 0 by {
            assert(reads[i + 1].len() > 0);
        }
        if outcome is Pending {
            assert(sniffer.buf + reads.flatten() =~= next.buf + others.flatten());
            lemma_handed_is_the_fingerprint(tap::tapped(st, first), next, others);
        } else {
            nothing_is_handed_after_the_end(tap::tapped(st, first), others);
        }
    }
}

/// A sniffer that has received nothing is live.
proof fn lemma_fresh_is_live()
    ensures
        preamble::live(preamble::unread(Seq::empty())),
{
}

/// Over reads that fit the buffer, a new tap hands its cell the fingerprint of the
/// bytes read, if they have one, and nothing otherwise.
pub proof fn what_is_handed_is_the_fingerprint(reads: Seq<Seq<u8>>)
    requires
        forall|i: int| 0 <= i < reads.len() ==> (#[trigger] reads[i]).len() > 0,
        reads.flatten().len() <= SNIFF_LIMIT,
    ensures
        tapped_all(tap::untouched(), reads).handed == match preamble::verdict(reads.flatten()) {
            Outcome::Complete(text) => seq![text],
            _ => Seq::empty(),
        },
{
    let fresh = preamble::unread(Seq::empty());
    lemma_fresh_is_live();
    assert(fresh.buf + reads.flatten() =~= reads.flatten());
    lemma_handed_is_the_fingerprint(tap::untouched(), fresh, reads);
}

/// What a tap with a live sniffer hands is the fingerprint of what was read.
proof fn lemma_handed_is_true(st: TapState, sniffer: SnifferState, reads: Seq<Seq<u8>>)
    requires
        st.sniffer == Some(sniffer),
        st.handed.len() == 0,
        preamble::live(sniffer),
    ensures
        tapped_all(st, reads).handed.len() > 0 ==> exists|k: int|
            0 < k <= reads.len() && #[trigger] preamble::verdict(
                sniffer.buf + reads.take(k).flatten(),
            ) == Outcome::Complete(tapped_all(st, reads).handed[0]),
    decreases reads.len(),
{
    if reads.len() > 0 && tapped_all(st, reads).handed.len() > 0 {
        let first = reads[0];
        let others = reads.drop_first();
        let after = tap::tapped(st, first);
        live_state_is_determined_by_its_bytes(sniffer, first);
        let (outcome, next) = preamble::fed(sniffer, first);
        if first.len() > 0 && outcome is Pending {
            lemma_handed_is_true(after, next, others);
            let k = choose|k: int|
                0 < k <= others.len() && #[trigger] preamble::verdict(
                    next.buf + others.take(k).flatten(),
                ) == Outcome::Complete(tapped_all(after, others).handed[0]);
            let head = reads.take(k + 1);
            assert(head.drop_first() =~= others.take(k));
            assert(head.flatten() == first + others.take(k).flatten());
            assert(sniffer.buf + head.flatten() =~= next.buf + others.take(k).flatten());
        } else {
            nothing_is_handed_after_the_end(after, others);
            let head = reads.take(1);
            assert(head.drop_first() =~= Seq::<Seq<u8>>::empty());
            assert(head.drop_first().flatten() =~= Seq::<u8>::empty());
            assert(head.flatten() =~= first);
            assert(preamble::verdict(sniffer.buf + head.flatten()) == Outcome::Complete(
                tapped_all(st, reads).handed[0],
            ));
        }
    }
}

/// Whatever the reads, a new tap hands its cell a text only if it is the fingerprint
/// of the bytes up to some read, which fit the buffer.
pub proof fn only_true_fingerprints_are_handed(reads: Seq<Seq<u8>>)
    ensures
        tapped_all(tap::untouched(), reads).handed.len() > 0 ==> exists|k: int|
            0 < k <= reads.len() && (#[trigger] reads.take(k)).flatten().len() <= SNIFF_LIMIT
                && preamble::verdict(reads.take(k).flatten()) == Outcome::Complete(
                tapped_all(tap::untouched(), reads).handed[0],
            ),
{
    let fresh = preamble::unread(Seq::empty());
    lemma_fresh_is_live();
    lemma_handed_is_true(tap::untouched(), fresh, reads);
    if tapped_all(tap::untouched(), reads).handed.len() > 0 {
        let k = choose|k: int|
            0 < k <= reads.len() && #[trigger] preamble::verdict(
                fresh.buf + reads.take(k).flatten(),
            ) == Outcome::Complete(tapped_all(tap::untouched(), reads).handed[0]);
        assert(fresh.buf + reads.take(k).flatten() =~= reads.take(k).flatten());
    }
}

/// The bytes of the first reads are the first bytes of all reads.
proof fn lemma_first_reads(reads: Seq<Seq<u8>>, k: int)
    requires
        0 <= k <= reads.len(),
    ensures
        reads.take(k).flatten().is_prefix_of(reads.flatten()),
    decreases k,
{
    if k > 0 {
        lemma_first_reads(reads.drop_first(), k - 1);
        assert(reads.take(k).drop_first() =~= reads.drop_first().take(k - 1));
        assert(reads.flatten() == reads[0] + reads.drop_first().flatten());
        assert(reads.take(k).flatten() == reads[0] + reads.drop_first().take(k - 1).flatten());
    } else {
        assert(reads.take(0) =~= Seq::<Seq<u8>>::empty());
        assert(reads.take(0).flatten() =~= Seq::<u8>::empty());
    }
}

/// Traffic that diverges from the preface leaves the cell alone, however it is read
/// and however much follows.
pub proof fn other_traffic_hands_nothing(reads: Seq<Seq<u8>>, i: int)
    requires
        0 <= i < reads.flatten().len(),
        i < PREFACE@.len(),
        reads.flatten()[i] != PREFACE@[i],
    ensures
        tapped_all(tap::untouched(), reads).handed.len() == 0,
{
    only_true_fingerprints_are_handed(reads);
    if tapped_all(tap::untouched(), reads).handed.len() > 0 {
        let k = choose|k: int|
            0 < k <= reads.len() && (#[trigger] reads.take(k)).flatten().len() <= SNIFF_LIMIT
                && preamble::verdict(reads.take(k).flatten()) == Outcome::Complete(
                tapped_all(tap::untouched(), reads).handed[0],
            );
        let bytes = reads.take(k).flatten();
        lemma_first_reads(reads, k);
        assert(Seq::<u8>::empty() + bytes =~= bytes);
        assert(bytes[i] == reads.flatten()[i]);
        other_traffic_is_refused(bytes, i);
    }
}

} // verus!
