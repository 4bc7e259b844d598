//! What is sent on a connection is what its fingerprint says.

use crate::preamble::{Effect, Gathered, Outcome, Scan, SnifferState};
use crate::wire::{Body, Item, SentFrame, SentHeaders};
use crate::{block_laws, hpack, hpack_laws, laws, preamble, tap, text, wire};
use vstd::prelude::*;

verus! {

/// Two bytes hold a number of 16 bits.
proof fn lemma_two_bytes(n: nat)
    requires
        n < 0x1_0000,
    ensures
        ({
            let b = wire::big_endian(n, 2);
            b.len() == 2 && b[0] * 0x100 + b[1] == n
        }),
{
    reveal_with_fuel(wire::big_endian, 3);
}

/// Three bytes hold a number of 24 bits.
proof fn lemma_three_bytes(n: nat)
    requires
        n < 0x100_0000,
    ensures
        ({
            let b = wire::big_endian(n, 3);
            b.len() == 3 && b[0] * 0x1_0000 + b[1] * 0x100 + b[2] == n
        }),
{
    reveal_with_fuel(wire::big_endian, 4);
}

/// Four bytes hold a number of 32 bits.
proof fn lemma_four_bytes(n: nat)
    requires
        n < 0x1_0000_0000,
    ensures
        ({
            let b = wire::big_endian(n, 4);
            b.len() == 4 && b[0] * 0x100_0000 + b[1] * 0x1_0000 + b[2] * 0x100 + b[3] == n
        }),
{
    reveal_with_fuel(wire::big_endian, 5);
}

/// Four bytes hold a bit and a number of 31 bits.
proof fn lemma_bit_and_31(bit: bool, n: nat)
    requires
        n < 0x8000_0000,
    ensures
        ({
            let b = wire::bit_and_31(bit, n);
            let whole = b[0] * 0x100_0000 + b[1] * 0x1_0000 + b[2] * 0x100 + b[3];
            b.len() == 4 && whole == if bit {
                n + 0x8000_0000
            } else {
                n
            }
        }),
{
    lemma_four_bytes(
        if bit {
            n + 0x8000_0000
        } else {
            n
        },
    );
}

/// A frame header says what was written in it.
proof fn lemma_header_read(
    len: nat,
    kind: u8,
    flags: u8,
    reserved: bool,
    stream: nat,
    rest: Seq<u8>,
)
    requires
        len < 0x100_0000,
        stream < 0x8000_0000,
    ensures
        ({
            let s = wire::header_bytes(len, kind, flags, reserved, stream) + rest;
            &&& wire::header_bytes(len, kind, flags, reserved, stream).len() == 9
            &&& preamble::payload_len(s) == len
            &&& preamble::first_frame(s).kind == kind
            &&& preamble::first_frame(s).flags == flags
            &&& preamble::first_frame(s).stream == stream
        }),
{
    let s = wire::header_bytes(len, kind, flags, reserved, stream) + rest;
    let a = wire::big_endian(len, 3);
    let b = wire::bit_and_31(reserved, stream);
    lemma_three_bytes(len);
    lemma_bit_and_31(reserved, stream);
    assert(s[0] == a[0] && s[1] == a[1] && s[2] == a[2]);
    assert(s[3] == kind && s[4] == flags);
    assert(s[5] == b[0] && s[6] == b[1] && s[7] == b[2] && s[8] == b[3]);
}

/// A frame is read as what was written, and what follows it is left.
proof fn lemma_frame_read(
    kind: u8,
    flags: u8,
    reserved: bool,
    stream: nat,
    payload: Seq<u8>,
    rest: Seq<u8>,
)
    requires
        payload.len() <= 0x8000,
        stream < 0x8000_0000,
    ensures
        ({
            let w = wire::frame_bytes(kind, flags, reserved, stream, payload);
            &&& w.len() == 9 + payload.len()
            &&& laws::begins_with_frame(w + rest)
            &&& preamble::frame_len(w + rest) == w.len()
            &&& preamble::first_frame(w + rest) == (preamble::Frame {
                kind,
                flags,
                stream,
                payload,
            })
            &&& (w + rest).skip(w.len() as int) == rest
        }),
{
    let head = wire::header_bytes(payload.len(), kind, flags, reserved, stream);
    let w = wire::frame_bytes(kind, flags, reserved, stream, payload);
    block_laws::lemma_concat(head, payload, rest);
    lemma_header_read(payload.len(), kind, flags, reserved, stream, payload + rest);
    assert((w + rest).subrange(9, (9 + payload.len()) as int) =~= payload);
    assert((w + rest).skip(w.len() as int) =~= rest);
}

/// Whether a walk passes from the frame at the head of its bytes to what follows it,
/// with `next` gathered in place of `got`.
pub open spec fn leads_on(got: Gathered, frame: Seq<u8>, next: Gathered, rest: Seq<u8>) -> bool {
    let tail = preamble::scan(next, rest);
    preamble::scan(got, frame + rest) == (Scan { used: frame.len() + tail.used, ..tail })
}

/// A frame leads on if it is gathered.
proof fn lemma_leads_on(
    got: Gathered,
    kind: u8,
    flags: u8,
    reserved: bool,
    stream: nat,
    payload: Seq<u8>,
    next: Gathered,
    rest: Seq<u8>,
)
    requires
        payload.len() <= 0x8000,
        stream < 0x8000_0000,
        preamble::effect(got, preamble::Frame { kind, flags, stream, payload }) == Effect::Gather(
            next,
        ),
    ensures
        leads_on(got, wire::frame_bytes(kind, flags, reserved, stream, payload), next, rest),
{
    lemma_frame_read(kind, flags, reserved, stream, payload, rest);
}

/// Settings are written in six bytes each, one after the other.
proof fn lemma_settings_bytes(list: Seq<(u16, u32)>)
    ensures
        wire::settings_bytes(list).len() == 6 * list.len(),
        forall|k: int|
            0 <= k < list.len() ==> #[trigger] preamble::setting_at(wire::settings_bytes(list), k)
                == list[k],
    decreases list.len(),
{
    if list.len() > 0 {
        let front = list.drop_last();
        let a = wire::settings_bytes(front);
        let x = wire::big_endian(list.last().0 as nat, 2);
        let y = wire::big_endian(list.last().1 as nat, 4);
        let whole = wire::settings_bytes(list);
        lemma_settings_bytes(front);
        lemma_two_bytes(list.last().0 as nat);
        lemma_four_bytes(list.last().1 as nat);
        assert(whole == a + (x + y));
        assert forall|k: int| 0 <= k < list.len() implies #[trigger] preamble::setting_at(whole, k)
            == list[k] by {
            if k < front.len() {
                assert(preamble::setting_at(a, k) == front[k]);
                assert(whole[6 * k] == a[6 * k] && whole[6 * k + 1] == a[6 * k + 1]);
                assert(whole[6 * k + 2] == a[6 * k + 2] && whole[6 * k + 3] == a[6 * k + 3]);
                assert(whole[6 * k + 4] == a[6 * k + 4] && whole[6 * k + 5] == a[6 * k + 5]);
            } else {
                assert(whole[6 * k] == x[0] && whole[6 * k + 1] == x[1]);
                assert(whole[6 * k + 2] == y[0] && whole[6 * k + 3] == y[1]);
                assert(whole[6 * k + 4] == y[2] && whole[6 * k + 5] == y[3]);
            }
        }
    }
}

/// The first SETTINGS frame that is no acknowledgement gives the settings that were
/// written in it: all of them, in their order, and nothing else changes.
pub proof fn first_settings_are_gathered(
    got: Gathered,
    flags: u8,
    reserved: bool,
    stream: nat,
    list: Seq<(u16, u32)>,
    rest: Seq<u8>,
)
    requires
        !got.seen_settings,
        got.settings.len() == 0,
        flags % 2 == 0,
        stream < 0x8000_0000,
        6 * list.len() <= 0x8000,
    ensures
        leads_on(
            got,
            wire::frame_bytes(4, flags, reserved, stream, wire::settings_bytes(list)),
            Gathered { seen_settings: true, settings: list, ..got },
            rest,
        ),
{
    reveal(preamble::effect);
    let payload = wire::settings_bytes(list);
    lemma_settings_bytes(list);
    assert(flags & 1 == flags % 2) by (bit_vector);
    assert(got.settings + preamble::settings_of(payload) =~= list);
    lemma_leads_on(
        got,
        4,
        flags,
        reserved,
        stream,
        payload,
        Gathered { seen_settings: true, settings: list, ..got },
        rest,
    );
}

/// Acknowledgements, and every SETTINGS frame behind the first that is none, change
/// nothing.
pub proof fn other_settings_change_nothing(
    got: Gathered,
    flags: u8,
    reserved: bool,
    stream: nat,
    list: Seq<(u16, u32)>,
    rest: Seq<u8>,
)
    requires
        got.seen_settings || flags % 2 == 1,
        stream < 0x8000_0000,
        6 * list.len() <= 0x8000,
    ensures
        leads_on(
            got,
            wire::frame_bytes(4, flags, reserved, stream, wire::settings_bytes(list)),
            got,
            rest,
        ),
{
    reveal(preamble::effect);
    lemma_settings_bytes(list);
    assert(flags & 1 == flags % 2) by (bit_vector);
    lemma_leads_on(got, 4, flags, reserved, stream, wire::settings_bytes(list), got, rest);
}

/// The first WINDOW_UPDATE on stream 0 gives the increment that was written in it,
/// whatever it is and whatever the reserved bit, and nothing else changes.
pub proof fn first_increment_is_gathered(
    got: Gathered,
    flags: u8,
    reserved: bool,
    bit: bool,
    increment: nat,
    rest: Seq<u8>,
)
    requires
        got.window_update is None,
        increment < 0x8000_0000,
    ensures
        leads_on(
            got,
            wire::frame_bytes(8, flags, reserved, 0, wire::bit_and_31(bit, increment)),
            Gathered { window_update: Some(increment as u32), ..got },
            rest,
        ),
{
    reveal(preamble::effect);
    let payload = wire::bit_and_31(bit, increment);
    lemma_bit_and_31(bit, increment);
    lemma_leads_on(
        got,
        8,
        flags,
        reserved,
        0,
        payload,
        Gathered { window_update: Some(increment as u32), ..got },
        rest,
    );
}

/// A WINDOW_UPDATE of another stream, or behind the first of the connection, changes
/// nothing.
pub proof fn other_increments_change_nothing(
    got: Gathered,
    flags: u8,
    reserved: bool,
    stream: nat,
    bit: bool,
    increment: nat,
    rest: Seq<u8>,
)
    requires
        got.window_update is Some || stream != 0,
        stream < 0x8000_0000,
        increment < 0x8000_0000,
    ensures
        leads_on(
            got,
            wire::frame_bytes(8, flags, reserved, stream, wire::bit_and_31(bit, increment)),
            got,
            rest,
        ),
{
    reveal(preamble::effect);
    lemma_bit_and_31(bit, increment);
    lemma_leads_on(got, 8, flags, reserved, stream, wire::bit_and_31(bit, increment), got, rest);
}

/// The numbers of a priority in the order of its text.
pub open spec fn priority_list(
    stream: nat,
    exclusive: bool,
    dependency: nat,
    weight: nat,
) -> Seq<nat> {
    seq![
        stream,
        if exclusive {
            1
        } else {
            0
        },
        dependency,
        weight,
    ]
}

/// Numbers joined by colons read as those numbers.
proof fn lemma_numerals_joined(numbers: Seq<nat>)
    requires
        numbers.len() > 0,
    ensures
        wire::is_numerals(text::join(numbers.map_values(|n: nat| text::decimal(n)), ':'), numbers),
{
    let parts = numbers.map_values(|n: nat| text::decimal(n));
    assert forall|i: int| 0 <= i < parts.len() implies !(#[trigger] parts[i]).contains(':')
        && wire::is_numeral(parts[i], numbers[i]) by {
        text::lemma_decimal_digits(numbers[i]);
        text::decimals_are_numerals(numbers[i]);
    }
    text::joined_parts_can_be_split(parts, ':');
}

/// The text of a priority reads as its numbers.
proof fn lemma_priority_reads(stream: nat, exclusive: bool, dependency: nat, weight: nat)
    requires
        stream < 0x8000_0000,
        dependency < 0x8000_0000,
        1 <= weight <= 256,
    ensures
        ({
            let payload = wire::payload_bytes(Body::Priority { exclusive, dependency, weight });
            payload.len() == 5 && wire::is_numerals(
                preamble::priority_text(stream, payload),
                priority_list(stream, exclusive, dependency, weight),
            )
        }),
{
    let payload = wire::payload_bytes(Body::Priority { exclusive, dependency, weight });
    let b = wire::bit_and_31(exclusive, dependency);
    let numbers = priority_list(stream, exclusive, dependency, weight);
    lemma_bit_and_31(exclusive, dependency);
    assert(payload[0] == b[0] && payload[1] == b[1] && payload[2] == b[2] && payload[3] == b[3]);
    assert(payload[4] + 1 == weight);
    lemma_numerals_joined(numbers);
    assert(preamble::be32(payload, 0) / 0x8000_0000 == numbers[1]);
    assert(preamble::low31(preamble::be32(payload, 0)) == dependency);
    assert(numbers.map_values(|n: nat| text::decimal(n)) =~= seq![
        text::decimal(stream),
        text::decimal(preamble::be32(payload, 0) / 0x8000_0000),
        text::decimal(preamble::low31(preamble::be32(payload, 0))),
        text::decimal((payload[4] + 1) as nat),
    ]);
}

/// A PRIORITY frame behind fewer than sixteen of them adds one text, which reads as
/// its stream, exclusive bit, dependency and weight, whatever these are, and nothing
/// else changes.
pub proof fn priorities_are_gathered(
    got: Gathered,
    flags: u8,
    reserved: bool,
    stream: nat,
    exclusive: bool,
    dependency: nat,
    weight: nat,
    rest: Seq<u8>,
) -> (added: Seq<char>)
    requires
        got.priorities.len() < 16,
        stream < 0x8000_0000,
        dependency < 0x8000_0000,
        1 <= weight <= 256,
    ensures
        wire::is_numerals(added, priority_list(stream, exclusive, dependency, weight)),
        leads_on(
            got,
            wire::frame_bytes(
                2,
                flags,
                reserved,
                stream,
                wire::payload_bytes(Body::Priority { exclusive, dependency, weight }),
            ),
            Gathered { priorities: got.priorities.push(added), ..got },
            rest,
        ),
{
    reveal(preamble::effect);
    let payload = wire::payload_bytes(Body::Priority { exclusive, dependency, weight });
    let added = preamble::priority_text(stream, payload);
    lemma_priority_reads(stream, exclusive, dependency, weight);
    lemma_leads_on(
        got,
        2,
        flags,
        reserved,
        stream,
        payload,
        Gathered { priorities: got.priorities.push(added), ..got },
        rest,
    );
    added
}

/// A PRIORITY frame behind sixteen of them changes nothing.
pub proof fn later_priorities_change_nothing(
    got: Gathered,
    flags: u8,
    reserved: bool,
    stream: nat,
    exclusive: bool,
    dependency: nat,
    weight: nat,
    rest: Seq<u8>,
)
    requires
        got.priorities.len() >= 16,
        stream < 0x8000_0000,
        dependency < 0x8000_0000,
        1 <= weight <= 256,
    ensures
        leads_on(
            got,
            wire::frame_bytes(
                2,
                flags,
                reserved,
                stream,
                wire::payload_bytes(Body::Priority { exclusive, dependency, weight }),
            ),
            got,
            rest,
        ),
{
    reveal(preamble::effect);
    let payload = wire::payload_bytes(Body::Priority { exclusive, dependency, weight });
    lemma_bit_and_31(exclusive, dependency);
    lemma_leads_on(got, 2, flags, reserved, stream, payload, got, rest);
}

/// A frame of another type changes nothing.
pub proof fn frames_of_other_types_change_nothing(
    got: Gathered,
    kind: u8,
    flags: u8,
    reserved: bool,
    stream: nat,
    payload: Seq<u8>,
    rest: Seq<u8>,
)
    requires
        kind != 1 && kind != 2 && kind != 4 && kind != 8,
        stream < 0x8000_0000,
        payload.len() <= 0x8000,
    ensures
        leads_on(got, wire::frame_bytes(kind, flags, reserved, stream, payload), got, rest),
{
    reveal(preamble::effect);
    lemma_leads_on(got, kind, flags, reserved, stream, payload, got, rest);
}

/// Whether what was gathered is what the frames hold: the first settings, the first
/// increment of the connection, and the first sixteen priorities.
pub open spec fn holds(got: Gathered, frames: Seq<SentFrame>) -> bool {
    let list = wire::at_most(wire::priorities(frames), 16);
    &&& got.seen_settings == wire::first_settings(frames) is Some
    &&& got.settings == match wire::first_settings(frames) {
        Some(settings) => settings,
        None => Seq::empty(),
    }
    &&& match wire::first_increment(frames) {
        Some(increment) => got.window_update is Some && got.window_update->Some_0 == increment,
        None => got.window_update is None,
    }
    &&& got.priorities.len() == list.len()
    &&& forall|i: int|
        0 <= i < list.len() ==> wire::is_numerals(#[trigger] got.priorities[i], list[i])
}

/// One frame more.
proof fn lemma_one_more(front: Seq<SentFrame>, last: SentFrame)
    ensures
        wire::all_sent_bytes(front.push(last)) == wire::all_sent_bytes(front) + wire::sent_bytes(
            last,
        ),
        wire::first_settings(front.push(last)) == match wire::first_settings(front) {
            Some(list) => Some(list),
            None => match last.body {
                Body::Settings(list) => if last.flags % 2 == 0 {
                    Some(list)
                } else {
                    None
                },
                _ => None,
            },
        },
        wire::first_increment(front.push(last)) == match wire::first_increment(front) {
            Some(increment) => Some(increment),
            None => match last.body {
                Body::WindowUpdate { increment, .. } => if last.stream == 0 {
                    Some(increment)
                } else {
                    None
                },
                _ => None,
            },
        },
        wire::priorities(front.push(last)) == match last.body {
            Body::Priority { exclusive, dependency, weight } => wire::priorities(front).push(
                priority_list(last.stream, exclusive, dependency, weight),
            ),
            _ => wire::priorities(front),
        },
    decreases front.len(),
{
    let frames = front.push(last);
    let none = Seq::<SentFrame>::empty();
    if front.len() == 0 {
        assert(frames.drop_first() =~= none);
        assert(wire::all_sent_bytes(none).len() == 0);
        assert(wire::first_settings(none) is None);
        assert(wire::first_increment(none) is None);
        assert(wire::priorities(none).len() == 0);
        assert(wire::all_sent_bytes(front) + wire::sent_bytes(last) =~= wire::all_sent_bytes(
            frames,
        ));
        if let Body::Priority { exclusive, dependency, weight } = last.body {
            assert(wire::priorities(frames) =~= wire::priorities(front).push(
                priority_list(last.stream, exclusive, dependency, weight),
            ));
        }
    } else {
        let others = front.drop_first();
        assert(frames.drop_first() =~= others.push(last));
        lemma_one_more(others, last);
        block_laws::lemma_concat(
            wire::sent_bytes(front[0]),
            wire::all_sent_bytes(others),
            wire::sent_bytes(last),
        );
        if let Body::Priority { exclusive, dependency, weight } = last.body {
            assert(wire::priorities(frames) =~= wire::priorities(front).push(
                priority_list(last.stream, exclusive, dependency, weight),
            ));
        }
    }
}

/// A walk gathers one frame more.
proof fn lemma_step(
    got: Gathered,
    front: Seq<SentFrame>,
    last: SentFrame,
    rest: Seq<u8>,
) -> (next: Gathered)
    requires
        holds(got, front),
        wire::frame_fits(last),
    ensures
        holds(next, front.push(last)),
        leads_on(got, wire::sent_bytes(last), next, rest),
{
    let f = last;
    lemma_one_more(front, last);
    match f.body {
        Body::Settings(list) => {
            if f.flags % 2 == 0 && !got.seen_settings {
                first_settings_are_gathered(got, f.flags, f.reserved, f.stream, list, rest);
                Gathered { seen_settings: true, settings: list, ..got }
            } else {
                other_settings_change_nothing(got, f.flags, f.reserved, f.stream, list, rest);
                got
            }
        },
        Body::WindowUpdate { reserved, increment } => {
            if f.stream == 0 && got.window_update is None {
                first_increment_is_gathered(got, f.flags, f.reserved, reserved, increment, rest);
                Gathered { window_update: Some(increment as u32), ..got }
            } else {
                other_increments_change_nothing(
                    got,
                    f.flags,
                    f.reserved,
                    f.stream,
                    reserved,
                    increment,
                    rest,
                );
                got
            }
        },
        Body::Priority { exclusive, dependency, weight } => {
            let before = wire::priorities(front);
            let after = wire::priorities(front.push(last));
            if got.priorities.len() < 16 {
                let added = priorities_are_gathered(
                    got,
                    f.flags,
                    f.reserved,
                    f.stream,
                    exclusive,
                    dependency,
                    weight,
                    rest,
                );
                let next = Gathered { priorities: got.priorities.push(added), ..got };
                assert(wire::at_most(before, 16) == before);
                assert(wire::at_most(after, 16) == after);
                assert forall|i: int| 0 <= i < after.len() implies wire::is_numerals(
                    #[trigger] next.priorities[i],
                    after[i],
                ) by {
                    if i < before.len() {
                        assert(wire::is_numerals(got.priorities[i], before[i]));
                    }
                }
                next
            } else {
                later_priorities_change_nothing(
                    got,
                    f.flags,
                    f.reserved,
                    f.stream,
                    exclusive,
                    dependency,
                    weight,
                    rest,
                );
                assert(wire::at_most(before, 16) =~= wire::at_most(after, 16));
                got
            }
        },
        Body::Other { kind, payload } => {
            frames_of_other_types_change_nothing(
                got,
                kind,
                f.flags,
                f.reserved,
                f.stream,
                payload,
                rest,
            );
            got
        },
    }
}

/// Over whatever frames are sent before the first HEADERS frame, a walk gathers what
/// they hold and goes on behind them.
pub proof fn sent_frames_are_gathered(frames: Seq<SentFrame>, rest: Seq<u8>) -> (got: Gathered)
    requires
        wire::frames_fit(frames),
    ensures
        holds(got, frames),
        leads_on(preamble::nothing(), wire::all_sent_bytes(frames), got, rest),
    decreases frames.len(),
{
    if frames.len() == 0 {
        assert(wire::all_sent_bytes(frames) + rest =~= rest);
        preamble::nothing()
    } else {
        let front = frames.drop_last();
        let last = frames.last();
        assert(front.push(last) =~= frames);
        assert(wire::frame_fits(frames[frames.len() - 1]));
        assert forall|i: int| 0 <= i < front.len() implies wire::frame_fits(
            #[trigger] front[i],
        ) by {
            assert(wire::frame_fits(frames[i]));
        }
        let before = sent_frames_are_gathered(front, wire::sent_bytes(last) + rest);
        let got = lemma_step(before, front, last, rest);
        lemma_one_more(front, last);
        block_laws::lemma_concat(wire::all_sent_bytes(front), wire::sent_bytes(last), rest);
        got
    }
}

/// The bytes of a connection up to what follows its frames.
pub open spec fn connection(frames: Seq<SentFrame>, rest: Seq<u8>) -> Seq<u8> {
    wire::preface() + (wire::all_sent_bytes(frames) + rest)
}

/// The preface is the one that is looked for.
proof fn lemma_preface()
    ensures
        preamble::PREFACE@ == wire::preface(),
        wire::preface().len() == 24,
{
    assert(preamble::PREFACE@ =~= wire::preface());
}

/// What a connection comes to is what a walk behind its preface comes to.
proof fn lemma_verdict(tail: Seq<u8>)
    requires
        24 + tail.len() <= 0x8000,
    ensures
        preamble::verdict(wire::preface() + tail) == preamble::scan(
            preamble::nothing(),
            tail,
        ).outcome,
{
    lemma_preface();
    let bytes = wire::preface() + tail;
    assert(Seq::<u8>::empty() + bytes =~= bytes);
    assert(preamble::agrees_with_preface(bytes));
    assert(bytes.skip(24) =~= tail);
}

/// Whether a HEADERS frame tells these letters: its order spells them, or there are
/// none and it has no order.
pub open spec fn tells(payload: Seq<u8>, flags: u8, letters: Seq<char>) -> bool {
    match hpack::frame_order(payload, flags) {
        Some(order) => letters.len() > 0 && wire::spells(order, letters),
        None => letters.len() == 0,
    }
}

/// A fingerprint says what was gathered.
proof fn lemma_says(got: Gathered, frames: Seq<SentFrame>, order: Seq<char>, letters: Seq<char>)
    requires
        holds(got, frames),
        laws::well_shaped(got),
        !order.contains('|'),
        wire::spells(order, letters),
    ensures
        wire::says_what_was_sent(preamble::fingerprint(got, order), frames, letters),
{
    laws::components_can_be_split(got, order);
    let parts = text::split(preamble::fingerprint(got, order), '|');
    let texts = laws::setting_texts(got);
    assert forall|i: int| 0 <= i < texts.len() implies wire::is_numerals(
        #[trigger] texts[i],
        seq![got.settings[i].0 as nat, got.settings[i].1 as nat],
    ) by {
        let numbers = seq![got.settings[i].0 as nat, got.settings[i].1 as nat];
        lemma_numerals_joined(numbers);
        assert(numbers.map_values(|n: nat| text::decimal(n)) =~= seq![
            text::decimal(got.settings[i].0 as nat),
            text::decimal(got.settings[i].1 as nat),
        ]);
    }
    assert(wire::says_settings(parts[0], got.settings));
    text::decimals_are_numerals(laws::window_increment(got));
    assert(wire::says_priorities(parts[2], wire::at_most(wire::priorities(frames), 16)));
}

/// Every connection is fingerprinted with its first HEADERS frame, and its fingerprint
/// says what was sent: the first settings, the first increment, the first sixteen
/// priorities, and the letters that the HEADERS frame tells. So it is whatever whole
/// frames precede it and whatever bytes follow it, as long as they fit the limit.
pub proof fn connections_are_fingerprinted(
    frames: Seq<SentFrame>,
    flags: u8,
    reserved: bool,
    stream: nat,
    payload: Seq<u8>,
    letters: Seq<char>,
    rest: Seq<u8>,
)
    requires
        wire::frames_fit(frames),
        stream < 0x8000_0000,
        tells(payload, flags, letters),
        connection(
            frames,
            wire::frame_bytes(1, flags, reserved, stream, payload) + rest,
        ).len() <= 0x8000,
    ensures
        preamble::verdict(
            connection(frames, wire::frame_bytes(1, flags, reserved, stream, payload) + rest),
        ) matches Outcome::Complete(fingerprint) && wire::says_what_was_sent(
            fingerprint,
            frames,
            letters,
        ),
{
    let h = wire::frame_bytes(1, flags, reserved, stream, payload);
    let tail = wire::all_sent_bytes(frames) + (h + rest);
    let order = match hpack::frame_order(payload, flags) {
        Some(order) => order,
        None => Seq::empty(),
    };
    lemma_preface();
    lemma_verdict(tail);
    assert(h.len() >= payload.len());
    lemma_frame_read(1, flags, reserved, stream, payload, rest);
    let got = sent_frames_are_gathered(frames, h + rest);
    laws::headers_always_complete(got, h + rest);
    assert(preamble::scan(got, h + rest).got == got) by {
        reveal(preamble::effect);
    }
    laws::what_is_gathered_is_well_shaped(tail);
    if let Some(block) = hpack::header_block(payload, flags) {
        hpack_laws::orders_are_of_distinct_letters(block);
    }
    lemma_says(got, frames, order, letters);
}

/// A connection whose first request has its pseudo-headers in front, none of them
/// twice, is fingerprinted with exactly their order.
pub proof fn requests_are_fingerprinted(
    frames: Seq<SentFrame>,
    h: SentHeaders,
    items: Seq<Item>,
    end: Option<Item>,
    tail: Seq<u8>,
    rest: Seq<u8>,
)
    requires
        wire::frames_fit(frames),
        wire::headers_fit(h),
        wire::pseudo_section(items),
        match end {
            Some(item) => wire::item_fits(item) && wire::item_meaning(item) is Regular && h.block
                == wire::all_item_bytes(items) + (wire::item_bytes(item) + tail),
            None => h.block == wire::all_item_bytes(items),
        },
        connection(frames, wire::headers_bytes(h) + rest).len() <= 0x8000,
    ensures
        preamble::verdict(connection(frames, wire::headers_bytes(h) + rest)) matches
            Outcome::Complete(fingerprint) && wire::says_what_was_sent(
            fingerprint,
            frames,
            wire::letters(items),
        ),
{
    block_laws::headers_have_the_order_of_their_block(h);
    if end is Some {
        block_laws::blocks_have_the_order_sent(items, end, tail);
    } else {
        block_laws::blocks_have_the_order_sent(items, end, Seq::empty());
        assert(wire::all_item_bytes(items) + Seq::<u8>::empty() =~= wire::all_item_bytes(items));
    }
    connections_are_fingerprinted(
        frames,
        h.flags,
        h.reserved,
        h.stream,
        wire::headers_payload(h),
        wire::letters(items),
        rest,
    );
}

/// A walk pends at a frame that is not whole, with what the frames before it hold.
proof fn lemma_unfinished(
    frames: Seq<SentFrame>,
    kind: u8,
    flags: u8,
    reserved: bool,
    stream: nat,
    payload: Seq<u8>,
    cut: int,
) -> (got: Gathered)
    requires
        wire::frames_fit(frames),
        stream < 0x8000_0000,
        payload.len() <= 0x8000,
        0 <= cut < wire::frame_bytes(kind, flags, reserved, stream, payload).len(),
    ensures
        holds(got, frames),
        ({
            let part = wire::frame_bytes(kind, flags, reserved, stream, payload).take(cut);
            let s = preamble::scan(preamble::nothing(), wire::all_sent_bytes(frames) + part);
            s.outcome is Pending && s.got == got
        }),
{
    let part = wire::frame_bytes(kind, flags, reserved, stream, payload).take(cut);
    let got = sent_frames_are_gathered(frames, part);
    lemma_frame_read(kind, flags, reserved, stream, payload, Seq::empty());
    if cut >= 9 {
        let head = wire::header_bytes(payload.len(), kind, flags, reserved, stream);
        lemma_header_read(payload.len(), kind, flags, reserved, stream, payload.take(cut - 9));
        assert(part =~= head + payload.take(cut - 9));
    }
    got
}

/// While the preface or a frame is not whole yet, more bytes are needed: nothing
/// completes early, and nothing that can still become whole is given up.
pub proof fn unfinished_connections_pend(
    frames: Seq<SentFrame>,
    kind: u8,
    flags: u8,
    reserved: bool,
    stream: nat,
    payload: Seq<u8>,
    cut: int,
)
    requires
        wire::frames_fit(frames),
        stream < 0x8000_0000,
        payload.len() <= 0x8000,
        0 <= cut < wire::frame_bytes(kind, flags, reserved, stream, payload).len(),
        connection(
            frames,
            wire::frame_bytes(kind, flags, reserved, stream, payload).take(cut),
        ).len() <= 0x8000,
    ensures
        preamble::verdict(
            connection(
                frames,
                wire::frame_bytes(kind, flags, reserved, stream, payload).take(cut),
            ),
        ) is Pending,
{
    let part = wire::frame_bytes(kind, flags, reserved, stream, payload).take(cut);
    lemma_preface();
    lemma_verdict(wire::all_sent_bytes(frames) + part);
    lemma_unfinished(frames, kind, flags, reserved, stream, payload, cut);
}

/// While the bytes are those of the preface, more are needed.
pub proof fn unfinished_prefaces_pend(cut: int)
    requires
        0 <= cut <= 24,
    ensures
        preamble::verdict(wire::preface().take(cut)) is Pending,
{
    lemma_preface();
    let bytes = wire::preface().take(cut);
    assert(Seq::<u8>::empty() + bytes =~= bytes);
    assert(preamble::agrees_with_preface(bytes));
}

/// A connection in which a frame of the wrong size stands before the first HEADERS
/// frame has no fingerprint, whatever follows: SETTINGS whose length is no multiple of
/// six, WINDOW_UPDATE of another length than four, PRIORITY of another than five.
pub proof fn connections_with_malformed_frames_are_refused(
    frames: Seq<SentFrame>,
    kind: u8,
    flags: u8,
    reserved: bool,
    stream: nat,
    payload: Seq<u8>,
    rest: Seq<u8>,
)
    requires
        wire::frames_fit(frames),
        stream < 0x8000_0000,
        payload.len() <= 0x8000,
        kind == 4 && payload.len() % 6 != 0 || kind == 8 && payload.len() != 4 || kind == 2
            && payload.len() != 5,
    ensures
        preamble::verdict(
            connection(frames, wire::frame_bytes(kind, flags, reserved, stream, payload) + rest),
        ) is Refused,
{
    let w = wire::frame_bytes(kind, flags, reserved, stream, payload);
    let tail = wire::all_sent_bytes(frames) + (w + rest);
    lemma_preface();
    if 24 + tail.len() <= 0x8000 {
        lemma_verdict(tail);
        lemma_frame_read(kind, flags, reserved, stream, payload, rest);
        let got = sent_frames_are_gathered(frames, w + rest);
        laws::malformed_frames_are_refused(got, w + rest);
    } else {
        too_much_is_refused(connection(frames, w + rest));
    }
}

/// A connection in which a frame header declares more than 32 KiB before the first
/// HEADERS frame is whole has no fingerprint, and none of that payload is waited for.
pub proof fn connections_with_oversized_frames_are_refused(
    frames: Seq<SentFrame>,
    len: nat,
    kind: u8,
    flags: u8,
    reserved: bool,
    stream: nat,
    rest: Seq<u8>,
)
    requires
        wire::frames_fit(frames),
        stream < 0x8000_0000,
        0x8000 < len < 0x100_0000,
    ensures
        preamble::verdict(
            connection(frames, wire::header_bytes(len, kind, flags, reserved, stream) + rest),
        ) is Refused,
{
    let w = wire::header_bytes(len, kind, flags, reserved, stream);
    let tail = wire::all_sent_bytes(frames) + (w + rest);
    lemma_preface();
    if 24 + tail.len() <= 0x8000 {
        lemma_verdict(tail);
        lemma_header_read(len, kind, flags, reserved, stream, rest);
        let got = sent_frames_are_gathered(frames, w + rest);
        laws::malformed_frames_are_refused(got, w + rest);
    } else {
        too_much_is_refused(connection(frames, w + rest));
    }
}

/// More than 32 KiB are not taken in.
pub proof fn too_much_is_refused(bytes: Seq<u8>)
    requires
        bytes.len() > 0x8000,
    ensures
        preamble::verdict(bytes) is Refused,
{
}

/// A sniffer that would come to hold more than 32 KiB refuses, and stays as it was.
pub proof fn too_much_is_not_taken_in(st: SnifferState, data: Seq<u8>)
    requires
        st.buf.len() + data.len() > 0x8000,
    ensures
        preamble::fed(st, data) == (Outcome::Refused, st),
{
}

/// Bytes that differ from the preface at one place are refused, whatever follows.
pub proof fn other_bytes_are_refused(bytes: Seq<u8>, i: int)
    requires
        0 <= i < bytes.len(),
        i < 24,
        bytes[i] != wire::preface()[i],
    ensures
        preamble::verdict(bytes) is Refused,
{
    lemma_preface();
    laws::other_traffic_is_refused(bytes, i);
}

/// To look again at the same bytes changes nothing.
pub proof fn looking_again_changes_nothing(st: SnifferState)
    requires
        preamble::live(st),
    ensures
        preamble::parsed(st) == (Outcome::Pending, st),
{
    let none = Seq::<u8>::empty();
    laws::live_state_is_determined_by_its_bytes(st, none);
    assert(st.buf + none =~= st.buf);
    assert(none + st.buf =~= st.buf);
    assert(preamble::verdict(st.buf) is Pending);
    assert(SnifferState { buf: st.buf + none, ..st } == st);
}

/// A sniffer that has received whole frames and a piece of another renders what the
/// frames hold, with the letters that it is given.
pub proof fn renderings_say_what_was_sent(
    st: SnifferState,
    frames: Seq<SentFrame>,
    kind: u8,
    flags: u8,
    reserved: bool,
    stream: nat,
    payload: Seq<u8>,
    cut: int,
    order: Seq<char>,
    letters: Seq<char>,
)
    requires
        preamble::live(st),
        wire::frames_fit(frames),
        stream < 0x8000_0000,
        payload.len() <= 0x8000,
        0 <= cut < wire::frame_bytes(kind, flags, reserved, stream, payload).len(),
        st.buf == connection(
            frames,
            wire::frame_bytes(kind, flags, reserved, stream, payload).take(cut),
        ),
        wire::spells(order, letters),
        !letters.contains('|'),
    ensures
        wire::says_what_was_sent(preamble::fingerprint(st.got, order), frames, letters),
{
    let part = wire::frame_bytes(kind, flags, reserved, stream, payload).take(cut);
    let tail = wire::all_sent_bytes(frames) + part;
    lemma_preface();
    assert(st.buf.skip(24) =~= tail);
    assert(preamble::agrees_with_preface(st.buf));
    laws::what_is_gathered_is_well_shaped(tail);
    assert forall|i: int| 0 <= i < order.len() implies order[i] != '|' by {
        if i % 2 == 0 {
            assert(order[2 * (i / 2)] == letters[i / 2]);
        }
    }
    let got = lemma_unfinished(frames, kind, flags, reserved, stream, payload, cut);
    lemma_says(got, frames, order, letters);
}

/// What is rendered with an order is what is rendered without one, and then the order.
pub proof fn renderings_end_with_the_order(got: Gathered, order: Seq<char>)
    ensures
        preamble::fingerprint(got, order) == preamble::fingerprint(got, Seq::empty()) + order,
{
    let a = preamble::settings_component(got);
    let b = preamble::window_component(got);
    let c = preamble::priority_component(got);
    text::lemma_join_four(a, b, c, order, '|');
    text::lemma_join_four(a, b, c, Seq::empty(), '|');
    assert(preamble::fingerprint(got, order) =~= preamble::fingerprint(got, Seq::empty()) + order);
}

/// However a connection is read, and whatever is read later, one text is handed to the
/// cell of its tap, and that says what was sent.
pub proof fn connections_are_published(
    frames: Seq<SentFrame>,
    flags: u8,
    reserved: bool,
    stream: nat,
    payload: Seq<u8>,
    letters: Seq<char>,
    rest: Seq<u8>,
    reads: Seq<Seq<u8>>,
    later: Seq<Seq<u8>>,
)
    requires
        wire::frames_fit(frames),
        stream < 0x8000_0000,
        tells(payload, flags, letters),
        reads.flatten() == connection(
            frames,
            wire::frame_bytes(1, flags, reserved, stream, payload) + rest,
        ),
        reads.flatten().len() <= 0x8000,
        forall|i: int| 0 <= i < reads.len() ==> (#[trigger] reads[i]).len() > 0,
    ensures
        ({
            let handed = laws::tapped_all(tap::untouched(), reads + later).handed;
            handed.len() == 1 && wire::says_what_was_sent(handed[0], frames, letters)
        }),
{
    connections_are_fingerprinted(frames, flags, reserved, stream, payload, letters, rest);
    laws::what_is_handed_is_the_fingerprint(reads);
    laws::what_was_handed_stands(reads, later);
}

/// Numbers with colons between them have one text.
proof fn lemma_numerals_unique(a: Seq<char>, b: Seq<char>, numbers: Seq<nat>)
    requires
        wire::is_numerals(a, numbers),
        wire::is_numerals(b, numbers),
    ensures
        a == b,
{
    let x = text::split(a, ':');
    let y = text::split(b, ':');
    assert forall|i: int| 0 <= i < x.len() implies x[i] == y[i] by {
        text::numerals_are_unique(x[i], y[i], numbers[i]);
    }
    assert(x =~= y);
    text::split_parts_can_be_joined(a, ':');
    text::split_parts_can_be_joined(b, ':');
}

/// Settings have one text.
proof fn lemma_settings_unique(a: Seq<char>, b: Seq<char>, settings: Seq<(u16, u32)>)
    requires
        wire::says_settings(a, settings),
        wire::says_settings(b, settings),
    ensures
        a == b,
{
    if settings.len() == 0 {
        assert(a =~= b);
    } else {
        let x = text::split(a, ';');
        let y = text::split(b, ';');
        assert forall|i: int| 0 <= i < x.len() implies x[i] == y[i] by {
            lemma_numerals_unique(
                x[i],
                y[i],
                seq![settings[i].0 as nat, settings[i].1 as nat],
            );
        }
        assert(x =~= y);
        text::split_parts_can_be_joined(a, ';');
        text::split_parts_can_be_joined(b, ';');
    }
}

/// Priorities have one text.
proof fn lemma_priorities_unique(a: Seq<char>, b: Seq<char>, list: Seq<Seq<nat>>)
    requires
        wire::says_priorities(a, list),
        wire::says_priorities(b, list),
    ensures
        a == b,
{
    if list.len() > 0 {
        let x = text::split(a, ',');
        let y = text::split(b, ',');
        assert forall|i: int| 0 <= i < x.len() implies x[i] == y[i] by {
            lemma_numerals_unique(x[i], y[i], list[i]);
        }
        assert(x =~= y);
        text::split_parts_can_be_joined(a, ',');
        text::split_parts_can_be_joined(b, ',');
    }
}

/// What a fingerprint says leaves no choice of its text.
pub proof fn one_text_says_it(
    a: Seq<char>,
    b: Seq<char>,
    settings: Seq<(u16, u32)>,
    increment: nat,
    list: Seq<Seq<nat>>,
    letters: Seq<char>,
)
    requires
        wire::says(a, settings, increment, list, letters),
        wire::says(b, settings, increment, list, letters),
    ensures
        a == b,
{
    let x = text::split(a, '|');
    let y = text::split(b, '|');
    lemma_settings_unique(x[0], y[0], settings);
    text::numerals_are_unique(x[1], y[1], increment);
    lemma_priorities_unique(x[2], y[2], list);
    assert forall|i: int| 0 <= i < x[3].len() implies x[3][i] == y[3][i] by {
        if i % 2 == 0 {
            assert(letters[i / 2] == x[3][2 * (i / 2)] && letters[i / 2] == y[3][2 * (i / 2)]);
        }
    }
    assert(x[3] =~= y[3]);
    assert(x =~= y);
    text::split_parts_can_be_joined(a, '|');
    text::split_parts_can_be_joined(b, '|');
}

} // verus!
