//! What is written in a header block is what is read from it.

use crate::hpack::Field;
use crate::wire::{Form, Item, Literal, Meaning, SentHeaders};
use crate::{hpack, hpack_laws, wire};
use vstd::prelude::*;

verus! {

/// The octets of a number are read back, whatever follows them.
proof fn lemma_septets_read(v: nat, octets: nat, allowed: nat, tail: Seq<u8>)
    requires
        1 <= octets <= allowed,
        v < vstd::arithmetic::power::pow(128, octets),
    ensures
        hpack::continuation(wire::septets(v, octets) + tail, allowed) == Some((v, tail)),
    decreases octets,
{
    reveal(vstd::arithmetic::power::pow);
    let s = wire::septets(v, octets) + tail;
    if octets == 1 {
        assert(vstd::arithmetic::power::pow(128, 0) == 1);
        assert(v < 128);
        assert(s.skip(1) =~= tail);
    } else {
        assert(s.skip(1) =~= wire::septets(v / 128, (octets - 1) as nat) + tail);
        assert(v / 128 < vstd::arithmetic::power::pow(128, (octets - 1) as nat));
        lemma_septets_read(v / 128, (octets - 1) as nat, (allowed - 1) as nat, tail);
    }
}

/// Every integer that is written with up to five continuation octets is read, under
/// whatever bits and before whatever bytes it stands, and with as many octets as the
/// writer chose.
pub proof fn written_integers_are_read(v: nat, bits: nat, high: nat, octets: nat, tail: Seq<u8>)
    requires
        bits <= 8,
        (high + 1) * vstd::arithmetic::power2::pow2(bits) <= 256,
        wire::integer_fits(v, bits, octets),
    ensures
        hpack::integer(wire::integer_bytes(v, bits, high, octets) + tail, bits) == Some((v, tail)),
{
    let modulus = vstd::arithmetic::power2::pow2(bits);
    vstd::arithmetic::power2::lemma_pow2_pos(bits);
    let full = (modulus - 1) as nat;
    let s = wire::integer_bytes(v, bits, high, octets) + tail;
    let low: nat = if v < full {
        v
    } else {
        full
    };
    assert((high + 1) * modulus == high * modulus + modulus) by (nonlinear_arith);
    assert(0 <= high * modulus) by (nonlinear_arith);
    assert(s[0] == high * modulus + low);
    assert((high * modulus + low) as nat % modulus == low) by {
        vstd::arithmetic::div_mod::lemma_mod_multiples_vanish(
            high as int,
            low as int,
            modulus as int,
        );
        vstd::arithmetic::div_mod::lemma_small_mod(low, modulus);
        vstd::arithmetic::mul::lemma_mul_is_commutative(high as int, modulus as int);
    }
    if v < full {
        assert(s.skip(1) =~= tail);
    } else {
        assert(s.skip(1) =~= wire::septets((v - full) as nat, octets) + tail);
        lemma_septets_read((v - full) as nat, octets, 5, tail);
    }
}

/// Octets with the top bit set are no number.
proof fn lemma_unended(s: Seq<u8>, allowed: nat)
    requires
        forall|i: int| 0 <= i < s.len() && i < allowed ==> #[trigger] s[i] >= 128,
    ensures
        hpack::continuation(s, allowed) is None,
    decreases allowed,
{
    if allowed > 0 && s.len() > 0 {
        assert(s[0] >= 128);
        assert forall|i: int| 0 <= i < s.skip(1).len() && i < allowed - 1 implies #[trigger] s.skip(
            1,
        )[i] >= 128 by {
            assert(s[i + 1] >= 128);
        }
        lemma_unended(s.skip(1), (allowed - 1) as nat);
    }
}

/// An integer that does not end within five continuation octets, or at all, is
/// refused.
pub proof fn unended_integers_are_refused(s: Seq<u8>, bits: nat)
    requires
        s.len() == 0 || s[0] as nat % vstd::arithmetic::power2::pow2(bits)
            == vstd::arithmetic::power2::pow2(bits) - 1,
        forall|i: int| 1 <= i < s.len() && i <= 5 ==> #[trigger] s[i] >= 128,
    ensures
        hpack::integer(s, bits) is None,
{
    if s.len() > 0 {
        assert forall|i: int| 0 <= i < s.skip(1).len() && i < 5 implies #[trigger] s.skip(1)[i]
            >= 128 by {
            assert(s[i + 1] >= 128);
        }
        lemma_unended(s.skip(1), 5);
    }
}

/// A prefix wider than an octet is never full, so the octet is the integer.
pub proof fn wide_prefixes_hold_the_octet(s: Seq<u8>, bits: nat)
    requires
        s.len() > 0,
        bits > 8,
    ensures
        hpack::integer(s, bits) == Some((s[0] as nat, s.skip(1))),
{
    vstd::arithmetic::power2::lemma2_to64();
    if bits > 9 {
        vstd::arithmetic::power2::lemma_pow2_strictly_increases(9, bits);
    }
    vstd::arithmetic::div_mod::lemma_small_mod(
        s[0] as nat,
        vstd::arithmetic::power2::pow2(bits),
    );
}

/// Every string literal that is written is read: a coded one is passed over, a plain
/// one gives the text whose UTF-8 its octets are, and octets that are no UTF-8 are
/// refused.
pub proof fn written_literals_are_read(l: Literal, tail: Seq<u8>)
    requires
        wire::literal_fits(l),
    ensures
        hpack::string_literal(wire::literal_bytes(l) + tail) == if l.coded {
            Some((None::<Seq<char>>, tail))
        } else if vstd::utf8::valid_utf8(l.octets) {
            Some((Some(vstd::utf8::decode_utf8(l.octets)), tail))
        } else {
            None
        },
{
    vstd::arithmetic::power2::lemma2_to64();
    let high: nat = if l.coded {
        1
    } else {
        0
    };
    let n = wire::integer_bytes(l.octets.len(), 7, high, l.extra);
    let s = wire::literal_bytes(l) + tail;
    written_integers_are_read(l.octets.len(), 7, high, l.extra, l.octets + tail);
    assert(s =~= n + (l.octets + tail));
    assert((l.octets + tail).take(l.octets.len() as int) =~= l.octets);
    assert((l.octets + tail).skip(l.octets.len() as int) =~= tail);
    assert(s[0] == n[0]);
    assert((s[0] >= 128) == l.coded);
}

/// A string literal that is cut short is refused.
pub proof fn cut_literals_are_refused(l: Literal, cut: int)
    requires
        wire::literal_fits(l),
        0 <= cut < wire::literal_bytes(l).len(),
    ensures
        hpack::string_literal(wire::literal_bytes(l).take(cut)) is None,
{
    let whole = wire::literal_bytes(l);
    let head = whole.take(cut);
    let tail = whole.skip(cut);
    assert(head + tail =~= whole);
    assert(whole + Seq::<u8>::empty() =~= whole);
    written_literals_are_read(l, Seq::empty());
    if hpack::string_literal(head) is Some {
        hpack_laws::lemma_string_extends(head, tail);
        let rest = hpack::string_literal(head)->Some_0.1;
        assert((rest + tail).len() > 0);
    }
}

/// A string literal whose length does not end within five continuation octets, or at
/// all, is refused.
pub proof fn unended_lengths_are_refused(s: Seq<u8>)
    requires
        s.len() == 0 || s[0] == 0x7f || s[0] == 0xff,
        forall|i: int| 1 <= i < s.len() && i <= 5 ==> #[trigger] s[i] >= 128,
    ensures
        hpack::string_literal(s) is None,
{
    vstd::arithmetic::power2::lemma2_to64();
    unended_integers_are_refused(s, 7);
}

/// Every static entry and every name is taken for what it is.
pub proof fn entries_and_names_have_their_meaning(index: nat, name: Seq<char>)
    ensures
        match wire::entry_meaning(index) {
            Meaning::Letter(c) => hpack::indexed_field(index) == Some(Field::Pseudo(c)),
            Meaning::Regular => hpack::indexed_field(index) == Some(Field::Regular),
            _ => hpack::indexed_field(index) is None,
        },
        match wire::name_meaning(name) {
            Meaning::Letter(c) => hpack::named_field(name) == Some(Field::Pseudo(c)),
            Meaning::Regular => hpack::named_field(name) == Some(Field::Regular),
            _ => hpack::named_field(name) is None,
        },
{
    reveal_strlit(":authority");
    reveal_strlit(":method");
    reveal_strlit(":path");
    reveal_strlit(":scheme");
    assert(":authority"@.len() == 10 && ":method"@.len() == 7 && ":path"@.len() == 5
        && ":scheme"@.len() == 7);
    assert(":scheme"@[1] == 's' && ":method"@[1] == 'm');
}

/// The first octet of an integer has the bits above its prefix.
proof fn lemma_first_octet(v: nat, bits: nat, high: nat, octets: nat, tail: Seq<u8>)
    requires
        bits <= 8,
        (high + 1) * vstd::arithmetic::power2::pow2(bits) <= 256,
    ensures
        ({
            let s = wire::integer_bytes(v, bits, high, octets) + tail;
            let modulus = vstd::arithmetic::power2::pow2(bits);
            s.len() > 0 && high * modulus <= s[0] < (high + 1) * modulus
        }),
{
    let modulus = vstd::arithmetic::power2::pow2(bits);
    vstd::arithmetic::power2::lemma_pow2_pos(bits);
    assert((high + 1) * modulus == high * modulus + modulus) by (nonlinear_arith);
    assert(0 <= high * modulus) by (nonlinear_arith);
}

/// The representation that begins with the index of a literal header field is that of
/// the literal.
proof fn lemma_literal_field(form: Form, index: nat, extra: nat, s: Seq<u8>)
    requires
        wire::integer_fits(index, wire::form_bits(form), extra),
    ensures
        hpack::representation(
            wire::integer_bytes(index, wire::form_bits(form), wire::form_high(form), extra) + s,
        ) == match hpack::literal(index, s) {
            Some((field, rest)) => Some((Some(field), rest)),
            None => None,
        },
{
    vstd::arithmetic::power2::lemma2_to64();
    let bits = wire::form_bits(form);
    let high = wire::form_high(form);
    lemma_first_octet(index, bits, high, extra, s);
    written_integers_are_read(index, bits, high, extra, s);
}

/// A literal header field with an indexed name is read.
proof fn lemma_indexed_name_read(index: nat, value: Literal, tail: Seq<u8>)
    requires
        index > 0,
        wire::literal_fits(value),
    ensures
        hpack::literal(index, wire::literal_bytes(value) + tail) == if wire::legible(value) {
            match wire::entry_meaning(index) {
                Meaning::Letter(c) => Some((Field::Pseudo(c), tail)),
                Meaning::Regular => Some((Field::Regular, tail)),
                _ => None,
            }
        } else {
            None
        },
{
    written_literals_are_read(value, tail);
    entries_and_names_have_their_meaning(index, Seq::empty());
}

/// A literal header field with a name of its own is read.
proof fn lemma_new_name_read(name: Literal, value: Literal, tail: Seq<u8>)
    requires
        wire::literal_fits(name),
        wire::literal_fits(value),
    ensures
        hpack::literal(0, wire::literal_bytes(name) + (wire::literal_bytes(value) + tail))
            == if !name.coded && wire::legible(name) && wire::legible(value) {
            match wire::name_meaning(vstd::utf8::decode_utf8(name.octets)) {
                Meaning::Letter(c) => Some((Field::Pseudo(c), tail)),
                Meaning::Regular => Some((Field::Regular, tail)),
                _ => None,
            }
        } else {
            None
        },
{
    written_literals_are_read(name, wire::literal_bytes(value) + tail);
    written_literals_are_read(value, tail);
    entries_and_names_have_their_meaning(0, vstd::utf8::decode_utf8(name.octets));
}

/// What a reader makes of a representation with this meaning, followed by `tail`.
pub open spec fn read_as(meaning: Meaning, tail: Seq<u8>) -> Option<(Option<Field>, Seq<u8>)> {
    match meaning {
        Meaning::Nothing => Some((None, tail)),
        Meaning::Letter(c) => Some((Some(Field::Pseudo(c)), tail)),
        Meaning::Regular => Some((Some(Field::Regular), tail)),
        Meaning::Uncertain => None,
    }
}

/// A table size update is read.
proof fn lemma_resize_read(size: nat, extra: nat, tail: Seq<u8>)
    requires
        wire::integer_fits(size, 5, extra),
    ensures
        hpack::representation(wire::integer_bytes(size, 5, 1, extra) + tail) == read_as(
            Meaning::Nothing,
            tail,
        ),
{
    assert(vstd::arithmetic::power2::pow2(5) == 32) by {
        vstd::arithmetic::power2::lemma2_to64();
    }
    lemma_first_octet(size, 5, 1, extra, tail);
    written_integers_are_read(size, 5, 1, extra, tail);
}

/// An indexed header field is read.
proof fn lemma_indexed_read(index: nat, extra: nat, tail: Seq<u8>)
    requires
        wire::integer_fits(index, 7, extra),
    ensures
        hpack::representation(wire::integer_bytes(index, 7, 1, extra) + tail) == read_as(
            wire::entry_meaning(index),
            tail,
        ),
{
    assert(vstd::arithmetic::power2::pow2(7) == 128) by {
        vstd::arithmetic::power2::lemma2_to64();
    }
    lemma_first_octet(index, 7, 1, extra, tail);
    written_integers_are_read(index, 7, 1, extra, tail);
    entries_and_names_have_their_meaning(index, Seq::empty());
}

/// Bytes one after the other.
pub proof fn lemma_concat(a: Seq<u8>, b: Seq<u8>, c: Seq<u8>)
    ensures
        (a + b) + c == a + (b + c),
{
    assert((a + b) + c =~= a + (b + c));
}

/// A header field with an indexed name is read.
proof fn lemma_indexed_name_item(form: Form, index: nat, extra: nat, value: Literal, tail: Seq<u8>)
    requires
        wire::item_fits(Item::IndexedName { form, index, extra, value }),
    ensures
        hpack::representation(
            wire::item_bytes(Item::IndexedName { form, index, extra, value }) + tail,
        ) == read_as(wire::item_meaning(Item::IndexedName { form, index, extra, value }), tail),
{
    let n = wire::integer_bytes(index, wire::form_bits(form), wire::form_high(form), extra);
    lemma_concat(n, wire::literal_bytes(value), tail);
    lemma_literal_field(form, index, extra, wire::literal_bytes(value) + tail);
    lemma_indexed_name_read(index, value, tail);
}

/// A header field with a name of its own is read.
proof fn lemma_new_name_item(form: Form, name: Literal, value: Literal, tail: Seq<u8>)
    requires
        wire::item_fits(Item::NewName { form, name, value }),
    ensures
        hpack::representation(wire::item_bytes(Item::NewName { form, name, value }) + tail)
            == read_as(wire::item_meaning(Item::NewName { form, name, value }), tail),
{
    let n = wire::integer_bytes(0, wire::form_bits(form), wire::form_high(form), 0);
    let a = wire::literal_bytes(name);
    let b = wire::literal_bytes(value);
    lemma_concat(n + a, b, tail);
    lemma_concat(n, a, b + tail);
    assert(wire::integer_fits(0, wire::form_bits(form), 0)) by {
        vstd::arithmetic::power2::lemma2_to64();
    }
    lemma_literal_field(form, 0, 0, a + (b + tail));
    lemma_new_name_read(name, value, tail);
}

/// Every representation that is written, and is followed by anything, is read as what
/// it means and leaves what follows it. What cannot be told is not read.
pub proof fn written_items_are_read(item: Item, tail: Seq<u8>)
    requires
        wire::item_fits(item),
    ensures
        wire::item_bytes(item).len() > 0,
        hpack::representation(wire::item_bytes(item) + tail) == read_as(
            wire::item_meaning(item),
            tail,
        ),
{
    match item {
        Item::Resize { size, extra } => {
            lemma_resize_read(size, extra, tail);
        },
        Item::Indexed { index, extra } => {
            lemma_indexed_read(index, extra, tail);
        },
        Item::IndexedName { form, index, extra, value } => {
            lemma_indexed_name_item(form, index, extra, value, tail);
        },
        Item::NewName { form, name, value } => {
            lemma_new_name_item(form, name, value, tail);
        },
    }
}

/// A representation that is cut short is not read.
pub proof fn cut_items_are_not_read(item: Item, cut: int)
    requires
        wire::item_fits(item),
        0 < cut < wire::item_bytes(item).len(),
    ensures
        hpack::representation(wire::item_bytes(item).take(cut)) is None,
{
    let whole = wire::item_bytes(item);
    let head = whole.take(cut);
    let tail = whole.skip(cut);
    assert(head + tail =~= whole);
    assert(whole + Seq::<u8>::empty() =~= whole);
    written_items_are_read(item, Seq::empty());
    if hpack::representation(head) is Some {
        hpack_laws::lemma_representation_extends(head, tail);
        let rest = hpack::representation(head)->Some_0.1;
        assert((rest + tail).len() > 0);
    }
}

/// Only a first octet from 0x20 up to 0x40 writes no header.
pub proof fn only_size_updates_are_passed_over(block: Seq<u8>)
    requires
        block.len() > 0,
        hpack::representation(block) matches Some((None, _)),
    ensures
        0x20 <= block[0] < 0x40,
{
}

/// A header field whose name or value cannot be read is not read.
pub proof fn unreadable_parts_spoil_the_field(form: Form, index: nat, extra: nat, name: Literal, s:
    Seq<u8>)
    requires
        index > 0,
        wire::integer_fits(index, wire::form_bits(form), extra),
        wire::literal_fits(name),
        hpack::string_literal(s) is None,
    ensures
        hpack::representation(
            wire::integer_bytes(index, wire::form_bits(form), wire::form_high(form), extra) + s,
        ) is None,
        hpack::representation(
            wire::integer_bytes(0, wire::form_bits(form), wire::form_high(form), 0) + s,
        ) is None,
        hpack::representation(
            wire::integer_bytes(0, wire::form_bits(form), wire::form_high(form), 0) + (
            wire::literal_bytes(name) + s),
        ) is None,
{
    assert(wire::integer_fits(0, wire::form_bits(form), 0)) by {
        vstd::arithmetic::power2::lemma2_to64();
    }
    lemma_literal_field(form, index, extra, s);
    lemma_literal_field(form, 0, 0, s);
    lemma_literal_field(form, 0, 0, wire::literal_bytes(name) + s);
    written_literals_are_read(name, s);
}

/// A representation whose size or index does not end within five continuation octets,
/// or at all, is not read.
pub proof fn unended_items_are_not_read(block: Seq<u8>)
    requires
        block.len() > 0,
        block[0] == 0xff || block[0] == 0x7f || block[0] == 0x3f || block[0] == 0x1f || block[0]
            == 0x0f,
        forall|i: int| 1 <= i < block.len() && i <= 5 ==> #[trigger] block[i] >= 128,
    ensures
        hpack::representation(block) is None,
{
    vstd::arithmetic::power2::lemma2_to64();
    let bits: nat = if block[0] == 0xff {
        7
    } else if block[0] == 0x7f {
        6
    } else if block[0] == 0x3f {
        5
    } else {
        4
    };
    unended_integers_are_refused(block, bits);
}

/// Whether letters are those of pseudo-headers and none stands twice.
pub open spec fn distinct_pseudo_letters(found: Seq<char>) -> bool {
    &&& found.no_duplicates()
    &&& forall|i: int| 0 <= i < found.len() ==> hpack_laws::is_pseudo_letter(#[trigger] found[i])
}

/// The letters of what is sent are those of pseudo-headers.
proof fn lemma_sent_letters(items: Seq<Item>)
    ensures
        forall|i: int|
            0 <= i < wire::letters(items).len() ==> hpack_laws::is_pseudo_letter(
                #[trigger] wire::letters(items)[i],
            ),
    decreases items.len(),
{
    if items.len() > 0 {
        let others = wire::letters(items.drop_first());
        lemma_sent_letters(items.drop_first());
        assert forall|i: int| 0 <= i < wire::letters(items).len() implies
            hpack_laws::is_pseudo_letter(#[trigger] wire::letters(items)[i]) by {
            match wire::item_meaning(items[0]) {
                Meaning::Letter(c) => {
                    if i > 0 {
                        assert(wire::letters(items)[i] == others[i - 1]);
                    } else {
                        assert(wire::letters(items)[i] == c);
                    }
                },
                _ => {
                    assert(wire::letters(items)[i] == others[i]);
                },
            }
        }
    }
}

/// A walk goes past what was sent and finds its letters.
proof fn lemma_walk_items(items: Seq<Item>, found: Seq<char>, rest: Seq<u8>)
    requires
        wire::items_fit(items),
        distinct_pseudo_letters(found + wire::letters(items)),
        forall|i: int|
            0 <= i < items.len() ==> {
                ||| wire::item_meaning(#[trigger] items[i]) is Nothing
                ||| wire::item_meaning(items[i]) is Letter
            },
    ensures
        hpack::pseudo_letters(wire::all_item_bytes(items) + rest, found) == hpack::pseudo_letters(
            rest,
            found + wire::letters(items),
        ),
    decreases items.len(),
{
    if items.len() == 0 {
        assert(wire::all_item_bytes(items) + rest =~= rest);
        assert(found + wire::letters(items) =~= found);
    } else {
        let item = items[0];
        let others = items.drop_first();
        let tail = wire::all_item_bytes(others) + rest;
        lemma_concat(wire::item_bytes(item), wire::all_item_bytes(others), rest);
        assert(wire::item_fits(item));
        written_items_are_read(item, tail);
        assert forall|i: int| 0 <= i < others.len() implies wire::item_fits(#[trigger] others[i])
            && (wire::item_meaning(others[i]) is Nothing || wire::item_meaning(
            others[i],
        ) is Letter) by {
            assert(wire::item_fits(items[i + 1]));
            assert(wire::item_meaning(items[i + 1]) is Nothing || wire::item_meaning(
                items[i + 1],
            ) is Letter);
        }
        let all = found + wire::letters(items);
        match wire::item_meaning(item) {
            Meaning::Letter(c) => {
                assert(all =~= found.push(c) + wire::letters(others));
                assert(!found.contains(c)) by {
                    assert(all[found.len() as int] == c);
                    assert forall|i: int| 0 <= i < found.len() implies found[i] != c by {
                        assert(all[i] == found[i]);
                    }
                }
                assert(found.len() < 8) by {
                    assert forall|i: int| 0 <= i < found.len() implies hpack_laws::is_pseudo_letter(
                        #[trigger] found[i],
                    ) by {
                        assert(all[i] == found[i]);
                    }
                    assert forall|i: int, j: int|
                        0 <= i < found.len() && 0 <= j < found.len() && i != j implies found[i]
                        != found[j] by {
                        assert(all[i] == found[i] && all[j] == found[j]);
                    }
                    hpack_laws::lemma_four_letters(found);
                }
                lemma_walk_items(others, found.push(c), rest);
            },
            _ => {
                assert(wire::item_meaning(items[0]) is Nothing);
                lemma_walk_items(others, found, rest);
            },
        }
    }
}

/// A walk from the head of a block goes past what was sent.
proof fn lemma_walk_section(items: Seq<Item>, rest: Seq<u8>)
    requires
        wire::pseudo_section(items),
    ensures
        hpack::pseudo_letters(wire::all_item_bytes(items) + rest, Seq::empty())
            == hpack::pseudo_letters(rest, wire::letters(items)),
        wire::letters(items).len() <= 4,
{
    lemma_sent_letters(items);
    assert(Seq::<char>::empty() + wire::letters(items) =~= wire::letters(items));
    lemma_walk_items(items, Seq::empty(), rest);
    hpack_laws::lemma_four_letters(wire::letters(items));
}

/// Letters are spelled with commas between them.
pub proof fn lemma_letters_are_spelled(letters: Seq<char>)
    ensures
        wire::spells(hpack::letters_text(letters), letters),
    decreases letters.len(),
{
    let parts = letters.map_values(|c: char| seq![c]);
    let out = hpack::letters_text(letters);
    if letters.len() == 1 {
        assert(out == seq![letters[0]]);
    } else if letters.len() > 1 {
        let front = letters.drop_last();
        lemma_letters_are_spelled(front);
        assert(parts.drop_last() =~= front.map_values(|c: char| seq![c]));
        let shorter = hpack::letters_text(front);
        assert(out =~= shorter.push(',') + seq![letters.last()]);
        assert forall|i: int| 0 <= i < letters.len() implies out[2 * i]
            == #[trigger] letters[i] by {
            if i < front.len() {
                assert(front[i] == letters[i]);
            }
        }
    }
}

/// The order that is told of a header block is the order in which its pseudo-headers
/// were sent, each in any representation, with any table size updates between them,
/// and with nothing behind them or a regular header and then anything. A block
/// without pseudo-headers has none.
pub proof fn blocks_have_the_order_sent(items: Seq<Item>, end: Option<Item>, tail: Seq<u8>)
    requires
        wire::pseudo_section(items),
        match end {
            Some(item) => wire::item_fits(item) && wire::item_meaning(item) is Regular,
            None => tail.len() == 0,
        },
    ensures
        ({
            let behind = match end {
                Some(item) => wire::item_bytes(item) + tail,
                None => tail,
            };
            match hpack::block_order(wire::all_item_bytes(items) + behind) {
                Some(order) => wire::letters(items).len() > 0 && wire::spells(
                    order,
                    wire::letters(items),
                ),
                None => wire::letters(items).len() == 0,
            }
        }),
{
    let behind = match end {
        Some(item) => wire::item_bytes(item) + tail,
        None => tail,
    };
    lemma_walk_section(items, behind);
    if let Some(item) = end {
        written_items_are_read(item, tail);
    }
    assert(hpack::pseudo_letters(behind, wire::letters(items)) == Some(wire::letters(items)));
    lemma_letters_are_spelled(wire::letters(items));
}

/// No order is told of a block with a header that cannot be told, or with a
/// pseudo-header that was sent before, whatever follows it.
pub proof fn doubtful_headers_spoil_the_order(items: Seq<Item>, bad: Item, tail: Seq<u8>)
    requires
        wire::pseudo_section(items),
        wire::item_fits(bad),
        match wire::item_meaning(bad) {
            Meaning::Uncertain => true,
            Meaning::Letter(c) => wire::letters(items).contains(c),
            _ => false,
        },
    ensures
        hpack::block_order(wire::all_item_bytes(items) + (wire::item_bytes(bad) + tail)) is None,
{
    lemma_walk_section(items, wire::item_bytes(bad) + tail);
    written_items_are_read(bad, tail);
}

/// No order is told of a block in which something stands that is not read.
pub proof fn unread_bytes_spoil_the_order(items: Seq<Item>, rest: Seq<u8>)
    requires
        wire::pseudo_section(items),
        rest.len() > 0,
        hpack::representation(rest) is None,
    ensures
        hpack::block_order(wire::all_item_bytes(items) + rest) is None,
{
    lemma_walk_section(items, rest);
}

/// No order is told of a block that ends within a representation.
pub proof fn cut_blocks_have_no_order(items: Seq<Item>, item: Item, cut: int)
    requires
        wire::pseudo_section(items),
        wire::item_fits(item),
        0 < cut < wire::item_bytes(item).len(),
    ensures
        hpack::block_order(wire::all_item_bytes(items) + wire::item_bytes(item).take(cut)) is None,
{
    cut_items_are_not_read(item, cut);
    unread_bytes_spoil_the_order(items, wire::item_bytes(item).take(cut));
}

/// The order of a HEADERS frame is that of its block, with or without padding and
/// priority fields.
pub proof fn headers_have_the_order_of_their_block(h: SentHeaders)
    requires
        wire::headers_fit(h),
    ensures
        hpack::frame_order(wire::headers_payload(h), h.flags) == hpack::block_order(h.block),
{
    let payload = wire::headers_payload(h);
    let body = match h.priority {
        Some(fields) => fields + h.block,
        None => h.block,
    };
    if let Some(padding) = h.padding {
        assert(payload[0] == padding.len());
        assert(payload.subrange(1, payload.len() - payload[0]) =~= body);
    }
    if h.priority is Some {
        assert(body.skip(5) =~= h.block);
    }
}

/// No order is told of a HEADERS frame whose padding or priority fields do not fit
/// into it.
pub proof fn headers_that_do_not_fit_have_no_order(payload: Seq<u8>, flags: u8)
    requires
        ({
            let padded = flags & 0x8 != 0;
            let prioritized = flags & 0x20 != 0;
            ||| padded && payload.len() == 0
            ||| padded && payload[0] + 1 > payload.len()
            ||| prioritized && !padded && payload.len() < 5
            ||| prioritized && padded && payload.len() - 1 - payload[0] < 5
        }),
    ensures
        hpack::frame_order(payload, flags) is None,
{
}

} // verus!
