//! What holds of the walk over a header block as a whole.

use crate::hpack::{Field, FLAG_PADDED, FLAG_PRIORITY, MAX_CONTINUATION, MAX_PSEUDO};
use crate::{hpack, text};
use vstd::prelude::*;

verus! {

/// The continuation octets that stand for `v`, RFC 7541 section 5.1.
pub open spec fn encoded_continuation(v: nat) -> Seq<u8>
    decreases v,
{
    if v < 128 {
        seq![v as u8]
    } else {
        seq![(v % 128 + 128) as u8] + encoded_continuation(v / 128)
    }
}

/// The integer `v` with an N-bit prefix, with `high` in the bits of the first
/// octet above the prefix, RFC 7541 section 5.1.
pub open spec fn encoded_integer(v: nat, prefix_bits: nat, high: nat) -> Seq<u8> {
    let modulus = vstd::arithmetic::power2::pow2(prefix_bits);
    if v < modulus - 1 {
        seq![(high * modulus + v) as u8]
    } else {
        seq![(high * modulus + modulus - 1) as u8] + encoded_continuation(
            (v - (modulus - 1)) as nat,
        )
    }
}

/// Continuation octets are read back, whatever follows them.
proof fn lemma_continuation_reads_back(v: nat, octets: nat, tail: Seq<u8>)
    requires
        octets > 0,
        v < vstd::arithmetic::power::pow(128, octets),
    ensures
        hpack::continuation(encoded_continuation(v) + tail, octets) == Some((v, tail)),
    decreases octets,
{
    reveal(vstd::arithmetic::power::pow);
    let s = encoded_continuation(v) + tail;
    if v < 128 {
        assert(s.skip(1) =~= tail);
    } else {
        let next = encoded_continuation(v / 128);
        assert(s.skip(1) =~= next + tail);
        assert(v / 128 < vstd::arithmetic::power::pow(128, (octets - 1) as nat));
        if octets == 1 {
            assert(vstd::arithmetic::power::pow(128, 0) == 1);
        } else {
            lemma_continuation_reads_back(v / 128, (octets - 1) as nat, tail);
        }
    }
}

/// An integer written as HPACK prescribes is read back, whatever follows it, as
/// long as five continuation octets hold it.
pub proof fn integers_read_back(v: nat, prefix_bits: nat, high: nat, tail: Seq<u8>)
    requires
        1 <= prefix_bits <= 8,
        high * vstd::arithmetic::power2::pow2(prefix_bits) + vstd::arithmetic::power2::pow2(
            prefix_bits,
        ) <= 256,
        v < vstd::arithmetic::power2::pow2(prefix_bits) - 1 + 0x8_0000_0000,
    ensures
        hpack::integer(encoded_integer(v, prefix_bits, high) + tail, prefix_bits) == Some(
            (v, tail),
        ),
{
    let modulus = vstd::arithmetic::power2::pow2(prefix_bits);
    vstd::arithmetic::power2::lemma_pow2_pos(prefix_bits);
    let s = encoded_integer(v, prefix_bits, high) + tail;
    let low: nat = if v < modulus - 1 {
        v
    } else {
        (modulus - 1) as nat
    };
    assert(0 <= high * modulus) by (nonlinear_arith);
    assert(s[0] == high * modulus + low);
    assert((high * modulus + low) as nat % modulus == low) by {
        vstd::arithmetic::div_mod::lemma_mod_multiples_vanish(
            high as int,
            low as int,
            modulus as int,
        );
        vstd::arithmetic::div_mod::lemma_small_mod(low, modulus);
        vstd::arithmetic::mul::lemma_mul_is_commutative(high as int, modulus as int);
    }
    if v < modulus - 1 {
        assert(s.skip(1) =~= tail);
    } else {
        let rest = (v - (modulus - 1)) as nat;
        assert(s.skip(1) =~= encoded_continuation(rest) + tail);
        assert(vstd::arithmetic::power::pow(128, 5) == 0x8_0000_0000) by {
            reveal_with_fuel(vstd::arithmetic::power::pow, 6);
        }
        lemma_continuation_reads_back(rest, MAX_CONTINUATION as nat, tail);
    }
}

/// What follows continuation octets does not matter to them.
proof fn lemma_continuation_extends(s: Seq<u8>, octets: nat, tail: Seq<u8>)
    requires
        hpack::continuation(s, octets) is Some,
    ensures
        hpack::continuation(s + tail, octets) == Some(
            (
                hpack::continuation(s, octets)->Some_0.0,
                hpack::continuation(s, octets)->Some_0.1 + tail,
            ),
        ),
    decreases octets,
{
    assert((s + tail).skip(1) =~= s.skip(1) + tail);
    if s[0] >= 128 {
        lemma_continuation_extends(s.skip(1), (octets - 1) as nat, tail);
    }
}

/// What follows an integer does not matter to it.
pub proof fn lemma_integer_extends(s: Seq<u8>, prefix_bits: nat, tail: Seq<u8>)
    requires
        hpack::integer(s, prefix_bits) is Some,
    ensures
        hpack::integer(s + tail, prefix_bits) == Some(
            (
                hpack::integer(s, prefix_bits)->Some_0.0,
                hpack::integer(s, prefix_bits)->Some_0.1 + tail,
            ),
        ),
{
    assert((s + tail).skip(1) =~= s.skip(1) + tail);
    if hpack::continuation(s.skip(1), MAX_CONTINUATION as nat) is Some {
        lemma_continuation_extends(s.skip(1), MAX_CONTINUATION as nat, tail);
    }
}

/// What follows a string literal does not matter to it.
pub proof fn lemma_string_extends(s: Seq<u8>, tail: Seq<u8>)
    requires
        hpack::string_literal(s) is Some,
    ensures
        hpack::string_literal(s + tail) == Some(
            (hpack::string_literal(s)->Some_0.0, hpack::string_literal(s)->Some_0.1 + tail),
        ),
{
    lemma_integer_extends(s, 7, tail);
    let (len, rest) = hpack::integer(s, 7)->Some_0;
    assert((rest + tail).take(len as int) =~= rest.take(len as int));
    assert((rest + tail).skip(len as int) =~= rest.skip(len as int) + tail);
}

/// What follows a representation does not matter to it.
pub proof fn lemma_representation_extends(block: Seq<u8>, tail: Seq<u8>)
    requires
        block.len() > 0,
        hpack::representation(block) is Some,
    ensures
        hpack::representation(block + tail) == Some(
            (
                hpack::representation(block)->Some_0.0,
                hpack::representation(block)->Some_0.1 + tail,
            ),
        ),
{
    let b = block[0];
    if b >= 0x80 {
        lemma_integer_extends(block, 7, tail);
    } else if 0x20 <= b < 0x40 {
        lemma_integer_extends(block, 5, tail);
    } else {
        let prefix: nat = if b >= 0x40 {
            6
        } else {
            4
        };
        lemma_integer_extends(block, prefix, tail);
        let (idx, s) = hpack::integer(block, prefix)->Some_0;
        if idx == 0 {
            lemma_string_extends(s, tail);
            lemma_string_extends(hpack::string_literal(s)->Some_0.1, tail);
        } else {
            lemma_string_extends(s, tail);
        }
    }
}

/// A block is read one representation at a time: a table size update does not
/// show, a regular header ends the walk whatever follows it, a pseudo-header adds
/// its letter, and one that was seen before spoils the order.
pub proof fn blocks_are_read_one_field_at_a_time(
    head: Seq<u8>,
    tail: Seq<u8>,
    found: Seq<char>,
)
    requires
        head.len() > 0,
        hpack::representation(head) is Some,
        hpack::representation(head)->Some_0.1.len() == 0,
    ensures
        hpack::pseudo_letters(head + tail, found) == match hpack::representation(
            head,
        )->Some_0.0 {
            None => hpack::pseudo_letters(tail, found),
            Some(Field::Regular) => Some(found),
            Some(Field::Pseudo(letter)) => if found.contains(letter) || found.len() >= MAX_PSEUDO {
                None
            } else {
                hpack::pseudo_letters(tail, found.push(letter))
            },
        },
{
    lemma_representation_extends(head, tail);
    assert(hpack::representation(head)->Some_0.1 + tail =~= tail);
}

/// Whether a character is the letter of a pseudo-header.
pub open spec fn is_pseudo_letter(c: char) -> bool {
    c == 'm' || c == 'a' || c == 's' || c == 'p'
}

/// The field of an index or a name is regular or has one of the four letters.
proof fn lemma_field_letters(block: Seq<u8>)
    ensures
        hpack::representation(block) matches Some((Some(Field::Pseudo(c)), rest))
            ==> is_pseudo_letter(c),
{
}

/// The letters found stay, and those added are distinct letters of pseudo-headers.
proof fn lemma_letters(block: Seq<u8>, found: Seq<char>)
    requires
        found.no_duplicates(),
        forall|i: int| 0 <= i < found.len() ==> is_pseudo_letter(#[trigger] found[i]),
    ensures
        hpack::pseudo_letters(block, found) matches Some(letters) ==> {
            &&& letters.no_duplicates()
            &&& forall|i: int| 0 <= i < letters.len() ==> is_pseudo_letter(#[trigger] letters[i])
        },
    decreases block.len(),
{
    if block.len() > 0 {
        hpack::lemma_representation_suffix(block);
        lemma_field_letters(block);
        match hpack::representation(block) {
            Some((None, rest)) => lemma_letters(rest, found),
            Some((Some(Field::Pseudo(letter)), rest)) => {
                if !found.contains(letter) {
                    let more = found.push(letter);
                    assert forall|i: int, j: int|
                        0 <= i < more.len() && 0 <= j < more.len() && i != j implies more[i]
                        != more[j] by {
                        if i == found.len() {
                            assert(found.contains(more[j]));
                        } else if j == found.len() {
                            assert(found.contains(more[i]));
                        }
                    }
                    lemma_letters(rest, more);
                }
            },
            _ => {},
        }
    }
}

/// Distinct letters of pseudo-headers are four at most.
pub proof fn lemma_four_letters(letters: Seq<char>)
    requires
        letters.no_duplicates(),
        forall|i: int| 0 <= i < letters.len() ==> is_pseudo_letter(#[trigger] letters[i]),
    ensures
        letters.len() <= 4,
{
    let all: Set<char> = set!['m', 'a', 's', 'p'];
    letters.unique_seq_to_set();
    assert(letters.to_set().subset_of(all));
    vstd::set_lib::lemma_len_subset(letters.to_set(), all);
    assert(all.len() <= 4);
}

/// An order that is told names at least one pseudo-header and each at most once,
/// so that it has one to four distinct letters, which the commas tell apart.
pub proof fn orders_are_of_distinct_letters(block: Seq<u8>)
    ensures
        hpack::block_order(block) matches Some(order) ==> {
            let letters = hpack::pseudo_letters(block, Seq::empty())->Some_0;
            &&& 1 <= letters.len() <= 4
            &&& letters.no_duplicates()
            &&& forall|i: int| 0 <= i < letters.len() ==> is_pseudo_letter(#[trigger] letters[i])
            &&& order == hpack::letters_text(letters)
            &&& text::split(order, ',') == letters.map_values(|c: char| seq![c])
            &&& !order.contains('|')
        },
{
    lemma_letters(block, Seq::empty());
    if hpack::block_order(block) is Some {
        let letters = hpack::pseudo_letters(block, Seq::empty())->Some_0;
        lemma_four_letters(letters);
        let parts = letters.map_values(|c: char| seq![c]);
        assert forall|i: int| 0 <= i < parts.len() implies !(#[trigger] parts[i]).contains(',')
            && !parts[i].contains('|') by {
            assert(is_pseudo_letter(letters[i]));
        }
        text::joined_parts_can_be_split(parts, ',');
        text::lemma_join_lacks(parts, ',', '|');
    }
}

/// A header that cannot be told spoils the order: an index that names no static
/// entry, a Huffman-coded name, or a pseudo-header without a letter.
pub proof fn uncertain_headers_spoil_the_order(block: Seq<u8>, found: Seq<char>)
    requires
        block.len() > 0,
        ({
            let b = block[0];
            let prefix: nat = if b >= 0x80 {
                7
            } else if b >= 0x40 {
                6
            } else {
                4
            };
            &&& b < 0x20 || 0x40 <= b
            &&& hpack::integer(block, prefix) matches Some((idx, s)) && {
                ||| idx > 61
                ||| idx == 0 && b >= 0x80
                ||| idx == 0 && (hpack::string_literal(s) matches Some((None, _)))
                ||| idx == 0 && (hpack::string_literal(s) matches Some((Some(name), _))
                    && hpack::named_field(name) is None)
            }
        }),
    ensures
        hpack::pseudo_letters(block, found) is None,
{
}

/// Padding does not show in the order.
pub proof fn padding_does_not_show(body: Seq<u8>, pad: Seq<u8>, padded: u8, plain: u8)
    requires
        pad.len() < 256,
        padded & FLAG_PADDED != 0,
        plain & FLAG_PADDED == 0,
        (padded & FLAG_PRIORITY == 0) == (plain & FLAG_PRIORITY == 0),
    ensures
        hpack::frame_order(seq![pad.len() as u8] + body + pad, padded) == hpack::frame_order(
            body,
            plain,
        ),
{
    let payload = seq![pad.len() as u8] + body + pad;
    assert(payload.subrange(1, payload.len() - payload[0]) =~= body);
}

/// Priority fields do not show in the order.
pub proof fn priority_fields_do_not_show(fields: Seq<u8>, block: Seq<u8>, flags: u8)
    requires
        fields.len() == 5,
        flags & FLAG_PADDED == 0,
        flags & FLAG_PRIORITY != 0,
    ensures
        hpack::frame_order(fields + block, flags) == hpack::block_order(block),
{
    assert((fields + block).skip(5) =~= block);
}

/// Each pseudo-header has the same letter by its static indices and by its name,
/// and every name without a leading colon is classed as the static entries of
/// regular headers are. The entries 8 to 14 are `:status`, which no request has:
/// it ends the walk by index and is not resolved by name.
pub proof fn indices_and_names_agree(idx: nat, name: Seq<char>)
    requires
        15 <= idx <= 61,
        name.len() == 0 || name[0] != ':',
    ensures
        hpack::indexed_field(1) == hpack::named_field(":authority"@),
        hpack::indexed_field(2) == hpack::named_field(":method"@),
        hpack::indexed_field(3) == hpack::named_field(":method"@),
        hpack::indexed_field(4) == hpack::named_field(":path"@),
        hpack::indexed_field(5) == hpack::named_field(":path"@),
        hpack::indexed_field(6) == hpack::named_field(":scheme"@),
        hpack::indexed_field(7) == hpack::named_field(":scheme"@),
        hpack::indexed_field(idx) == hpack::named_field(name),
{
    reveal_strlit(":authority");
    reveal_strlit(":method");
    reveal_strlit(":path");
    reveal_strlit(":scheme");
    assert(":authority"@.len() != ":method"@.len());
    assert(":scheme"@[1] != ":method"@[1]);
}

} // verus!
