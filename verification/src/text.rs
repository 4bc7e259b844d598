//! Decimal numbers, separated lists and text comparison.

use crate::wire;
use vstd::prelude::*;
use vstd::string::StringExecFns;

verus! {

/// `String::push`: appends one character to the end of the string.
pub assume_specification[ String::push ](s: &mut String, c: char)
    ensures
        final(s)@ == old(s)@.push(c),
;

/// The character of a decimal digit.
pub open spec fn digit(d: nat) -> char {
    (48 + d) as char
}

/// `n` in decimal, without leading zeros.
pub open spec fn decimal(n: nat) -> Seq<char>
    decreases n,
{
    if n < 10 {
        seq![digit(n)]
    } else {
        decimal(n / 10).push(digit(n % 10))
    }
}

/// The parts one after the other, with `sep` between neighbours.
pub open spec fn join(parts: Seq<Seq<char>>, sep: char) -> Seq<char>
    decreases parts.len(),
{
    if parts.len() == 0 {
        Seq::empty()
    } else if parts.len() == 1 {
        parts[0]
    } else {
        join(parts.drop_last(), sep).push(sep) + parts.last()
    }
}

/// What stands between the separators: `join` read backwards.
pub open spec fn split(s: Seq<char>, sep: char) -> Seq<Seq<char>>
    decreases s.len(),
{
    if s.len() == 0 {
        seq![Seq::empty()]
    } else if s.last() == sep {
        split(s.drop_last(), sep).push(Seq::empty())
    } else {
        let front = split(s.drop_last(), sep);
        front.drop_last().push(front.last().push(s.last()))
    }
}

/// The text of an optional string.
pub open spec fn opt_text(s: Option<String>) -> Option<Seq<char>> {
    match s {
        Some(s) => Some(s@),
        None => None,
    }
}

/// The texts of a list of strings.
pub open spec fn texts(parts: Seq<String>) -> Seq<Seq<char>> {
    parts.map_values(|s: String| s@)
}

/// `join` of two parts.
pub proof fn lemma_join_two(a: Seq<char>, b: Seq<char>, sep: char)
    ensures
        join(seq![a, b], sep) == a.push(sep) + b,
{
    reveal_with_fuel(join, 2);
    assert(seq![a, b].drop_last() =~= seq![a]);
}

/// `join` of four parts.
pub proof fn lemma_join_four(a: Seq<char>, b: Seq<char>, c: Seq<char>, d: Seq<char>, sep: char)
    ensures
        join(seq![a, b, c, d], sep) == ((a.push(sep) + b).push(sep) + c).push(sep) + d,
{
    reveal_with_fuel(join, 2);
    lemma_join_two(a, b, sep);
    assert(seq![a, b, c, d].drop_last() =~= seq![a, b, c]);
    assert(seq![a, b, c].drop_last() =~= seq![a, b]);
}

/// A decimal number holds digits only.
pub proof fn lemma_decimal_digits(n: nat)
    ensures
        decimal(n).len() > 0,
        forall|i: int| 0 <= i < decimal(n).len() ==> '0' <= #[trigger] decimal(n)[i] <= '9',
    decreases n,
{
    if n >= 10 {
        lemma_decimal_digits(n / 10);
    }
}

/// Different numbers differ in decimal.
pub proof fn decimals_are_distinct(m: nat, n: nat)
    requires
        decimal(m) == decimal(n),
    ensures
        m == n,
    decreases m,
{
    lemma_decimal_digits(m / 10);
    lemma_decimal_digits(n / 10);
    assert(decimal(m).last() == digit(m % 10));
    assert(decimal(n).last() == digit(n % 10));
    if m >= 10 && n >= 10 {
        assert(decimal(m).drop_last() =~= decimal(m / 10));
        assert(decimal(n).drop_last() =~= decimal(n / 10));
        decimals_are_distinct(m / 10, n / 10);
    }
}

/// What neither the parts nor the separator hold, their `join` does not.
pub proof fn lemma_join_lacks(parts: Seq<Seq<char>>, sep: char, c: char)
    requires
        c != sep,
        forall|i: int| 0 <= i < parts.len() ==> !(#[trigger] parts[i]).contains(c),
    ensures
        !join(parts, sep).contains(c),
    decreases parts.len(),
{
    if parts.len() == 1 {
        assert(!parts[0].contains(c));
    } else if parts.len() > 1 {
        let front = parts.drop_last();
        assert forall|i: int| 0 <= i < front.len() implies !(#[trigger] front[i]).contains(c) by {
            assert(!parts[i].contains(c));
        }
        lemma_join_lacks(front, sep, c);
        let a = join(front, sep);
        let b = parts.last();
        assert(!parts[parts.len() - 1].contains(c));
        assert forall|i: int| 0 <= i < (a.push(sep) + b).len() implies (a.push(sep) + b)[i]
            != c by {
            if i < a.len() {
                assert(a[i] != c);
            } else if i > a.len() {
                assert(b[i - a.len() - 1] != c);
            }
        }
    }
}

/// A text without the separator is one part.
proof fn lemma_split_one(p: Seq<char>, sep: char)
    requires
        !p.contains(sep),
    ensures
        split(p, sep) == seq![p],
    decreases p.len(),
{
    if p.len() == 0 {
        assert(p =~= Seq::empty());
    } else {
        let front = p.drop_last();
        assert(p.contains(p.last()));
        assert(!front.contains(sep)) by {
            assert forall|i: int| 0 <= i < front.len() implies front[i] != sep by {
                assert(p[i] != sep);
            }
        }
        lemma_split_one(front, sep);
        assert(front.push(p.last()) =~= p);
        assert(seq![front].drop_last().push(p) =~= seq![p]);
    }
}

/// A separator and a text without it add one part.
proof fn lemma_split_more(a: Seq<char>, p: Seq<char>, sep: char)
    requires
        !p.contains(sep),
    ensures
        split(a.push(sep) + p, sep) == split(a, sep).push(p),
    decreases p.len(),
{
    let s = a.push(sep) + p;
    if p.len() == 0 {
        assert(s.drop_last() =~= a);
        assert(p =~= Seq::empty());
    } else {
        let front = p.drop_last();
        assert(p.contains(p.last()));
        assert(!front.contains(sep)) by {
            assert forall|i: int| 0 <= i < front.len() implies front[i] != sep by {
                assert(p[i] != sep);
            }
        }
        lemma_split_more(a, front, sep);
        assert(s.drop_last() =~= a.push(sep) + front);
        assert(front.push(p.last()) =~= p);
        assert(split(a, sep).push(front).drop_last() =~= split(a, sep));
    }
}

/// Parts that were joined can be told apart again, if there is one and none holds
/// the separator.
pub proof fn joined_parts_can_be_split(parts: Seq<Seq<char>>, sep: char)
    requires
        parts.len() > 0,
        forall|i: int| 0 <= i < parts.len() ==> !(#[trigger] parts[i]).contains(sep),
    ensures
        split(join(parts, sep), sep) == parts,
    decreases parts.len(),
{
    assert(!parts[parts.len() - 1].contains(sep));
    if parts.len() == 1 {
        lemma_split_one(parts[0], sep);
        assert(seq![parts[0]] =~= parts);
    } else {
        let front = parts.drop_last();
        assert forall|i: int| 0 <= i < front.len() implies !(#[trigger] front[i]).contains(sep) by {
            assert(!parts[i].contains(sep));
        }
        joined_parts_can_be_split(front, sep);
        lemma_split_more(join(front, sep), parts.last(), sep);
        assert(front.push(parts.last()) =~= parts);
    }
}

/// A character behind the last part stands behind the whole.
proof fn lemma_join_longer(parts: Seq<Seq<char>>, c: char, sep: char)
    requires
        parts.len() > 0,
    ensures
        join(parts.drop_last().push(parts.last().push(c)), sep) == join(parts, sep).push(c),
{
    let longer = parts.drop_last().push(parts.last().push(c));
    assert(longer.drop_last() =~= parts.drop_last());
    assert(join(longer, sep) =~= join(parts, sep).push(c));
}

/// What was split can be joined again.
pub proof fn split_parts_can_be_joined(s: Seq<char>, sep: char)
    ensures
        split(s, sep).len() > 0,
        join(split(s, sep), sep) == s,
    decreases s.len(),
{
    if s.len() == 0 {
        assert(join(split(s, sep), sep) =~= s);
    } else {
        let front = split(s.drop_last(), sep);
        split_parts_can_be_joined(s.drop_last(), sep);
        assert(s.drop_last().push(s.last()) =~= s);
        if s.last() == sep {
            assert(front.push(Seq::empty()).drop_last() =~= front);
            assert(join(split(s, sep), sep) =~= s);
        } else {
            lemma_join_longer(front, s.last(), sep);
        }
    }
}

/// A decimal number reads as the number: digits without a leading zero, whose value
/// it is.
pub proof fn decimals_are_numerals(n: nat)
    ensures
        wire::is_numeral(decimal(n), n),
    decreases n,
{
    lemma_decimal_digits(n);
    if n < 10 {
        assert(decimal(n).drop_last() =~= Seq::empty());
        assert(wire::digits_value(decimal(n).drop_last()) == 0);
    } else {
        decimals_are_numerals(n / 10);
        assert(decimal(n).drop_last() =~= decimal(n / 10));
        assert(decimal(n)[0] == decimal(n / 10)[0]);
        if n / 10 < 10 {
            assert(decimal(n / 10)[0] == digit(n / 10));
        } else {
            lemma_decimal_longer(n / 10);
        }
    }
}

/// A number of two digits or more has more than one.
proof fn lemma_decimal_longer(n: nat)
    requires
        n >= 10,
    ensures
        decimal(n).len() > 1,
{
    lemma_decimal_digits(n / 10);
}

/// A numeral that does not begin with zero is not zero.
proof fn lemma_numeral_positive(s: Seq<char>, n: nat)
    requires
        wire::is_numeral(s, n),
        s[0] != '0',
    ensures
        n > 0,
    decreases s.len(),
{
    if s.len() > 1 {
        let front = s.drop_last();
        assert forall|i: int| 0 <= i < front.len() implies '0' <= #[trigger] front[i] <= '9' by {
            assert('0' <= s[i] <= '9');
        }
        lemma_numeral_positive(front, wire::digits_value(front));
    } else {
        assert(wire::digits_value(s.drop_last()) == 0);
    }
}

/// A number has one numeral.
pub proof fn numerals_are_unique(a: Seq<char>, b: Seq<char>, n: nat)
    requires
        wire::is_numeral(a, n),
        wire::is_numeral(b, n),
    ensures
        a == b,
    decreases a.len(),
{
    let x = a.drop_last();
    let y = b.drop_last();
    assert('0' <= a[a.len() - 1] <= '9' && '0' <= b[b.len() - 1] <= '9');
    assert forall|i: int| 0 <= i < x.len() implies '0' <= #[trigger] x[i] <= '9' by {
        assert('0' <= a[i] <= '9');
    }
    assert forall|i: int| 0 <= i < y.len() implies '0' <= #[trigger] y[i] <= '9' by {
        assert('0' <= b[i] <= '9');
    }
    assert(wire::digits_value(x) == n / 10 && wire::digits_value(y) == n / 10);
    assert(a.last() == b.last());
    if a.len() == 1 {
        assert(wire::digits_value(x) == 0);
        if b.len() > 1 {
            lemma_numeral_positive(y, n / 10);
        }
    } else {
        lemma_numeral_positive(x, n / 10);
        if b.len() == 1 {
            assert(wire::digits_value(y) == 0);
        } else {
            numerals_are_unique(x, y, n / 10);
        }
    }
    assert(x == y);
    assert(a =~= x.push(a.last()));
    assert(b =~= y.push(b.last()));
}

/// Nothing joins to nothing, one part to itself, and two lists to the one, a
/// separator and the other.
pub proof fn lists_are_joined_end_to_end(a: Seq<Seq<char>>, b: Seq<Seq<char>>, part: Seq<char>, sep:
    char)
    requires
        a.len() > 0,
        b.len() > 0,
    ensures
        join(Seq::empty(), sep) == Seq::<char>::empty(),
        join(seq![part], sep) == part,
        join(a + b, sep) == join(a, sep) + seq![sep] + join(b, sep),
    decreases b.len(),
{
    let whole = join(a, sep) + seq![sep] + join(b, sep);
    assert((a + b).drop_last() =~= a + b.drop_last());
    if b.len() == 1 {
        assert(a + b.drop_last() =~= a);
        assert(join(a + b, sep) =~= whole);
    } else {
        lists_are_joined_end_to_end(a, b.drop_last(), part, sep);
        assert(join(a + b, sep) =~= whole);
    }
}

/// Appends `n` in decimal.
pub fn push_decimal(out: &mut String, n: u32)
    ensures
        final(out)@ == old(out)@ + decimal(n as nat),
    decreases n,
{
    if n >= 10 {
        push_decimal(out, n / 10);
    }
    out.push((48 + (n % 10) as u8) as char);
}

/// Joins the strings with `sep` between neighbours.
pub fn join_strings(parts: &Vec<String>, sep: char) -> (out: String)
    ensures
        out@ == join(texts(parts@), sep),
{
    let mut out = String::new();
    let mut i: usize = 0;
    while i < parts.len()
        invariant
            i <= parts.len(),
            out@ == join(texts(parts@).take(i as int), sep),
        decreases parts.len() - i,
    {
        if i > 0 {
            out.push(sep);
        }
        out.append(parts[i].as_str());
        proof {
            let next = texts(parts@).take(i + 1);
            assert(next.drop_last() =~= texts(parts@).take(i as int));
            assert(next.last() == parts@[i as int]@);
        }
        i += 1;
    }
    assert(texts(parts@).take(i as int) =~= texts(parts@));
    out
}

/// Whether two strings are the same text.
pub fn same_text(a: &str, b: &str) -> (same: bool)
    ensures
        same == (a@ == b@),
{
    let x = a.as_bytes();
    let y = b.as_bytes();
    proof {
        vstd::utf8::encode_utf8_decode_utf8(a@);
        vstd::utf8::encode_utf8_decode_utf8(b@);
    }
    if x.len() != y.len() {
        return false;
    }
    let mut i: usize = 0;
    while i < x.len()
        invariant
            i <= x@.len(),
            x@.len() == y@.len(),
            x@ == vstd::utf8::encode_utf8(a@),
            y@ == vstd::utf8::encode_utf8(b@),
            forall|j: int| 0 <= j < i ==> x@[j] == y@[j],
        decreases x@.len() - i,
    {
        if x[i] != y[i] {
            return false;
        }
        i += 1;
    }
    assert(x@ =~= y@);
    true
}

} // verus!
