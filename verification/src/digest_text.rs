//! The textual form of a digest: its elements in decimal digits, separated
//! by commas.

use crate::digest::{is_canonical, Digest, BFIELD_MODULUS};
use vstd::prelude::*;

verus! {

/// The byte of a comma.
pub const COMMA: u8 = 44;

/// The byte of the digit zero.
pub const ZERO: u8 = 48;

/// Whether the byte is a decimal digit.
pub open spec fn is_digit(b: u8) -> bool {
    ZERO <= b <= ZERO + 9
}

/// Whether the bytes are decimal digits, at least one.
pub open spec fn is_number(s: Seq<u8>) -> bool {
    s.len() > 0 && forall|i: int| 0 <= i < s.len() ==> is_digit(#[trigger] s[i])
}

/// The number that the decimal digits `s` stand for, the most significant
/// first.
pub open spec fn number_of(s: Seq<u8>) -> nat
    decreases s.len(),
{
    if s.len() == 0 {
        0
    } else {
        number_of(s.drop_last()) * 10 + (s.last() - ZERO) as nat
    }
}

/// The number `n` in decimal digits, the most significant first, without
/// leading zeros; zero is the one digit `0`.
pub open spec fn decimal_bytes(n: nat) -> Seq<u8>
    decreases n,
{
    if n < 10 {
        seq![(ZERO + n) as u8]
    } else {
        decimal_bytes(n / 10).push((ZERO + n % 10) as u8)
    }
}

/// The number of bytes before the first comma of `s`, or the length of `s`
/// where it has no comma.
pub open spec fn field_len(s: Seq<u8>) -> nat
    decreases s.len(),
{
    if s.len() == 0 || s[0] == COMMA {
        0
    } else {
        1 + field_len(s.skip(1))
    }
}

/// The fields of `s`: what stands between its commas, before the first and
/// behind the last. A text without a comma is one field.
pub open spec fn fields(s: Seq<u8>) -> Seq<Seq<u8>>
    decreases s.len(),
{
    let n = field_len(s);
    if n >= s.len() {
        seq![s]
    } else {
        seq![s.take(n as int)] + fields(s.skip(n + 1 as int))
    }
}

/// The numbers that a text stands for: those of its fields, where each
/// field is a number that a `u64` can hold.
pub open spec fn numbers_of(text: Seq<u8>) -> Option<Seq<u64>> {
    let f = fields(text);
    if forall|i: int| 0 <= i < f.len() ==> is_number(#[trigger] f[i]) && number_of(f[i]) <= u64::MAX {
        Some(Seq::new(f.len(), |i: int| number_of(f[i]) as u64))
    } else {
        None
    }
}

/// The text of the numbers `values`: each in decimal digits, with a comma
/// between one and the next.
pub open spec fn text_of(values: Seq<u64>) -> Seq<u8>
    decreases values.len(),
{
    if values.len() == 0 {
        Seq::empty()
    } else if values.len() == 1 {
        decimal_bytes(values[0] as nat)
    } else {
        text_of(values.drop_last()) + seq![COMMA] + decimal_bytes(values.last() as nat)
    }
}

/// Where the first `m` bytes of `s` hold no comma, the first field of `s`
/// is at least as long; it is just as long where `s` ends there or goes on
/// with a comma.
pub proof fn lemma_field_len(s: Seq<u8>, m: nat)
    requires
        m <= s.len(),
        forall|i: int| 0 <= i < m ==> s[i] != COMMA,
    ensures
        field_len(s) >= m,
        field_len(s) <= s.len(),
        m == s.len() || s[m as int] == COMMA ==> field_len(s) == m,
    decreases s.len(),
{
    if s.len() > 0 && s[0] != COMMA {
        let t = s.skip(1);
        if m > 0 {
            assert forall|i: int| 0 <= i < m - 1 implies t[i] != COMMA by {
                assert(t[i] == s[i + 1]);
            }
            lemma_field_len(t, (m - 1) as nat);
            if m < s.len() {
                assert(t[m - 1] == s[m as int]);
            }
        } else {
            lemma_field_len(t, 0);
        }
    }
}

/// A digit more makes ten times the number, and the digit.
pub proof fn lemma_number_push(s: Seq<u8>, b: u8)
    ensures
        number_of(s.push(b)) == number_of(s) * 10 + (b - ZERO) as nat,
{
    assert(s.push(b).drop_last() =~= s);
}

/// The digits at the start of a number stand for a number that is not
/// greater.
pub proof fn lemma_number_prefix(s: Seq<u8>, m: nat)
    requires
        m <= s.len(),
        forall|i: int| 0 <= i < s.len() ==> is_digit(#[trigger] s[i]),
    ensures
        number_of(s.take(m as int)) <= number_of(s),
    decreases s.len(),
{
    if m < s.len() {
        let t = s.drop_last();
        lemma_number_prefix(t, m);
        assert(t.take(m as int) =~= s.take(m as int));
        assert(is_digit(s[s.len() - 1]));
    } else {
        assert(s.take(m as int) =~= s);
    }
}

/// The decimal digits of a number are digits, and stand for the number.
pub proof fn lemma_decimal_bytes(n: nat)
    ensures
        is_number(decimal_bytes(n)),
        number_of(decimal_bytes(n)) == n,
        forall|i: int| 0 <= i < decimal_bytes(n).len() ==> decimal_bytes(n)[i] != COMMA,
    decreases n,
{
    if n < 10 {
        let s = seq![(ZERO + n) as u8];
        assert(s.drop_last() =~= Seq::<u8>::empty());
        assert(number_of(s.drop_last()) == 0);
    } else {
        lemma_decimal_bytes(n / 10);
        lemma_number_push(decimal_bytes(n / 10), (ZERO + n % 10) as u8);
    }
}

/// A text without a comma is one field; and before a comma it is the first
/// field, the others being those of what follows the comma.
pub proof fn lemma_fields(first: Seq<u8>, rest: Seq<u8>)
    requires
        forall|i: int| 0 <= i < first.len() ==> first[i] != COMMA,
    ensures
        fields(first) == seq![first],
        fields(first + seq![COMMA] + rest) == seq![first] + fields(rest),
{
    lemma_field_len(first, first.len());
    let s = first + seq![COMMA] + rest;
    assert forall|i: int| 0 <= i < first.len() implies s[i] != COMMA by {
        assert(s[i] == first[i]);
    }
    assert(s[first.len() as int] == COMMA);
    lemma_field_len(s, first.len());
    assert(s.take(first.len() as int) =~= first);
    assert(s.skip(first.len() + 1 as int) =~= rest);
}

/// The first field of a text holds no comma, and a comma follows it unless
/// the text ends with it.
pub proof fn lemma_first_field(s: Seq<u8>)
    ensures
        field_len(s) <= s.len(),
        forall|i: int| 0 <= i < field_len(s) ==> s[i] != COMMA,
        field_len(s) < s.len() ==> s[field_len(s) as int] == COMMA,
    decreases s.len(),
{
    if s.len() > 0 && s[0] != COMMA {
        let t = s.skip(1);
        lemma_first_field(t);
        assert forall|i: int| 0 <= i < field_len(s) implies s[i] != COMMA by {
            if i > 0 {
                assert(s[i] == t[i - 1]);
            }
        }
        if field_len(s) < s.len() {
            assert(s[field_len(s) as int] == t[field_len(t) as int]);
        }
    }
}

/// The fields of two texts with a comma between them are the fields of the
/// one and then those of the other.
pub proof fn lemma_fields_concat(a: Seq<u8>, b: Seq<u8>)
    ensures
        fields(a + seq![COMMA] + b) == fields(a) + fields(b),
    decreases a.len(),
{
    lemma_first_field(a);
    let n = field_len(a);
    if n >= a.len() {
        lemma_fields(a, b);
    } else {
        let first = a.take(n as int);
        let rest = a.skip(n + 1 as int);
        assert(a =~= first + seq![COMMA] + rest);
        assert(a + seq![COMMA] + b =~= first + seq![COMMA] + (rest + seq![COMMA] + b));
        lemma_fields(first, rest + seq![COMMA] + b);
        lemma_fields_concat(rest, b);
        assert(seq![first] + (fields(rest) + fields(b)) =~= (seq![first] + fields(rest)) + fields(
            b,
        ));
    }
}

/// The text of numbers stands for these numbers.
pub proof fn law_text_round_trip(values: Seq<u64>)
    requires
        values.len() > 0,
    ensures
        fields(text_of(values)).len() == values.len(),
        numbers_of(text_of(values)) == Some(values),
    decreases values.len(),
{
    let last = decimal_bytes(values.last() as nat);
    lemma_decimal_bytes(values.last() as nat);
    lemma_fields(last, Seq::empty());
    if values.len() == 1 {
        assert(numbers_of(text_of(values))->0 =~= values);
    } else {
        let others = values.drop_last();
        law_text_round_trip(others);
        lemma_fields_concat(text_of(others), last);
        let f = fields(text_of(values));
        let g = fields(text_of(others));
        assert(f =~= g.push(last));
        assert forall|i: int| 0 <= i < f.len() implies is_number(#[trigger] f[i]) && number_of(f[i])
            <= u64::MAX && number_of(f[i]) as u64 == values[i] by {
            if i < g.len() {
                assert(f[i] == g[i]);
                assert(numbers_of(text_of(others))->0[i] == others[i]);
            }
        }
        assert(numbers_of(text_of(values))->0 =~= values);
    }
}

/// Append the decimal digits of `value` to `out`.
pub fn push_decimal(out: &mut Vec<u8>, value: u64)
    ensures
        final(out)@ == old(out)@ + decimal_bytes(value as nat),
{
    let mut digits: Vec<u8> = Vec::new();
    let mut n: u64 = value;
    while n >= 10
        invariant
            decimal_bytes(value as nat) == decimal_bytes(n as nat) + digits@.reverse(),
        decreases n,
    {
        let digit: u8 = ZERO + (n % 10) as u8;
        let ghost before = digits@;
        digits.push(digit);
        proof {
            assert(digits@.reverse() =~= seq![digit] + before.reverse());
            assert(decimal_bytes(n as nat) == decimal_bytes((n / 10) as nat).push(digit));
            assert(decimal_bytes((n / 10) as nat).push(digit) + before.reverse()
                =~= decimal_bytes((n / 10) as nat) + (seq![digit] + before.reverse()));
        }
        n = n / 10;
    }
    let ghost start = out@;
    out.push(ZERO + n as u8);
    let mut i: usize = digits.len();
    while i > 0
        invariant
            0 <= i <= digits@.len(),
            out@ == start + decimal_bytes(n as nat) + digits@.reverse().take(digits@.len() - i),
            n < 10,
        decreases i,
    {
        i = i - 1;
        out.push(digits[i]);
        proof {
            let r = digits@.reverse();
            assert(r.take(digits@.len() - i) =~= r.take(digits@.len() - i - 1).push(
                digits@[i as int],
            ));
        }
    }
    proof {
        assert(digits@.reverse().take(digits@.len() as int) =~= digits@.reverse());
        assert(start + decimal_bytes(n as nat) + digits@.reverse() =~= start + (decimal_bytes(
            n as nat,
        ) + digits@.reverse()));
    }
}

/// The text of the numbers `values`: each in decimal digits, with a comma
/// between one and the next.
pub fn write_numbers(values: &Vec<u64>) -> (text: Vec<u8>)
    ensures
        text@ == text_of(values@),
{
    let mut text: Vec<u8> = Vec::new();
    let mut i: usize = 0;
    proof {
        assert(values@.take(0) =~= Seq::<u64>::empty());
    }
    while i < values.len()
        invariant
            0 <= i <= values@.len(),
            text@ == text_of(values@.take(i as int)),
        decreases values@.len() - i,
    {
        if i > 0 {
            text.push(COMMA);
        }
        push_decimal(&mut text, values[i]);
        proof {
            let here = values@.take(i + 1);
            assert(here.drop_last() =~= values@.take(i as int));
            assert(here.last() == values@[i as int]);
            if i == 0 {
                assert(text@ =~= decimal_bytes(values@[0] as nat));
            }
        }
        i += 1;
    }
    proof {
        assert(values@.take(i as int) =~= values@);
    }
    text
}

/// The numbers that a text stands for: it is read as decimal numbers
/// separated by commas. There are none where a field is empty or holds
/// anything but digits, or a number is too great for a `u64`.
pub fn parse_numbers(text: &[u8]) -> (r: Option<Vec<u64>>)
    ensures
        match r {
            Some(v) => numbers_of(text@) == Some(v@),
            None => numbers_of(text@) is None,
        },
{
    let mut values: Vec<u64> = Vec::new();
    let mut pos: usize = 0;
    let ghost mut done: Seq<Seq<u8>> = Seq::empty();
    proof {
        assert(text@.skip(0) =~= text@);
        assert(done + fields(text@) =~= fields(text@));
    }
    loop
        invariant
            0 <= pos <= text@.len(),
            fields(text@) == done + fields(text@.skip(pos as int)),
            values@.len() == done.len(),
            forall|i: int|
                0 <= i < done.len() ==> is_number(#[trigger] done[i]) && number_of(done[i])
                    == values@[i],
        decreases text@.len() - pos,
    {
        let ghost tail = text@.skip(pos as int);
        let start = pos;
        let mut acc: u64 = 0;
        let mut j: usize = pos;
        proof {
            assert(text@.subrange(start as int, j as int) =~= Seq::<u8>::empty());
        }
        while j < text.len() && text[j] != COMMA
            invariant
                start <= j <= text@.len(),
                tail == text@.skip(start as int),
                fields(text@) == done + fields(tail),
                forall|i: int| start <= i < j ==> is_digit(#[trigger] text@[i]),
                acc == number_of(text@.subrange(start as int, j as int)),
            decreases text@.len() - j,
        {
            let b = text[j];
            proof {
                assert forall|i: int| 0 <= i < j + 1 - start implies tail[i] != COMMA by {
                    assert(tail[i] == text@[start + i]);
                    if start + i < j {
                        assert(is_digit(text@[start + i]));
                    }
                }
                lemma_field_len(tail, (j + 1 - start) as nat);
                // the field that the byte lies in
                let field = fields(tail)[0];
                assert(fields(text@)[done.len() as int] == field);
                assert(field.len() > j - start);
                assert(field[j - start] == b);
                assert(field.take(j + 1 - start) =~= text@.subrange(start as int, j + 1));
                assert(text@.subrange(start as int, j + 1) =~= text@.subrange(
                    start as int,
                    j as int,
                ).push(b));
                lemma_number_push(text@.subrange(start as int, j as int), b);
                if is_number(field) {
                    lemma_number_prefix(field, (j + 1 - start) as nat);
                }
            }
            if b < ZERO || b > ZERO + 9 {
                return None;
            }
            let digit: u64 = (b - ZERO) as u64;
            if acc > (u64::MAX - digit) / 10 {
                proof {
                    assert(acc * 10 + digit > u64::MAX);
                }
                return None;
            }
            acc = acc * 10 + digit;
            j += 1;
        }
        proof {
            assert forall|i: int| 0 <= i < j - start implies tail[i] != COMMA by {
                assert(tail[i] == text@[start + i]);
                assert(is_digit(text@[start + i]));
            }
            if j < text@.len() {
                assert(tail[j - start] == text@[j as int]);
            }
            lemma_field_len(tail, (j - start) as nat);
            assert(tail.take(j - start) =~= text@.subrange(start as int, j as int));
            assert(fields(text@)[done.len() as int] == fields(tail)[0]);
        }
        if j == start {
            proof {
                assert(fields(tail)[0].len() == 0);
            }
            return None;
        }
        let ghost field = text@.subrange(start as int, j as int);
        proof {
            assert forall|i: int| 0 <= i < field.len() implies is_digit(#[trigger] field[i]) by {
                assert(field[i] == text@[start + i]);
            }
        }
        values.push(acc);
        if j == text.len() {
            proof {
                assert(tail =~= field);
                assert(fields(text@) =~= done.push(field));
                assert(numbers_of(text@)->0 =~= values@);
            }
            return Some(values);
        }
        proof {
            assert(tail.skip(j - start + 1) =~= text@.skip(j + 1));
            assert(done + (seq![field] + fields(text@.skip(j + 1))) =~= done.push(field) + fields(
                text@.skip(j + 1),
            ));
            done = done.push(field);
        }
        pos = j + 1;
    }
}

impl Digest {
    /// The digest as text: its five elements in decimal digits, separated by
    /// commas.
    pub fn to_text(&self) -> (text: Vec<u8>)
        ensures
            text@ == text_of(self@),
    {
        write_numbers(&self.to_vec())
    }

    /// The digest that a text stands for: five numbers in decimal digits,
    /// separated by commas, each reduced to its canonical representative.
    /// There is none where the text is not of that form.
    pub fn from_text(text: &[u8]) -> (r: Option<Digest>)
        ensures
            r is Some <==> (numbers_of(text@) matches Some(v) && v.len() == 5),
            r matches Some(d) ==> forall|i: int|
                0 <= i < 5 ==> d@[i] == numbers_of(text@)->0[i] % BFIELD_MODULUS,
    {
        match parse_numbers(text) {
            Some(values) => Digest::from_vec(&values),
            None => None,
        }
    }
}

/// A digest is read back from its text.
pub proof fn law_digest_text_round_trip(d: Seq<u64>)
    requires
        is_canonical(d),
    ensures
        numbers_of(text_of(d)) == Some(d),
        forall|i: int| 0 <= i < 5 ==> d[i] % BFIELD_MODULUS == d[i],
{
    law_text_round_trip(d);
}

} // verus!
