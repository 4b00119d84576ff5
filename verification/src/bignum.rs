//! Big unsigned integers, as the library sees them.
//!
//! The arithmetic is the work of the `num-bigint` crate, and the conversion
//! between big integers and digests that of `twenty-first`. The library
//! knows a big integer by its digits to the base `2^32`.

use crate::difficulty::limbs_value;
use crate::digest::{digest_less, is_canonical, Digest, BFIELD_MODULUS};
use num_bigint::BigUint;
use twenty_first::prelude::BFieldElement;
use vstd::prelude::*;

verus! {

/// A big unsigned integer of `num-bigint`.
#[verifier::external_type_specification]
#[verifier::external_body]
pub struct ExBigUint(BigUint);

/// The digits of a big integer to the base `2^32`, least significant first,
/// without a zero at the end: what `to_u32_digits` returns.
pub uninterp spec fn biguint_digits(b: BigUint) -> Seq<u32>;

/// The number that a big integer stands for.
pub open spec fn biguint_value(b: BigUint) -> nat {
    limbs_value(biguint_digits(b), biguint_digits(b).len())
}

/// The square of the modulus of the field.
pub open spec fn modulus_pow2() -> nat {
    (BFIELD_MODULUS as nat) * (BFIELD_MODULUS as nat)
}

/// One more than the greatest number that a digest stands for: the fifth
/// power of the modulus of the field.
pub open spec fn digest_bound() -> nat {
    modulus_pow2() * modulus_pow2() * (BFIELD_MODULUS as nat)
}

/// The number that a digest stands for: its elements are the digits to the
/// base of the modulus of the field, least significant first.
pub open spec fn digest_value(s: Seq<u64>) -> nat {
    (s[0] as nat) + (s[1] as nat) * (BFIELD_MODULUS as nat) + (s[2] as nat) * modulus_pow2() + (
    s[3] as nat) * (modulus_pow2() * (BFIELD_MODULUS as nat)) + (s[4] as nat) * (modulus_pow2()
        * modulus_pow2())
}

/// One more of a weight.
proof fn lemma_weight_step(x: nat, y: nat, w: nat)
    requires
        x < y,
    ensures
        x * w + w <= y * w,
{
    assert(x * w + w <= y * w) by (nonlinear_arith)
        requires
            x + 1 <= y,
    ;
}

/// The elements of a digest below each place stand for less than the weight
/// of the place.
proof fn lemma_digest_low(s: Seq<u64>)
    requires
        is_canonical(s),
    ensures
        (s[0] as nat) < BFIELD_MODULUS,
        (s[0] as nat) + (s[1] as nat) * (BFIELD_MODULUS as nat) < modulus_pow2(),
        (s[0] as nat) + (s[1] as nat) * (BFIELD_MODULUS as nat) + (s[2] as nat) * modulus_pow2()
            < modulus_pow2() * (BFIELD_MODULUS as nat),
        (s[0] as nat) + (s[1] as nat) * (BFIELD_MODULUS as nat) + (s[2] as nat) * modulus_pow2() + (
        s[3] as nat) * (modulus_pow2() * (BFIELD_MODULUS as nat)) < modulus_pow2()
            * modulus_pow2(),
{
    let p = BFIELD_MODULUS as nat;
    let q = modulus_pow2();
    lemma_weight_step(s[1] as nat, p, p);
    lemma_weight_step(s[2] as nat, p, q);
    lemma_weight_step(s[3] as nat, p, q * p);
    assert(p * q == q * p) by (nonlinear_arith);
    assert(p * (q * p) == q * q) by (nonlinear_arith)
        requires
            q == p * p,
    ;
}

/// Where two digests agree above place `k` and differ there, place `k`
/// decides how the numbers compare that they stand for.
proof fn lemma_digest_less_at(a: Seq<u64>, b: Seq<u64>, k: int)
    requires
        is_canonical(a),
        is_canonical(b),
        0 <= k < 5,
        a[k] < b[k],
        forall|j: int| k < j < 5 ==> a[j] == b[j],
    ensures
        digest_value(a) < digest_value(b),
{
    let p = BFIELD_MODULUS as nat;
    let q = modulus_pow2();
    lemma_digest_low(a);
    lemma_digest_low(b);
    if k == 0 {
    } else if k == 1 {
        lemma_weight_step(a[1] as nat, b[1] as nat, p);
    } else if k == 2 {
        lemma_weight_step(a[2] as nat, b[2] as nat, q);
    } else if k == 3 {
        lemma_weight_step(a[3] as nat, b[3] as nat, q * p);
    } else {
        lemma_weight_step(a[4] as nat, b[4] as nat, q * q);
    }
}

/// Digests are ordered as the numbers that they stand for, and a digest is
/// known by its number.
pub proof fn law_digest_order_is_numeric(a: Seq<u64>, b: Seq<u64>)
    requires
        is_canonical(a),
        is_canonical(b),
    ensures
        digest_less(a, b) <==> digest_value(a) < digest_value(b),
        a == b <==> digest_value(a) == digest_value(b),
{
    if digest_less(a, b) {
        let k = choose|k: int|
            0 <= k < 5 && #[trigger] a[k] < b[k] && forall|j: int| k < j < 5 ==> a[j] == b[j];
        lemma_digest_less_at(a, b, k);
    } else if digest_less(b, a) {
        let k = choose|k: int|
            0 <= k < 5 && #[trigger] b[k] < a[k] && forall|j: int| k < j < 5 ==> b[j] == a[j];
        lemma_digest_less_at(b, a, k);
    } else {
        // neither comes first: they agree at every place, from the last down
        assert(a[4] == b[4]) by {
            if a[4] < b[4] {
                assert(0 <= 4 < 5 && a[4] < b[4]);
            } else if b[4] < a[4] {
                assert(0 <= 4 < 5 && b[4] < a[4]);
            }
        }
        assert(a[3] == b[3]) by {
            if a[3] < b[3] {
                assert(0 <= 3 < 5 && a[3] < b[3]);
            } else if b[3] < a[3] {
                assert(0 <= 3 < 5 && b[3] < a[3]);
            }
        }
        assert(a[2] == b[2]) by {
            if a[2] < b[2] {
                assert(0 <= 2 < 5 && a[2] < b[2]);
            } else if b[2] < a[2] {
                assert(0 <= 2 < 5 && b[2] < a[2]);
            }
        }
        assert(a[1] == b[1]) by {
            if a[1] < b[1] {
                assert(0 <= 1 < 5 && a[1] < b[1]);
            } else if b[1] < a[1] {
                assert(0 <= 1 < 5 && b[1] < a[1]);
            }
        }
        assert(a[0] == b[0]) by {
            if a[0] < b[0] {
                assert(0 <= 0 < 5 && a[0] < b[0]);
            } else if b[0] < a[0] {
                assert(0 <= 0 < 5 && b[0] < a[0]);
            }
        }
        assert(a =~= b);
    }
}

/// Calls `BigUint::new` of `num-bigint`, which takes the digits to the base
/// `2^32`, least significant first.
#[verifier::external_body]
pub(crate) fn biguint_new(digits: Vec<u32>) -> (b: BigUint)
    ensures
        biguint_value(b) == limbs_value(digits@, digits@.len()),
{
    BigUint::new(digits)
}

/// Calls `BigUint::to_u32_digits` of `num-bigint`, which returns the digits
/// to the base `2^32`, least significant first. As the source shows, the
/// last digit is not zero.
#[verifier::external_body]
pub(crate) fn biguint_to_u32_digits(b: &BigUint) -> (digits: Vec<u32>)
    ensures
        digits@ == biguint_digits(*b),
        digits@.len() > 0 ==> digits@.last() != 0,
{
    b.to_u32_digits()
}

/// Calls the division of `num-bigint` on two big integers. It panics where
/// the divisor is zero, which the contract rules out, and returns the
/// quotient without the remainder.
#[verifier::external_body]
pub(crate) fn biguint_div(a: &BigUint, b: &BigUint) -> (q: BigUint)
    requires
        biguint_value(*b) > 0,
    ensures
        biguint_value(q) == biguint_value(*a) / biguint_value(*b),
{
    a / b
}

/// Calls the conversion of `twenty-first` from a digest to a big integer,
/// which reads the elements as digits to the base of the modulus.
#[verifier::external_body]
pub(crate) fn digest_to_biguint(d: &Digest) -> (b: BigUint)
    ensures
        biguint_value(b) == digest_value(d@),
{
    BigUint::from(twenty_first::prelude::Digest(d.values().map(BFieldElement::new)))
}

/// Calls the conversion of `twenty-first` from a big integer to a digest,
/// which writes the number in digits to the base of the modulus, and fails
/// where five digits do not suffice.
#[verifier::external_body]
pub(crate) fn digest_from_biguint(b: &BigUint) -> (d: Option<Digest>)
    ensures
        d is Some <==> biguint_value(*b) < digest_bound(),
        d matches Some(digest) ==> digest_value(digest@) == biguint_value(*b) && is_canonical(
            digest@,
        ),
{
    match twenty_first::prelude::Digest::try_from(b.clone()) {
        Ok(digest) => Some(Digest::new(digest.values().map(|e| e.value()))),
        Err(_) => None,
    }
}

/// The character of a decimal digit.
pub open spec fn digit_char(d: nat) -> char {
    if d == 0 {
        '0'
    } else if d == 1 {
        '1'
    } else if d == 2 {
        '2'
    } else if d == 3 {
        '3'
    } else if d == 4 {
        '4'
    } else if d == 5 {
        '5'
    } else if d == 6 {
        '6'
    } else if d == 7 {
        '7'
    } else if d == 8 {
        '8'
    } else {
        '9'
    }
}

/// The number `n` in decimal digits, the most significant first, without
/// leading zeros; zero is the one digit `0`.
pub open spec fn decimal(n: nat) -> Seq<char>
    decreases n,
{
    if n < 10 {
        seq![digit_char(n)]
    } else {
        decimal(n / 10).push(digit_char(n % 10))
    }
}

/// Calls `to_string` on a big integer of `num-bigint`, which writes the
/// number in decimal digits, the most significant first, without leading
/// zeros.
#[verifier::external_body]
pub(crate) fn biguint_to_string(b: &BigUint) -> (s: String)
    ensures
        s@ == decimal(biguint_value(*b)),
{
    b.to_string()
}

} // verus!
