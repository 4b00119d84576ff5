//! Multi-limb difficulty arithmetic and the difficulty controller.
//!
//! A [`Difficulty`] is an unsigned 160-bit integer held in five little-endian
//! 32-bit limbs; a [`ProofOfWork`] is an unsigned 192-bit integer held in six.
//! All contracts speak of the natural number that the limbs stand for.

use crate::bignum::{
    biguint_div, biguint_new, biguint_to_string, biguint_to_u32_digits,
    biguint_value, decimal, digest_bound, digest_from_biguint, digest_to_biguint, digest_value,
};
use crate::block_height::BlockHeight;
use crate::digest::{Digest, BFIELD_MODULUS};
use num_bigint::BigUint;
use crate::timestamp::Timestamp;
use vstd::arithmetic::div_mod::*;
use vstd::arithmetic::mul::*;
use std::cmp::Ordering;
use vstd::prelude::*;

verus! {

/// Number of 32-bit limbs of a [`Difficulty`].
pub const DIFFICULTY_NUM_LIMBS: usize = 5;

/// Number of 32-bit limbs of a [`ProofOfWork`].
pub const POW_NUM_LIMBS: usize = 6;

/// The block interval, in milliseconds, that the controller steers towards
/// when the caller names none.
pub const TARGET_BLOCK_INTERVAL: u64 = 588000;

/// The least limb of the minimum difficulty.
pub const MINIMUM_DIFFICULTY: u32 = 1000;

/// `2^(32 k)`: the weight of limb `k`.
pub open spec fn pow32(k: nat) -> nat
    decreases k,
{
    if k == 0 {
        1
    } else {
        0x1_0000_0000 * pow32((k - 1) as nat)
    }
}

/// The number that the first `n` little-endian limbs of `l` stand for.
pub open spec fn limbs_value(l: Seq<u32>, n: nat) -> nat
    decreases n,
{
    if n == 0 {
        0
    } else {
        limbs_value(l, (n - 1) as nat) + (l[n - 1] as nat) * pow32((n - 1) as nat)
    }
}

/// `2^160`: one more than the greatest difficulty.
pub open spec fn difficulty_bound() -> nat {
    0x1_0000_0000_0000_0000_0000_0000_0000_0000_0000_0000nat
}

/// `2^192`: one more than the greatest amount of proof-of-work.
pub open spec fn pow_bound() -> nat {
    0x1_0000_0000_0000_0000_0000_0000_0000_0000_0000_0000_0000_0000nat
}

/// The product of `d` and the fixed-point rational `(lo + hi * 2^32) / 2^32`,
/// without its fractional word.
pub open spec fn mul_fixed_point(d: nat, lo: u32, hi: u32) -> nat {
    (d * (lo as nat + (hi as nat) * 0x1_0000_0000)) / 0x1_0000_0000
}

pub proof fn lemma_pow32_values()
    ensures
        pow32(0) == 1,
        pow32(1) == 0x1_0000_0000,
        pow32(2) == 0x1_0000_0000_0000_0000,
        pow32(3) == 0x1_0000_0000_0000_0000_0000_0000,
        pow32(4) == 0x1_0000_0000_0000_0000_0000_0000_0000_0000nat,
        pow32(5) == difficulty_bound(),
        pow32(6) == pow_bound(),
{
    reveal_with_fuel(pow32, 7);
}

/// The value of five limbs, written out.
pub proof fn lemma_value5(l: Seq<u32>)
    ensures
        limbs_value(l, 5) == (l[0] as nat) + (l[1] as nat) * 0x1_0000_0000 + (l[2] as nat)
            * 0x1_0000_0000_0000_0000 + (l[3] as nat) * 0x1_0000_0000_0000_0000_0000_0000 + (
        l[4] as nat) * 0x1_0000_0000_0000_0000_0000_0000_0000_0000nat,
        limbs_value(l, 5) < difficulty_bound(),
{
    reveal_with_fuel(limbs_value, 6);
    lemma_pow32_values();
}

/// The value of six limbs, written out.
pub proof fn lemma_value6(l: Seq<u32>)
    ensures
        limbs_value(l, 6) == limbs_value(l, 5) + (l[5] as nat) * difficulty_bound(),
        limbs_value(l, 6) < pow_bound(),
{
    reveal_with_fuel(limbs_value, 7);
    lemma_pow32_values();
    lemma_value5(l);
}

/// Writing limb `k` changes the value by the difference of the limbs times
/// the limb's weight, and only where `k` lies among the first `n` limbs.
pub proof fn lemma_value_update(l: Seq<u32>, k: int, v: u32, n: nat)
    requires
        0 <= k < l.len(),
        n <= l.len(),
    ensures
        limbs_value(l.update(k, v), n) == if k < n {
            limbs_value(l, n) + (v as int) * pow32(k as nat) - (l[k] as int) * pow32(k as nat)
        } else {
            limbs_value(l, n) as int
        },
    decreases n,
{
    if n > 0 {
        lemma_value_update(l, k, v, (n - 1) as nat);
    }
}

/// Two limb sequences that agree on their first `n` limbs have the same value
/// there.
pub proof fn lemma_value_agree(a: Seq<u32>, b: Seq<u32>, n: nat)
    requires
        n <= a.len(),
        n <= b.len(),
        forall|i: int| 0 <= i < n ==> a[i] == b[i],
    ensures
        limbs_value(a, n) == limbs_value(b, n),
    decreases n,
{
    if n > 0 {
        lemma_value_agree(a, b, (n - 1) as nat);
    }
}

/// The first `n` limbs are determined by their value.
pub proof fn lemma_value_injective(a: Seq<u32>, b: Seq<u32>, n: nat)
    requires
        n <= a.len(),
        n <= b.len(),
        limbs_value(a, n) == limbs_value(b, n),
    ensures
        forall|i: int| 0 <= i < n ==> a[i] == b[i],
    decreases n,
{
    if n > 0 {
        let m = (n - 1) as nat;
        let w = pow32(m);
        lemma_limbs_bound(a, m);
        lemma_limbs_bound(b, m);
        let x = limbs_value(a, n) as int;
        assert(x == (a[n - 1] as int) * (w as int) + limbs_value(a, m)) by (nonlinear_arith)
            requires
                x == limbs_value(a, m) + (a[n - 1] as nat) * w,
        ;
        assert(x == (b[n - 1] as int) * (w as int) + limbs_value(b, m)) by (nonlinear_arith)
            requires
                x == limbs_value(b, m) + (b[n - 1] as nat) * w,
        ;
        lemma_fundamental_div_mod_converse(x, w as int, a[n - 1] as int, limbs_value(a, m) as int);
        lemma_fundamental_div_mod_converse(x, w as int, b[n - 1] as int, limbs_value(b, m) as int);
        lemma_value_injective(a, b, m);
    }
}

/// Five limbs are determined by their value.
pub proof fn lemma_value5_injective(a: Seq<u32>, b: Seq<u32>)
    requires
        a.len() == 5,
        b.len() == 5,
        limbs_value(a, 5) == limbs_value(b, 5),
    ensures
        a =~= b,
{
    lemma_value_injective(a, b, 5);
}

/// Six limbs are determined by their value.
pub proof fn lemma_value6_injective(a: Seq<u32>, b: Seq<u32>)
    requires
        a.len() == 6,
        b.len() == 6,
        limbs_value(a, 6) == limbs_value(b, 6),
    ensures
        a =~= b,
{
    lemma_value_injective(a, b, 6);
}

/// The first `n` limbs stand for a number below `2^(32 n)`.
pub proof fn lemma_limbs_bound(a: Seq<u32>, n: nat)
    requires
        n <= a.len(),
    ensures
        limbs_value(a, n) < pow32(n),
    decreases n,
{
    if n > 0 {
        lemma_limbs_bound(a, (n - 1) as nat);
        let w = pow32((n - 1) as nat);
        let top = a[n - 1] as nat;
        assert(limbs_value(a, (n - 1) as nat) + top * w < 0x1_0000_0000 * w) by (nonlinear_arith)
            requires
                limbs_value(a, (n - 1) as nat) < w,
                top <= 0xffff_ffff,
        ;
    }
}

proof fn lemma_u32_product(a: u32, b: u32)
    ensures
        (a as nat) * (b as nat) <= 0xffff_fffe_0000_0001,
{
    assert((a as nat) * (b as nat) <= 0xffff_fffe_0000_0001) by (nonlinear_arith)
        requires
            a <= 0xffff_ffff,
            b <= 0xffff_ffff,
    ;
}

proof fn lemma_split_u64(sum: u64)
    ensures
        (sum as u32) as nat == (sum as nat) % 0x1_0000_0000,
        (sum >> 32) as nat == (sum as nat) / 0x1_0000_0000,
        (sum >> 32) <= 0xffff_ffff,
        sum as nat == ((sum >> 32) as nat) * 0x1_0000_0000 + ((sum as u32) as nat),
{
    assert((sum as u32) == sum % 0x1_0000_0000) by (bit_vector);
    assert((sum >> 32) == sum / 0x1_0000_0000) by (bit_vector);
    assert((sum >> 32) <= 0xffff_ffff) by (bit_vector);
}

/// One step of a multiplication by a single limb: the carry chain keeps the
/// partial product exact.
proof fn lemma_mul_step(acc: nat, carry: nat, limb: nat, factor: nat, weight: nat, low: nat, high: nat, prefix: nat)
    requires
        acc + carry * weight == prefix * factor,
        carry + limb * factor == high * 0x1_0000_0000 + low,
    ensures
        acc + low * weight + high * (0x1_0000_0000 * weight) == (prefix + limb * weight) * factor,
{
    assert(acc + low * weight + high * (0x1_0000_0000 * weight) == (prefix + limb * weight)
        * factor) by (nonlinear_arith)
        requires
            acc + carry * weight == prefix * factor,
            carry + limb * factor == high * 0x1_0000_0000 + low,
    ;
}

/// One step of adding a shifted single-limb product into an accumulator.
proof fn lemma_add_step(
    total: nat,
    carry: nat,
    limb: nat,
    factor: nat,
    weight: nat,
    old_digit: nat,
    digit: nat,
    new_carry: nat,
    base: nat,
    prefix: nat,
)
    requires
        total + carry * weight == base + prefix * factor * 0x1_0000_0000,
        weight == 0x1_0000_0000 * pow32_arg(weight),
        old_digit + carry + limb * factor == new_carry * 0x1_0000_0000 + digit,
    ensures
        total + digit * weight - old_digit * weight + new_carry * (0x1_0000_0000 * weight) == base
            + (prefix + limb * pow32_arg(weight)) * factor * 0x1_0000_0000,
{
    let w = pow32_arg(weight);
    assert(total + digit * weight - old_digit * weight + new_carry * (0x1_0000_0000 * weight)
        == base + (prefix + limb * w) * factor * 0x1_0000_0000) by (nonlinear_arith)
        requires
            total + carry * weight == base + prefix * factor * 0x1_0000_0000,
            weight == 0x1_0000_0000 * w,
            old_digit + carry + limb * factor == new_carry * 0x1_0000_0000 + digit,
    ;
}

/// The weight one limb below `weight`.
pub open spec fn pow32_arg(weight: nat) -> nat {
    weight / 0x1_0000_0000
}

/// Estimated number of hashes required to find a block.
///
/// Every difficulty determines a target, which is a hash digest: a block has
/// proof-of-work if its hash is at most the target of its predecessor's
/// difficulty.
#[derive(Clone, Copy, Debug)]
pub struct Difficulty {
    pub limbs: [u32; 5],
}

impl Difficulty {
    /// The number that the limbs stand for.
    pub open spec fn value(self) -> nat {
        limbs_value(self.limbs@, 5)
    }

    pub fn new(difficulty: [u32; 5]) -> (d: Self)
        ensures
            d.limbs == difficulty,
    {
        Difficulty { limbs: difficulty }
    }

    /// The least difficulty that the controller sets.
    pub fn minimum() -> (d: Self)
        ensures
            d.value() == MINIMUM_DIFFICULTY,
            d.limbs@ == seq![MINIMUM_DIFFICULTY, 0u32, 0u32, 0u32, 0u32],
    {
        let d = Difficulty { limbs: [MINIMUM_DIFFICULTY, 0, 0, 0, 0] };
        proof {
            lemma_value5(d.limbs@);
            assert(d.limbs@ =~= seq![MINIMUM_DIFFICULTY, 0u32, 0u32, 0u32, 0u32]);
        }
        d
    }

    /// The greatest difficulty.
    pub fn maximum() -> (d: Self)
        ensures
            d.value() == difficulty_bound() - 1,
    {
        let d = Difficulty {
            limbs: [0xffff_ffff, 0xffff_ffff, 0xffff_ffff, 0xffff_ffff, 0xffff_ffff],
        };
        proof {
            lemma_value5(d.limbs@);
        }
        d
    }

    /// The limbs, least significant first.
    pub fn to_limbs(&self) -> (v: Vec<u32>)
        ensures
            v@ == self.limbs@,
    {
        let mut v: Vec<u32> = Vec::new();
        let mut i: usize = 0;
        while i < 5
            invariant
                0 <= i <= 5,
                v@ == self.limbs@.take(i as int),
            decreases 5 - i,
        {
            v.push(self.limbs[i]);
            i += 1;
        }
        v
    }

    /// Multiply the difficulty with a positive fixed-point rational number
    /// consisting of two `u32`s as limbs separated by the point. Returns the
    /// (wrapping) result and the out-of-bounds limb containing the overflow,
    /// if any.
    pub fn safe_mul_fixed_point_rational(&self, lo: u32, hi: u32) -> (r: (Self, u32))
        ensures
            r.0.value() + (r.1 as nat) * difficulty_bound() == mul_fixed_point(
                self.value(),
                lo,
                hi,
            ),
    {
        let mut product: [u32; 6] = [0u32; 6];
        let mut carry: u32 = 0;
        let mut i: usize = 0;
        proof {
            lemma_mul_basics(pow32(0) as int);
            lemma_mul_basics(lo as int);
            assert(limbs_value(product@, 0) == 0);
            assert(limbs_value(self.limbs@, 0) == 0);
        }
        while i < 5
            invariant
                0 <= i <= 5,
                limbs_value(product@, i as nat) + (carry as nat) * pow32(i as nat) == limbs_value(
                    self.limbs@,
                    i as nat,
                ) * (lo as nat),
            decreases 5 - i,
        {
            proof {
                lemma_u32_product(self.limbs[i as int], lo);
            }
            let sum: u64 = (carry as u64) + (self.limbs[i] as u64) * (lo as u64);
            let ghost before = product@;
            proof {
                lemma_split_u64(sum);
            }
            let low: u32 = #[verifier::truncate]
            (sum as u32);
            product[i] = low;
            let high: u32 = (sum >> 32) as u32;
            proof {
                lemma_value_update(before, i as int, low, i as nat);
                assert(product@ =~= before.update(i as int, low));
                lemma_mul_step(
                    limbs_value(before, i as nat),
                    carry as nat,
                    self.limbs[i as int] as nat,
                    lo as nat,
                    pow32(i as nat),
                    low as nat,
                    high as nat,
                    limbs_value(self.limbs@, i as nat),
                );
            }
            carry = high;
            i += 1;
        }
        let ghost first = product@;
        product[5] = carry;
        proof {
            lemma_value_update(first, 5, carry, 5);
            assert(product@ =~= first.update(5, carry));
            assert(limbs_value(product@, 6) == limbs_value(self.limbs@, 5) * (lo as nat));
        }
        let ghost base = limbs_value(product@, 6);
        carry = 0;
        i = 0;
        proof {
            lemma_mul_basics(pow32(1) as int);
            lemma_mul_basics(hi as int);
            assert(limbs_value(self.limbs@, 0) == 0);
            assert(limbs_value(self.limbs@, 0) * (hi as nat) == 0);
        }
        while i < 5
            invariant
                0 <= i <= 5,
                limbs_value(product@, 6) + (carry as nat) * pow32((i + 1) as nat) == base
                    + limbs_value(self.limbs@, i as nat) * (hi as nat) * 0x1_0000_0000,
            decreases 5 - i,
        {
            proof {
                lemma_u32_product(self.limbs[i as int], hi);
            }
            let sum: u64 = (carry as u64) + (self.limbs[i] as u64) * (hi as u64);
            proof {
                lemma_split_u64(sum);
            }
            let added: u64 = (product[i + 1] as u64) + ((#[verifier::truncate]
            (sum as u32)) as u64);
            proof {
                lemma_split_u64(added);
                assert((added >> 32) <= 1) by (bit_vector)
                    requires
                        added <= 0x1_ffff_fffe,
                ;
                assert((sum >> 32) + (added >> 32) <= 0xffff_ffff);
            }
            let ghost before = product@;
            let digit: u32 = #[verifier::truncate]
            (added as u32);
            let old_digit: u32 = product[i + 1];
            product[i + 1] = digit;
            let new_carry: u32 = ((sum >> 32) as u32) + ((added >> 32) as u32);
            proof {
                lemma_value_update(before, i + 1, digit, 6);
                assert(product@ =~= before.update(i + 1, digit));
                assert(pow32((i + 1) as nat) == 0x1_0000_0000 * pow32(i as nat));
                assert(pow32_arg(pow32((i + 1) as nat)) == pow32(i as nat));
                lemma_add_step(
                    limbs_value(before, 6),
                    carry as nat,
                    self.limbs[i as int] as nat,
                    hi as nat,
                    pow32((i + 1) as nat),
                    old_digit as nat,
                    digit as nat,
                    new_carry as nat,
                    base,
                    limbs_value(self.limbs@, i as nat),
                );
            }
            carry = new_carry;
            i += 1;
        }
        let result = Difficulty {
            limbs: [product[1], product[2], product[3], product[4], product[5]],
        };
        proof {
            lemma_shift_out_lowest(product@, result.limbs@, carry, self.value(), lo, hi);
        }
        (result, carry)
    }
}

impl PartialEq for Difficulty {
    fn eq(&self, other: &Self) -> (b: bool) {
        let b = self.limbs[0] == other.limbs[0] && self.limbs[1] == other.limbs[1]
            && self.limbs[2] == other.limbs[2] && self.limbs[3] == other.limbs[3]
            && self.limbs[4] == other.limbs[4];
        proof {
            if b {
                assert(self.limbs =~= other.limbs);
            }
        }
        b
    }
}

impl Eq for Difficulty {

}

impl vstd::std_specs::cmp::PartialEqSpecImpl for Difficulty {
    open spec fn obeys_eq_spec() -> bool {
        true
    }

    open spec fn eq_spec(&self, other: &Self) -> bool {
        *self == *other
    }
}

/// How the numbers `a` and `b` compare.
pub open spec fn order_of(a: nat, b: nat) -> Ordering {
    if a < b {
        Ordering::Less
    } else if a == b {
        Ordering::Equal
    } else {
        Ordering::Greater
    }
}

/// Whether the limbs `a` stand for a smaller number than the limbs `b`,
/// decided from the most significant limb down.
fn limbs_less(a: &[u32], b: &[u32]) -> (less: bool)
    requires
        a@.len() == b@.len(),
    ensures
        less == (limbs_value(a@, a@.len()) < limbs_value(b@, b@.len())),
{
    let n = a.len();
    let mut i: usize = n;
    while i > 0
        invariant
            0 <= i <= n,
            n == a@.len(),
            n == b@.len(),
            forall|j: int| i <= j < n ==> a@[j] == b@[j],
        decreases i,
    {
        i -= 1;
        if a[i] < b[i] {
            proof {
                lemma_limbs_decide(a@, b@, i as int);
            }
            return true;
        }
        if a[i] > b[i] {
            proof {
                lemma_limbs_decide(b@, a@, i as int);
            }
            return false;
        }
    }
    proof {
        lemma_value_agree(a@, b@, n as nat);
    }
    false
}

impl PartialOrd for Difficulty {
    fn partial_cmp(&self, other: &Self) -> (o: Option<Ordering>) {
        if limbs_less(self.limbs.as_slice(), other.limbs.as_slice()) {
            Some(Ordering::Less)
        } else if limbs_less(other.limbs.as_slice(), self.limbs.as_slice()) {
            Some(Ordering::Greater)
        } else {
            Some(Ordering::Equal)
        }
    }
}

impl vstd::std_specs::cmp::PartialOrdSpecImpl for Difficulty {
    open spec fn obeys_partial_cmp_spec() -> bool {
        true
    }

    open spec fn partial_cmp_spec(&self, other: &Self) -> Option<Ordering> {
        Some(order_of(self.value(), other.value()))
    }
}

impl From<u32> for Difficulty {
    fn from(value: u32) -> (d: Self)
        ensures
            d.value() == value,
    {
        let d = Difficulty { limbs: [value, 0, 0, 0, 0] };
        proof {
            lemma_value5(d.limbs@);
        }
        d
    }
}

impl vstd::std_specs::convert::FromSpecImpl<u32> for Difficulty {
    open spec fn obeys_from_spec() -> bool {
        true
    }

    open spec fn from_spec(value: u32) -> Self {
        Difficulty { limbs: [value, 0, 0, 0, 0] }
    }
}

/// Where two limb sequences agree above limb `k` and differ there, limb `k`
/// decides how their values compare.
pub proof fn lemma_limbs_decide(a: Seq<u32>, b: Seq<u32>, k: int)
    requires
        a.len() == b.len(),
        0 <= k < a.len(),
        a[k] < b[k],
        forall|j: int| k < j < a.len() ==> a[j] == b[j],
    ensures
        limbs_value(a, a.len()) < limbs_value(b, b.len()),
{
    lemma_limbs_bound(a, k as nat);
    lemma_limbs_upper(a, b, k, a.len());
}

proof fn lemma_limbs_upper(a: Seq<u32>, b: Seq<u32>, k: int, n: nat)
    requires
        a.len() == b.len(),
        0 <= k < n <= a.len(),
        a[k] < b[k],
        forall|j: int| k < j < a.len() ==> a[j] == b[j],
    ensures
        limbs_value(a, n) < limbs_value(b, n),
    decreases n,
{
    if n == k + 1 {
        lemma_limbs_bound(a, k as nat);
        let w = pow32(k as nat);
        let x = a[k] as nat;
        let y = b[k] as nat;
        assert(limbs_value(a, k as nat) + x * w < limbs_value(b, k as nat) + y * w)
            by (nonlinear_arith)
            requires
                limbs_value(a, k as nat) < w,
                x < y,
        ;
    } else {
        lemma_limbs_upper(a, b, k, (n - 1) as nat);
    }
}

/// Estimates how many hashes were used to produce a chain of blocks.
///
/// Proof-of-work is used in the fork choice rule: when presented with two
/// forks, a node chooses the one with the greater amount of proof-of-work.
#[derive(Clone, Copy, Debug)]
pub struct ProofOfWork {
    pub limbs: [u32; 6],
}

impl ProofOfWork {
    /// The number that the limbs stand for.
    pub open spec fn value(self) -> nat {
        limbs_value(self.limbs@, 6)
    }

    pub fn new(amount: [u32; 6]) -> (p: Self)
        ensures
            p.limbs == amount,
    {
        ProofOfWork { limbs: amount }
    }

    /// No proof-of-work at all.
    pub fn zero() -> (p: Self)
        ensures
            p.value() == 0,
    {
        let p = ProofOfWork { limbs: [0, 0, 0, 0, 0, 0] };
        proof {
            lemma_value5(p.limbs@);
            lemma_value6(p.limbs@);
        }
        p
    }

    /// Whether this is no proof-of-work at all.
    pub fn is_zero(&self) -> (b: bool)
        ensures
            b == (self.value() == 0),
    {
        proof {
            lemma_value5(self.limbs@);
            lemma_value6(self.limbs@);
        }
        self.limbs[0] == 0 && self.limbs[1] == 0 && self.limbs[2] == 0 && self.limbs[3] == 0
            && self.limbs[4] == 0 && self.limbs[5] == 0
    }

    /// The limbs, least significant first.
    pub fn to_limbs(&self) -> (v: Vec<u32>)
        ensures
            v@ == self.limbs@,
    {
        let mut v: Vec<u32> = Vec::new();
        let mut i: usize = 0;
        while i < 6
            invariant
                0 <= i <= 6,
                v@ == self.limbs@.take(i as int),
            decreases 6 - i,
        {
            v.push(self.limbs[i]);
            i += 1;
        }
        v
    }

    /// The sum of this work and the six limbs `rhs`, which wraps at 192
    /// bits: the carry out of the last limb is dropped.
    fn add_six(self, rhs: &[u32; 6]) -> (sum: Self)
        ensures
            sum.value() == work_sum(self.value(), limbs_value(rhs@, 6)),
    {
        let mut result: [u32; 6] = [0u32; 6];
        let mut carry: u32 = 0;
        let mut i: usize = 0;
        proof {
            lemma_mul_basics(pow32(0) as int);
        }
        while i < 6
            invariant
                0 <= i <= 6,
                carry <= 1,
                limbs_value(result@, i as nat) + (carry as nat) * pow32(i as nat) == limbs_value(
                    self.limbs@,
                    i as nat,
                ) + limbs_value(rhs@, i as nat),
            decreases 6 - i,
        {
            let digit: u32 = rhs[i];
            let total: u64 = (carry as u64) + (digit as u64) + (self.limbs[i] as u64);
            let ghost before = result@;
            proof {
                lemma_split_u64(total);
                assert((total >> 32) <= 1) by (bit_vector)
                    requires
                        total <= 0x1_ffff_ffff,
                ;
            }
            let low: u32 = #[verifier::truncate]
            (total as u32);
            result[i] = low;
            let high: u32 = (total >> 32) as u32;
            proof {
                lemma_value_update(before, i as int, low, i as nat);
                assert(result@ =~= before.update(i as int, low));
                let w = pow32(i as nat);
                let a = self.limbs[i as int] as nat;
                let d = digit as nat;
                assert(low * w + high * (0x1_0000_0000 * w) == (carry as nat) * w + d * w + a * w)
                    by (nonlinear_arith)
                    requires
                        (carry as nat) + d + a == high * 0x1_0000_0000 + low,
                ;
            }
            carry = high;
            i += 1;
        }
        let sum = ProofOfWork { limbs: result };
        proof {
            lemma_pow32_values();
            lemma_value6(result@);
            let total = self.value() + limbs_value(rhs@, 6);
            lemma_fundamental_div_mod_converse(
                total as int,
                pow_bound() as int,
                carry as int,
                sum.value() as int,
            );
        }
        sum
    }

    /// The sum of this work and the number that the little-endian limbs
    /// `rhs` stand for, of which the first six count. The sum wraps at 192
    /// bits.
    pub fn add_limbs(self, rhs: &[u32]) -> (sum: Self)
        ensures
            sum.value() == work_sum(
                self.value(),
                limbs_value(
                    rhs@,
                    if rhs@.len() < 6 {
                        rhs@.len()
                    } else {
                        6
                    },
                ),
            ),
    {
        let mut six: [u32; 6] = [0u32; 6];
        let count: usize = if rhs.len() < 6 {
            rhs.len()
        } else {
            6
        };
        let mut i: usize = 0;
        while i < count
            invariant
                0 <= i <= count <= 6,
                count <= rhs@.len(),
                forall|j: int| 0 <= j < i ==> six@[j] == rhs@[j],
                forall|j: int| i <= j < 6 ==> six@[j] == 0,
            decreases count - i,
        {
            six[i] = rhs[i];
            i += 1;
        }
        proof {
            let head = rhs@.take(count as int);
            assert(six@ =~= padded(head, 6));
            lemma_padded_value(head, 6);
            lemma_value_agree(head, rhs@, count as nat);
        }
        self.add_six(&six)
    }

    /// The work of a chain to which a block of difficulty `rhs` is appended.
    /// The sum wraps at 192 bits.
    pub fn add(self, rhs: Difficulty) -> (sum: Self)
        ensures
            sum.value() == work_sum(self.value(), rhs.value()),
    {
        self.add_limbs(rhs.limbs.as_slice())
    }

    /// The sum of two amounts of work, which wraps at 192 bits.
    pub fn add_proof_of_work(self, rhs: ProofOfWork) -> (sum: Self)
        ensures
            sum.value() == work_sum(self.value(), rhs.value()),
    {
        self.add_six(&rhs.limbs)
    }
}

/// The sum of two amounts of work: it wraps at 192 bits.
pub open spec fn work_sum(a: nat, b: nat) -> nat {
    (a + b) % pow_bound()
}

/// Amounts of work form a monoid under their sum: zero is neutral, and the
/// sum neither depends on the order of its terms nor on how they are
/// grouped.
pub proof fn law_work_sum_is_a_monoid(p: ProofOfWork, q: ProofOfWork, r: ProofOfWork)
    ensures
        work_sum(p.value(), 0) == p.value(),
        work_sum(0, p.value()) == p.value(),
        work_sum(p.value(), q.value()) == work_sum(q.value(), p.value()),
        work_sum(work_sum(p.value(), q.value()), r.value()) == work_sum(
            p.value(),
            work_sum(q.value(), r.value()),
        ),
        work_sum(p.value(), q.value()) < pow_bound(),
{
    let m = pow_bound() as int;
    let a = p.value() as int;
    let b = q.value() as int;
    let c = r.value() as int;
    lemma_value6(p.limbs@);
    lemma_value6(q.limbs@);
    lemma_value6(r.limbs@);
    lemma_small_mod(p.value(), pow_bound());
    lemma_small_mod(r.value(), pow_bound());
    lemma_add_mod_noop(a + b, c, m);
    lemma_add_mod_noop(a, b + c, m);
    lemma_mod_bound(a + b, m);
}

impl PartialEq for ProofOfWork {
    fn eq(&self, other: &Self) -> (b: bool) {
        let b = self.limbs[0] == other.limbs[0] && self.limbs[1] == other.limbs[1]
            && self.limbs[2] == other.limbs[2] && self.limbs[3] == other.limbs[3]
            && self.limbs[4] == other.limbs[4] && self.limbs[5] == other.limbs[5];
        proof {
            if b {
                assert(self.limbs =~= other.limbs);
            }
        }
        b
    }
}

impl Eq for ProofOfWork {

}

impl vstd::std_specs::cmp::PartialEqSpecImpl for ProofOfWork {
    open spec fn obeys_eq_spec() -> bool {
        true
    }

    open spec fn eq_spec(&self, other: &Self) -> bool {
        *self == *other
    }
}

impl PartialOrd for ProofOfWork {
    fn partial_cmp(&self, other: &Self) -> (o: Option<Ordering>) {
        if limbs_less(self.limbs.as_slice(), other.limbs.as_slice()) {
            Some(Ordering::Less)
        } else if limbs_less(other.limbs.as_slice(), self.limbs.as_slice()) {
            Some(Ordering::Greater)
        } else {
            Some(Ordering::Equal)
        }
    }
}

impl vstd::std_specs::cmp::PartialOrdSpecImpl for ProofOfWork {
    open spec fn obeys_partial_cmp_spec() -> bool {
        true
    }

    open spec fn partial_cmp_spec(&self, other: &Self) -> Option<Ordering> {
        Some(order_of(self.value(), other.value()))
    }
}

/// The relative error of an observed block interval, as a signed fixed-point
/// number with 32 fractional bits: `floor((delta_t - target) * 2^32 / target)`.
pub open spec fn relative_error(delta_t: int, target: int) -> int {
    ((delta_t - target) * 0x1_0000_0000) / target
}

/// The relative error clamped to the interval from -1 to 4.
pub open spec fn clamp_error(error: int) -> int {
    if error < -0x1_0000_0000 {
        -0x1_0000_0000
    } else if error > 0x4_0000_0000 {
        0x4_0000_0000
    } else {
        error
    }
}

/// The adjustment factor `1 + P * error` of the controller, with `P = -1/16`,
/// as a fixed-point number with 32 fractional bits.
pub open spec fn control_signal(clamped_error: int) -> int {
    0x1_0000_0000 + (-clamped_error) / 16
}

/// The value of the difficulty that follows a block of difficulty value
/// `old_value`.
pub open spec fn next_difficulty_value(
    new_timestamp: u64,
    old_timestamp: u64,
    old_value: nat,
    target: u64,
    previous_height: u64,
) -> nat {
    if previous_height == 0 {
        old_value
    } else {
        let signal = control_signal(
            clamp_error(relative_error(new_timestamp - old_timestamp, target as int)),
        );
        let product = (old_value * signal) / 0x1_0000_0000;
        if product >= difficulty_bound() {
            (difficulty_bound() - 1) as nat
        } else if product < MINIMUM_DIFFICULTY {
            MINIMUM_DIFFICULTY as nat
        } else {
            product as nat
        }
    }
}

/// Division of a negative number, rounding towards minus infinity, from a
/// division of its magnitude.
proof fn lemma_floor_div_negative(s: int, t: int)
    requires
        s < 0,
        t > 0,
    ensures
        s / t == -((-s + t - 1) / t),
{
    let m = -s + t - 1;
    let k = m / t;
    let rem = m % t;
    lemma_fundamental_div_mod(m, t);
    lemma_mod_bound(m, t);
    assert(s == (-k) * t + (t - 1 - rem)) by (nonlinear_arith)
        requires
            m == t * k + rem,
            m == -s + t - 1,
    ;
    lemma_fundamental_div_mod_converse(s, t, -k, t - 1 - rem);
}

/// Control system for block difficulty.
///
/// Computes the new block's difficulty from the block's timestamp, the
/// previous block's timestamp and difficulty, and the target block interval.
/// It is a PID controller with `P = -1/16` and `I = D = 0`, the relative
/// error being clamped to the interval from -1 to 4. The result saturates at
/// the maximum difficulty and is never below the minimum. After the genesis
/// block the difficulty stays as it is.
pub fn difficulty_control(
    new_timestamp: Timestamp,
    old_timestamp: Timestamp,
    old_difficulty: Difficulty,
    target_block_interval: Option<Timestamp>,
    previous_block_height: BlockHeight,
) -> (new_difficulty: Difficulty)
    requires
        previous_block_height.0 != 0 ==> (target_block_interval matches Some(t) ==> t.0 > 0),
    ensures
        new_difficulty.value() == next_difficulty_value(
            new_timestamp.0,
            old_timestamp.0,
            old_difficulty.value(),
            match target_block_interval {
                Some(t) => t.0,
                None => TARGET_BLOCK_INTERVAL,
            },
            previous_block_height.0,
        ),
{
    if previous_block_height.is_genesis() {
        return old_difficulty;
    }
    let target: u64 = match target_block_interval {
        Some(t) => t.0,
        None => TARGET_BLOCK_INTERVAL,
    };
    let t: i128 = target as i128;
    let delta_t: i128 = (new_timestamp.0 as i128) - (old_timestamp.0 as i128);
    let absolute_error: i128 = delta_t - t;
    let scaled: i128 = absolute_error * 0x1_0000_0000;
    let relative: i128 = if scaled >= 0 {
        scaled / t
    } else {
        proof {
            lemma_floor_div_negative(scaled as int, t as int);
        }
        -((-scaled + t - 1) / t)
    };
    assert(relative == relative_error(delta_t as int, t as int));
    let clamped: i128 = if relative < -0x1_0000_0000 {
        -0x1_0000_0000
    } else if relative > 0x4_0000_0000 {
        0x4_0000_0000
    } else {
        relative
    };
    let signal: u64 = if clamped <= 0 {
        (0x1_0000_0000 + (-clamped) / 16) as u64
    } else {
        (0x1_0000_0000 - (clamped + 15) / 16) as u64
    };
    assert(signal == control_signal(clamped as int));
    proof {
        lemma_split_u64(signal);
    }
    let lo: u32 = #[verifier::truncate]
    (signal as u32);
    let hi: u32 = (signal >> 32) as u32;
    let (scaled_difficulty, overflow) = old_difficulty.safe_mul_fixed_point_rational(lo, hi);
    proof {
        lemma_value5(scaled_difficulty.limbs@);
        assert(lo as nat + (hi as nat) * 0x1_0000_0000 == signal);
        assert((overflow as nat) * difficulty_bound() >= difficulty_bound() <==> overflow > 0)
            by (nonlinear_arith);
    }
    if overflow > 0 {
        Difficulty::maximum()
    } else if scaled_difficulty < Difficulty::minimum() {
        Difficulty::minimum()
    } else {
        scaled_difficulty
    }
}

/// Multiplication by a fixed-point factor is linear up to one unit in the
/// last place: the products of two difficulties add up to the product of
/// their sum, or to one less.
pub proof fn law_mul_fixed_point_is_linear(a: nat, b: nat, lo: u32, hi: u32)
    ensures
        mul_fixed_point(a, lo, hi) + mul_fixed_point(b, lo, hi) == mul_fixed_point(a + b, lo, hi)
            || mul_fixed_point(a, lo, hi) + mul_fixed_point(b, lo, hi) + 1 == mul_fixed_point(
            a + b,
            lo,
            hi,
        ),
{
    let r = lo as nat + (hi as nat) * 0x1_0000_0000;
    let x = (a * r) as int;
    let y = (b * r) as int;
    assert((a + b) * r == a * r + b * r) by (nonlinear_arith);
    lemma_fundamental_div_mod(x, 0x1_0000_0000);
    lemma_fundamental_div_mod(y, 0x1_0000_0000);
    lemma_fundamental_div_mod(x + y, 0x1_0000_0000);
}

/// A difficulty is determined by the number it stands for.
pub proof fn law_difficulty_value_is_injective(a: Difficulty, b: Difficulty)
    requires
        a.value() == b.value(),
    ensures
        a == b,
{
    lemma_value5_injective(a.limbs@, b.limbs@);
    assert(a.limbs =~= b.limbs);
}

/// An amount of proof-of-work is determined by the number it stands for.
pub proof fn law_proof_of_work_value_is_injective(a: ProofOfWork, b: ProofOfWork)
    requires
        a.value() == b.value(),
    ensures
        a == b,
{
    lemma_value6_injective(a.limbs@, b.limbs@);
    assert(a.limbs =~= b.limbs);
}

/// The limbs `s`, followed by zeros, up to `n` limbs.
pub open spec fn padded(s: Seq<u32>, n: nat) -> Seq<u32> {
    Seq::new(
        n,
        |i: int|
            if i < s.len() {
                s[i]
            } else {
                0u32
            },
    )
}

/// Zeros behind the limbs add nothing to the value.
pub proof fn lemma_padded_value(s: Seq<u32>, n: nat)
    requires
        s.len() <= n,
    ensures
        limbs_value(padded(s, n), n) == limbs_value(s, s.len()),
    decreases n,
{
    if n > s.len() {
        lemma_padded_value(s, (n - 1) as nat);
        lemma_value_agree(padded(s, n), padded(s, (n - 1) as nat), (n - 1) as nat);
        lemma_mul_basics(pow32((n - 1) as nat) as int);
    } else {
        lemma_value_agree(padded(s, n), s, n);
    }
}

/// Limbs whose last one is not zero stand for a number that is at least the
/// weight of that limb.
pub proof fn lemma_value_at_least(s: Seq<u32>, n: nat)
    requires
        0 < n <= s.len(),
        s[n - 1] != 0,
    ensures
        limbs_value(s, n) >= pow32((n - 1) as nat),
{
    let w = pow32((n - 1) as nat);
    let top = s[n - 1] as nat;
    assert(top * w >= w) by (nonlinear_arith)
        requires
            top >= 1,
    ;
}

/// The weights of the limbs grow with their index.
pub proof fn lemma_pow32_grows(a: nat, b: nat)
    requires
        a <= b,
    ensures
        pow32(a) <= pow32(b),
        pow32(a) >= 1,
    decreases b,
{
    if a < b {
        lemma_pow32_grows(a, (b - 1) as nat);
    } else if a > 0 {
        lemma_pow32_grows((a - 1) as nat, (a - 1) as nat);
    }
}

impl Difficulty {
    /// The difficulty as a big integer.
    pub fn to_biguint(&self) -> (b: BigUint)
        ensures
            biguint_value(b) == self.value(),
    {
        biguint_new(self.to_limbs())
    }

    /// The difficulty that a big integer stands for, where it is below
    /// `2^160`.
    pub fn from_biguint(bi: &BigUint) -> (d: Option<Self>)
        ensures
            d is Some <==> biguint_value(*bi) < difficulty_bound(),
            d matches Some(difficulty) ==> difficulty.value() == biguint_value(*bi),
    {
        let digits = biguint_to_u32_digits(bi);
        if digits.len() > 5 {
            proof {
                lemma_value_at_least(digits@, digits@.len());
                lemma_pow32_grows(5, (digits@.len() - 1) as nat);
                lemma_pow32_values();
            }
            return None;
        }
        let mut limbs: [u32; 5] = [0u32; 5];
        let mut i: usize = 0;
        while i < digits.len()
            invariant
                0 <= i <= digits.len() <= 5,
                forall|j: int| 0 <= j < i ==> limbs@[j] == digits@[j],
                forall|j: int| i <= j < 5 ==> limbs@[j] == 0,
            decreases digits.len() - i,
        {
            limbs[i] = digits[i];
            i += 1;
        }
        let d = Difficulty { limbs };
        proof {
            assert(limbs@ =~= padded(digits@, 5));
            lemma_padded_value(digits@, 5);
            lemma_value5(limbs@);
        }
        Some(d)
    }

    /// Convert a difficulty to a target threshold so as to test a block's
    /// proof-of-work: the greatest digest divided by the difficulty.
    pub fn target(&self) -> (d: Digest)
        requires
            self.value() > 0,
        ensures
            digest_value(d@) == ((digest_bound() - 1) as nat) / self.value(),
            crate::digest::is_canonical(d@),
    {
        let difficulty_as_bui = self.to_biguint();
        let greatest = Digest::new(
            [
                BFIELD_MODULUS - 1,
                BFIELD_MODULUS - 1,
                BFIELD_MODULUS - 1,
                BFIELD_MODULUS - 1,
                BFIELD_MODULUS - 1,
            ],
        );
        let max_threshold_as_bui = digest_to_biguint(&greatest);
        proof {
            lemma_greatest_digest(greatest@);
        }
        let threshold_as_bui = biguint_div(&max_threshold_as_bui, &difficulty_as_bui);
        proof {
            let m = (digest_bound() - 1) as int;
            let v = self.value() as int;
            lemma_div_is_ordered_by_denominator(m, 1, v);
            lemma_div_basics(m);
        }
        match digest_from_biguint(&threshold_as_bui) {
            Some(digest) => digest,
            None => Digest::default(),
        }
    }

    /// The difficulty in decimal digits.
    pub fn to_decimal_string(&self) -> (s: String)
        ensures
            s@ == decimal(self.value()),
    {
        biguint_to_string(&self.to_biguint())
    }
}

impl ProofOfWork {
    /// The amount of work as a big integer.
    pub fn to_biguint(&self) -> (b: BigUint)
        ensures
            biguint_value(b) == self.value(),
    {
        biguint_new(self.to_limbs())
    }

    /// The amount of work in decimal digits.
    pub fn to_decimal_string(&self) -> (s: String)
        ensures
            s@ == decimal(self.value()),
    {
        biguint_to_string(&self.to_biguint())
    }
}

/// The digest whose elements are all one less than the modulus stands for
/// the greatest number that a digest stands for.
pub proof fn lemma_greatest_digest(s: Seq<u64>)
    requires
        s.len() == 5,
        forall|i: int| 0 <= i < 5 ==> s[i] == BFIELD_MODULUS - 1,
    ensures
        digest_value(s) == digest_bound() - 1,
{
    let p = BFIELD_MODULUS as nat;
    let q = p * p;
    assert((p - 1) + (p - 1) * p + (p - 1) * q + (p - 1) * (q * p) + (p - 1) * (q * q) == q * q * p
        - 1) by (nonlinear_arith)
        requires
            q == p * p,
    ;
}

/// A difficulty that goes to a big integer and comes back is the same
/// difficulty: the way there keeps the number, the way back keeps it too,
/// and the number decides the difficulty.
pub proof fn law_biguint_round_trip(d: Difficulty, bi: BigUint, back: Difficulty)
    requires
        biguint_value(bi) == d.value(),
        back.value() == biguint_value(bi),
    ensures
        back == d,
        biguint_value(bi) < difficulty_bound(),
{
    lemma_value5(d.limbs@);
    law_difficulty_value_is_injective(back, d);
}

/// Dropping the lowest limb of an exact seven-limb product divides it by the
/// radix.
proof fn lemma_shift_out_lowest(product: Seq<u32>, upper: Seq<u32>, carry: u32, d: nat, lo: u32, hi: u32)
    requires
        product.len() == 6,
        upper.len() == 5,
        forall|i: int| 0 <= i < 5 ==> upper[i] == product[i + 1],
        limbs_value(product, 6) + (carry as nat) * pow32(6) == d * (lo as nat) + d * (hi as nat)
            * 0x1_0000_0000,
    ensures
        limbs_value(upper, 5) + (carry as nat) * difficulty_bound() == mul_fixed_point(d, lo, hi),
{
    lemma_value5(product);
    lemma_value6(product);
    lemma_value5(upper);
    lemma_pow32_values();
    let q = limbs_value(upper, 5) + (carry as nat) * difficulty_bound();
    let r = product[0] as nat;
    let full = d * (lo as nat + (hi as nat) * 0x1_0000_0000);
    assert(d * (lo as nat + (hi as nat) * 0x1_0000_0000) == d * (lo as nat) + d * (hi as nat)
        * 0x1_0000_0000) by (nonlinear_arith);
    assert(upper[0] == product[1] && upper[1] == product[2] && upper[2] == product[3] && upper[3]
        == product[4] && upper[4] == product[5]);
    assert(limbs_value(product, 6) == r + limbs_value(upper, 5) * 0x1_0000_0000);
    assert(pow32(6) == difficulty_bound() * 0x1_0000_0000);
    assert((carry as nat) * pow32(6) == (carry as nat) * difficulty_bound() * 0x1_0000_0000)
        by (nonlinear_arith)
        requires
            pow32(6) == difficulty_bound() * 0x1_0000_0000,
    ;
    assert(full == q * 0x1_0000_0000 + r) by (nonlinear_arith)
        requires
            full == r + limbs_value(upper, 5) * 0x1_0000_0000 + (carry as nat) * difficulty_bound()
                * 0x1_0000_0000,
            q == limbs_value(upper, 5) + (carry as nat) * difficulty_bound(),
    ;
    lemma_fundamental_div_mod_converse(full as int, 0x1_0000_0000, q as int, r as int);
}

} // verus!
