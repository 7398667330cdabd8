//! Exact signed dyadic numbers used to compare sums of relation offsets
//! without rounding.
//!
//! A value is an integer multiple of `2^-1074`, the finest binary64 unit. The
//! integer numerator is held as a sign and a little-endian sequence of 64-bit
//! limbs.
use std::cmp::Ordering;
use vstd::arithmetic::power2::{lemma2_to64, lemma2_to64_rest, lemma_pow2_adds, lemma_pow2_pos, pow2};
use vstd::bits::{lemma_u64_pow2_no_overflow, lemma_u64_shl_is_mul, lemma_u64_shr_is_div};
use vstd::prelude::*;

verus! {

/// The radix of one magnitude limb.
pub open spec fn limb_base() -> nat {
    0x1_0000_0000_0000_0000
}

/// `limb_base()` raised to `n`.
pub open spec fn pow_base(n: nat) -> nat
    decreases n,
{
    if n == 0 {
        1
    } else {
        limb_base() * pow_base((n - 1) as nat)
    }
}

/// Limb `i` of `s`, or zero past its end.
pub open spec fn limb(s: Seq<u64>, i: int) -> nat {
    if 0 <= i < s.len() {
        s[i] as nat
    } else {
        0
    }
}

/// The value of the lowest `n` limbs of `s`.
pub open spec fn prefix_value(s: Seq<u64>, n: nat) -> nat
    decreases n,
{
    if n == 0 {
        0
    } else {
        prefix_value(s, (n - 1) as nat) + limb(s, n - 1) * pow_base((n - 1) as nat)
    }
}

/// The natural number that a little-endian limb sequence denotes.
pub open spec fn magnitude_value(s: Seq<u64>) -> nat {
    prefix_value(s, s.len())
}

/// A magnitude without a most significant zero limb.
pub open spec fn is_normalized_magnitude(s: Seq<u64>) -> bool {
    s.len() == 0 || s.last() != 0
}

/// The three-way comparison of two natural numbers.
pub open spec fn ordering_of(a: nat, b: nat) -> Ordering {
    if a < b {
        Ordering::Less
    } else if a > b {
        Ordering::Greater
    } else {
        Ordering::Equal
    }
}

proof fn lemma_pow_base_positive(n: nat)
    ensures
        pow_base(n) >= 1,
    decreases n,
{
    if n > 0 {
        lemma_pow_base_positive((n - 1) as nat);
        let p = pow_base((n - 1) as nat);
        assert(limb_base() * p >= p) by (nonlinear_arith)
            requires
                p >= 1,
                limb_base() >= 1,
        ;
    }
}

proof fn lemma_pow_base_monotonic(a: nat, b: nat)
    requires
        a <= b,
    ensures
        pow_base(a) <= pow_base(b),
    decreases b,
{
    if a < b {
        lemma_pow_base_monotonic(a, (b - 1) as nat);
        lemma_pow_base_positive((b - 1) as nat);
        let p = pow_base((b - 1) as nat);
        assert(limb_base() * p >= p) by (nonlinear_arith)
            requires
                p >= 1,
                limb_base() >= 1,
        ;
    }
}

proof fn lemma_prefix_value_bound(s: Seq<u64>, n: nat)
    ensures
        prefix_value(s, n) < pow_base(n),
    decreases n,
{
    if n > 0 {
        let m = (n - 1) as nat;
        lemma_prefix_value_bound(s, m);
        let p = pow_base(m);
        let l = limb(s, m as int);
        let rest = prefix_value(s, m);
        assert(l <= limb_base() - 1);
        assert(rest + l * p < limb_base() * p) by (nonlinear_arith)
            requires
                rest < p,
                l <= limb_base() - 1,
        ;
    }
}

proof fn lemma_prefix_value_agree(a: Seq<u64>, b: Seq<u64>, n: nat)
    requires
        forall|i: int| 0 <= i < n ==> limb(a, i) == limb(b, i),
    ensures
        prefix_value(a, n) == prefix_value(b, n),
    decreases n,
{
    if n > 0 {
        lemma_prefix_value_agree(a, b, (n - 1) as nat);
        assert(limb(a, n - 1) == limb(b, n - 1));
    }
}

proof fn lemma_prefix_value_stable(s: Seq<u64>, n: nat)
    requires
        n >= s.len(),
    ensures
        prefix_value(s, n) == magnitude_value(s),
    decreases n,
{
    if n > s.len() {
        lemma_prefix_value_stable(s, (n - 1) as nat);
        assert(limb(s, n - 1) == 0);
    }
}

proof fn lemma_value_push(s: Seq<u64>, x: u64)
    ensures
        magnitude_value(s.push(x)) == magnitude_value(s) + x * pow_base(s.len()),
{
    let t = s.push(x);
    assert forall|i: int| 0 <= i < s.len() implies limb(t, i) == limb(s, i) by {}
    lemma_prefix_value_agree(t, s, s.len());
    assert(limb(t, s.len() as int) == x);
}

proof fn lemma_value_drop_zero(s: Seq<u64>)
    requires
        s.len() > 0,
        s.last() == 0,
    ensures
        magnitude_value(s.drop_last()) == magnitude_value(s),
{
    lemma_value_push(s.drop_last(), 0);
    assert(s.drop_last().push(0) == s);
}

proof fn lemma_normalized_value_lower_bound(s: Seq<u64>)
    requires
        is_normalized_magnitude(s),
        s.len() > 0,
    ensures
        magnitude_value(s) >= pow_base((s.len() - 1) as nat),
        magnitude_value(s) > 0,
{
    let d = s.drop_last();
    lemma_value_push(d, s.last());
    assert(d.push(s.last()) == s);
    let p = pow_base(d.len());
    lemma_pow_base_positive(d.len());
    let x = s.last();
    assert(x * p >= p) by (nonlinear_arith)
        requires
            x >= 1,
            p >= 1,
    ;
}

proof fn lemma_normalized_length_order(a: Seq<u64>, b: Seq<u64>)
    requires
        is_normalized_magnitude(a),
        is_normalized_magnitude(b),
        a.len() < b.len(),
    ensures
        magnitude_value(a) < magnitude_value(b),
{
    lemma_prefix_value_bound(a, a.len());
    lemma_normalized_value_lower_bound(b);
    lemma_pow_base_monotonic(a.len(), (b.len() - 1) as nat);
}

proof fn lemma_prefix_value_first_difference(a: Seq<u64>, b: Seq<u64>, k: nat, m: nat)
    requires
        k < m,
        limb(a, k as int) < limb(b, k as int),
        forall|j: int| k < j < m ==> limb(a, j) == limb(b, j),
    ensures
        prefix_value(a, m) < prefix_value(b, m),
    decreases m,
{
    if m == k + 1 {
        lemma_prefix_value_bound(a, k);
        let p = pow_base(k);
        let la = limb(a, k as int);
        let lb = limb(b, k as int);
        let ra = prefix_value(a, k);
        let rb = prefix_value(b, k);
        assert(ra + la * p < rb + lb * p) by (nonlinear_arith)
            requires
                ra < p,
                la < lb,
                rb >= 0,
        ;
    } else {
        lemma_prefix_value_first_difference(a, b, k, (m - 1) as nat);
        assert(limb(a, m - 1) == limb(b, m - 1));
    }
}

proof fn lemma_limbs_first_difference(a: Seq<u64>, b: Seq<u64>, k: usize)
    requires
        a.len() == b.len(),
        k < a.len(),
        forall|j: int| k < j < a.len() ==> a[j] == b[j],
    ensures
        a[k as int] < b[k as int] ==> magnitude_value(a) < magnitude_value(b),
        a[k as int] > b[k as int] ==> magnitude_value(a) > magnitude_value(b),
{
    let n = a.len();
    assert forall|j: int| k < j < n implies limb(a, j) == limb(b, j) by {}
    assert forall|j: int| k < j < n implies limb(b, j) == limb(a, j) by {}
    if a[k as int] < b[k as int] {
        lemma_prefix_value_first_difference(a, b, k as nat, n);
    } else if a[k as int] > b[k as int] {
        lemma_prefix_value_first_difference(b, a, k as nat, n);
    }
}

proof fn lemma_limbs_equal(a: Seq<u64>, b: Seq<u64>)
    requires
        a.len() == b.len(),
        forall|j: int| 0 <= j < a.len() ==> a[j] == b[j],
    ensures
        magnitude_value(a) == magnitude_value(b),
{
    assert forall|j: int| 0 <= j < a.len() implies limb(a, j) == limb(b, j) by {}
    lemma_prefix_value_agree(a, b, a.len());
}

proof fn lemma_normalized_order(a: Seq<u64>, b: Seq<u64>)
    requires
        is_normalized_magnitude(a),
        is_normalized_magnitude(b),
    ensures
        a.len() < b.len() ==> magnitude_value(a) < magnitude_value(b),
        a.len() > b.len() ==> magnitude_value(a) > magnitude_value(b),
{
    if a.len() < b.len() {
        lemma_normalized_length_order(a, b);
    } else if a.len() > b.len() {
        lemma_normalized_length_order(b, a);
    }
}

/// Three-way comparison of two magnitudes: shorter limb sequences order
/// first, and sequences of one length order by their value.
pub fn compare_magnitudes(left: &[u64], right: &[u64]) -> (order: Ordering)
    ensures
        left.len() < right.len() ==> order == Ordering::Less,
        left.len() > right.len() ==> order == Ordering::Greater,
        left.len() == right.len() ==> order == ordering_of(
            magnitude_value(left@),
            magnitude_value(right@),
        ),
        is_normalized_magnitude(left@) && is_normalized_magnitude(right@) ==> order
            == ordering_of(magnitude_value(left@), magnitude_value(right@)),
{
    proof {
        if is_normalized_magnitude(left@) && is_normalized_magnitude(right@) {
            lemma_normalized_order(left@, right@);
        }
    }
    if left.len() < right.len() {
        return Ordering::Less;
    }
    if left.len() > right.len() {
        return Ordering::Greater;
    }
    let mut index = left.len();
    while index > 0
        invariant
            index <= left.len(),
            left.len() == right.len(),
            forall|j: int| index <= j < left.len() ==> left[j] == right[j],
        decreases index,
    {
        index = index - 1;
        if left[index] != right[index] {
            proof {
                lemma_limbs_first_difference(left@, right@, index);
            }
            if left[index] < right[index] {
                return Ordering::Less;
            } else {
                return Ordering::Greater;
            }
        }
    }
    proof {
        lemma_limbs_equal(left@, right@);
    }
    Ordering::Equal
}

/// The limb-wise sum of two magnitudes, with a final carry limb when the
/// top limbs overflow.
pub fn add_magnitudes(left: &[u64], right: &[u64]) -> (sum: Vec<u64>)
    ensures
        magnitude_value(sum@) == magnitude_value(left@) + magnitude_value(right@),
        sum.len() == (if left.len() >= right.len() { left.len() } else { right.len() })
            || sum.len() == (if left.len() >= right.len() { left.len() } else { right.len() }) + 1,
{
    let width = if left.len() >= right.len() {
        left.len()
    } else {
        right.len()
    };
    let mut sum: Vec<u64> = Vec::with_capacity(width);
    let mut carry: u128 = 0;
    let mut index: usize = 0;
    while index < width
        invariant
            index <= width,
            width == (if left.len() >= right.len() { left.len() } else { right.len() }),
            sum.len() == index,
            carry <= 1,
            magnitude_value(sum@) + carry * pow_base(index as nat) == prefix_value(
                left@,
                index as nat,
            ) + prefix_value(right@, index as nat),
        decreases width - index,
    {
        let left_limb: u64 = if index < left.len() {
            left[index]
        } else {
            0
        };
        let right_limb: u64 = if index < right.len() {
            right[index]
        } else {
            0
        };
        let total: u128 = left_limb as u128 + right_limb as u128 + carry;
        let low: u64 = (total % 0x1_0000_0000_0000_0000u128) as u64;
        let high: u128 = total / 0x1_0000_0000_0000_0000u128;
        proof {
            let p = pow_base(index as nat);
            let old_sum = sum@;
            lemma_value_push(old_sum, low);
            assert(limb(left@, index as int) == left_limb);
            assert(limb(right@, index as int) == right_limb);
            assert(pow_base((index + 1) as nat) == limb_base() * p);
            assert(total == low + limb_base() * high);
            assert(low * p + high * (limb_base() * p) == total * p) by (nonlinear_arith)
                requires
                    total == low + limb_base() * high,
            ;
            assert(total * p == left_limb * p + right_limb * p + carry * p) by (nonlinear_arith)
                requires
                    total == left_limb + right_limb + carry,
            ;
        }
        sum.push(low);
        carry = high;
        index = index + 1;
    }
    proof {
        lemma_prefix_value_stable(left@, width as nat);
        lemma_prefix_value_stable(right@, width as nat);
    }
    if carry != 0 {
        proof {
            lemma_value_push(sum@, carry as u64);
        }
        sum.push(carry as u64);
    }
    sum
}

/// The limb-wise difference `larger - smaller` of two magnitudes.
pub fn subtract_magnitudes(larger: &[u64], smaller: &[u64]) -> (difference: Vec<u64>)
    requires
        smaller.len() <= larger.len(),
        magnitude_value(smaller@) <= magnitude_value(larger@),
    ensures
        magnitude_value(difference@) == magnitude_value(larger@) - magnitude_value(smaller@),
        difference.len() == larger.len(),
{
    let mut difference: Vec<u64> = Vec::with_capacity(larger.len());
    let mut borrow = false;
    let mut index: usize = 0;
    while index < larger.len()
        invariant
            index <= larger.len(),
            smaller.len() <= larger.len(),
            difference.len() == index,
            magnitude_value(difference@) + prefix_value(smaller@, index as nat) == prefix_value(
                larger@,
                index as nat,
            ) + (if borrow { pow_base(index as nat) } else { 0 }),
        decreases larger.len() - index,
    {
        let larger_limb: u64 = larger[index];
        let smaller_limb: u64 = if index < smaller.len() {
            smaller[index]
        } else {
            0
        };
        let taken: u128 = smaller_limb as u128 + if borrow {
            1u128
        } else {
            0u128
        };
        let available: u128 = larger_limb as u128;
        let (limb_out, next_borrow) = if available >= taken {
            ((available - taken) as u64, false)
        } else {
            ((available + 0x1_0000_0000_0000_0000u128 - taken) as u64, true)
        };
        proof {
            let p = pow_base(index as nat);
            lemma_value_push(difference@, limb_out);
            assert(limb(larger@, index as int) == larger_limb);
            assert(limb(smaller@, index as int) == smaller_limb);
            assert(pow_base((index + 1) as nat) == limb_base() * p);
            let b: int = if borrow { 1 } else { 0 };
            let nb: int = if next_borrow { 1 } else { 0 };
            assert(limb_out + taken == larger_limb + nb * limb_base());
            assert(limb_out * p + smaller_limb * p + b * p == larger_limb * p + nb * (limb_base()
                * p)) by (nonlinear_arith)
                requires
                    limb_out + smaller_limb + b == larger_limb + nb * limb_base(),
            ;
        }
        difference.push(limb_out);
        borrow = next_borrow;
        index = index + 1;
    }
    proof {
        lemma_prefix_value_stable(smaller@, larger.len() as nat);
        if borrow {
            lemma_prefix_value_bound(difference@, difference@.len());
            assert(false);
        }
    }
    difference
}

/// The biased exponent field of the binary64 bit pattern `bits`.
pub open spec fn binary64_exponent(bits: u64) -> u64 {
    (bits >> 52u64) & 0x7ffu64
}

/// `bits` is the pattern of a finite binary64 value.
pub open spec fn is_finite_binary64(bits: u64) -> bool {
    binary64_exponent(bits) != 0x7ffu64
}

/// The integer significand of the binary64 value with pattern `bits`: the
/// fraction, with the hidden bit for a normal value.
pub open spec fn binary64_significand(bits: u64) -> nat {
    let fraction = (bits & 0xf_ffff_ffff_ffffu64) as nat;
    if binary64_exponent(bits) == 0 {
        fraction
    } else {
        0x10_0000_0000_0000 + fraction
    }
}

/// The power of two that scales the significand to a multiple of `2^-1074`.
pub open spec fn binary64_shift(bits: u64) -> nat {
    if binary64_exponent(bits) == 0 {
        0
    } else {
        (binary64_exponent(bits) - 1) as nat
    }
}

/// The binary64 value with pattern `bits` as an integer multiple of
/// `2^-1074`.
pub open spec fn binary64_numerator(bits: u64) -> int {
    let m = binary64_significand(bits) * pow2(binary64_shift(bits));
    if bits >> 63u64 != 0 {
        -(m as int)
    } else {
        m as int
    }
}

/// `pow_base(n)` is `2^(64 n)`.
proof fn lemma_pow_base_is_pow2(n: nat)
    ensures
        pow_base(n) == pow2(64 * n),
    decreases n,
{
    if n == 0 {
        lemma2_to64();
    } else {
        lemma_pow_base_is_pow2((n - 1) as nat);
        lemma_pow2_adds(64, 64 * (n - 1) as nat);
        lemma2_to64();
        assert(64 + 64 * (n - 1) as nat == 64 * n);
    }
}

/// Limbs that are zero below `limb` and beyond `limb + 1` hold the value of
/// those two limbs.
proof fn lemma_two_limb_value(s: Seq<u64>, low: nat)
    requires
        s.len() == low + 2,
        forall|i: int| 0 <= i < low ==> s[i] == 0,
    ensures
        magnitude_value(s) == s[low as int] * pow_base(low) + s[low + 1int] * pow_base(low + 1),
{
    lemma_zero_prefix(s, low);
    assert(prefix_value(s, low + 1) == prefix_value(s, low) + limb(s, low as int) * pow_base(low));
    assert(prefix_value(s, low + 2) == prefix_value(s, low + 1) + limb(s, low + 1int) * pow_base(
        low + 1,
    ));
}

proof fn lemma_zero_prefix(s: Seq<u64>, n: nat)
    requires
        n <= s.len(),
        forall|i: int| 0 <= i < n ==> s[i] == 0,
    ensures
        prefix_value(s, n) == 0,
    decreases n,
{
    if n > 0 {
        lemma_zero_prefix(s, (n - 1) as nat);
        assert(s[n - 1] == 0);
        assert(limb(s, n - 1) == 0);
        assert(prefix_value(s, n) == prefix_value(s, (n - 1) as nat) + limb(s, n - 1) * pow_base((n - 1) as nat));
    }
}

/// The low limb `lo` and high limb `hi` of a significand below `2^53`
/// shifted left by `bit` hold its value times `2^bit`.
proof fn lemma_split_shift(significand: u64, bit: u64)
    requires
        significand < 0x20_0000_0000_0000,
        bit < 64,
    ensures
        bit == 0 ==> (significand << bit) == significand,
        bit > 0 ==> (significand << bit) as nat + (significand >> (64 - bit) as u64) as nat * limb_base()
            == significand * pow2(bit as nat),
        bit == 0 ==> significand as nat == significand * pow2(bit as nat),
{
    lemma2_to64();
    if bit == 0 {
        assert(significand << 0u64 == significand) by (bit_vector);
    } else {
        let k = (64 - bit) as u64;
        lemma_u64_pow2_no_overflow(k as nat);
        lemma_u64_shl_is_mul(1u64, k);
        let modulus: u64 = 1u64 << k;
        assert(modulus as nat == pow2(k as nat));
        vstd::bits::lemma_u64_low_bits_mask_is_mod(significand, k as nat);
        let low = significand & ((modulus - 1) as u64);
        assert(significand << bit == (significand & (((1u64 << ((64 - bit) as u64)) - 1) as u64)) << bit) by (bit_vector)
            requires
                0 < bit < 64,
        ;
        assert(low == significand % modulus);
        lemma_pow2_pos(bit as nat);
        lemma_pow2_adds(k as nat, bit as nat);
        assert(pow2(64) == limb_base()) by {
            lemma2_to64();
        }
        assert(k + bit == 64);
        assert(low < pow2(k as nat));
        assert(low * pow2(bit as nat) <= u64::MAX) by (nonlinear_arith)
            requires
                low < pow2(k as nat),
                pow2(k as nat) * pow2(bit as nat) == 0x1_0000_0000_0000_0000,
                pow2(bit as nat) > 0,
        ;
        lemma_u64_shl_is_mul(low, bit);
        lemma_u64_shr_is_div(significand, k);
        let high = significand as nat / pow2(k as nat);
        assert(significand == pow2(k as nat) * high + low) by {
            vstd::arithmetic::div_mod::lemma_fundamental_div_mod(significand as int, pow2(k as nat) as int);
        }
        assert(low * pow2(bit as nat) + high * limb_base() == significand * pow2(bit as nat)) by (nonlinear_arith)
            requires
                significand == pow2(k as nat) * high + low,
                pow2(k as nat) * pow2(bit as nat) == limb_base(),
        ;
    }
}

/// An exact signed integer multiple of `2^-1074`, the finest binary64 unit.
#[derive(Debug)]
pub struct ExactDyadic {
    negative: bool,
    magnitude: Vec<u64>,
}

impl ExactDyadic {
    /// The representation invariant: no most significant zero limb, and zero
    /// is never negative.
    #[verifier::type_invariant]
    pub closed spec fn well_formed(self) -> bool {
        &&& is_normalized_magnitude(self.magnitude@)
        &&& self.negative ==> self.magnitude@.len() > 0
    }

    /// The integer multiple of `2^-1074` that this value denotes.
    pub closed spec fn value(self) -> int {
        if self.negative {
            -magnitude_value(self.magnitude@)
        } else {
            magnitude_value(self.magnitude@) as int
        }
    }

    /// Whether the value is held with a negative sign.
    pub closed spec fn sign(self) -> bool {
        self.negative
    }

    /// The little-endian limbs of the absolute value.
    pub closed spec fn limbs(self) -> Seq<u64> {
        self.magnitude@
    }

    /// Every well-formed value is held in exactly one way.
    pub proof fn lemma_canonical(a: ExactDyadic, b: ExactDyadic)
        requires
            a.well_formed(),
            b.well_formed(),
            a.value() == b.value(),
        ensures
            a.sign() == b.sign(),
            a.limbs() == b.limbs(),
    {
        lemma_normalized_order(a.magnitude@, b.magnitude@);
        if a.magnitude@.len() > 0 {
            lemma_normalized_value_lower_bound(a.magnitude@);
        }
        if b.magnitude@.len() > 0 {
            lemma_normalized_value_lower_bound(b.magnitude@);
        }
        assert(a.magnitude@.len() == b.magnitude@.len());
        lemma_canonical_magnitudes(a.magnitude@, b.magnitude@);
    }

    /// The value zero.
    pub fn zero() -> (zero: Self)
        ensures
            zero.value() == 0,
    {
        Self { negative: false, magnitude: Vec::new() }
    }

    /// `-self`.
    pub fn negated(&self) -> (negated: Self)
        ensures
            negated.value() == -self.value(),
    {
        proof {
            use_type_invariant(self);
        }
        if self.magnitude.len() == 0 {
            return Self::zero();
        }
        Self { negative: !self.negative, magnitude: self.magnitude.clone() }
    }

    /// The exact sum `self + other`.
    pub fn add(&self, other: &Self) -> (sum: Self)
        ensures
            sum.value() == self.value() + other.value(),
    {
        proof {
            use_type_invariant(self);
            use_type_invariant(other);
        }
        if self.negative == other.negative {
            let magnitude = add_magnitudes(self.magnitude.as_slice(), other.magnitude.as_slice());
            return Self::normalized(self.negative, magnitude);
        }
        match compare_magnitudes(self.magnitude.as_slice(), other.magnitude.as_slice()) {
            Ordering::Greater => {
                proof {
                    lemma_normalized_order(self.magnitude@, other.magnitude@);
                }
                let magnitude = subtract_magnitudes(
                    self.magnitude.as_slice(),
                    other.magnitude.as_slice(),
                );
                Self::normalized(self.negative, magnitude)
            },
            Ordering::Less => {
                proof {
                    lemma_normalized_order(self.magnitude@, other.magnitude@);
                }
                let magnitude = subtract_magnitudes(
                    other.magnitude.as_slice(),
                    self.magnitude.as_slice(),
                );
                Self::normalized(other.negative, magnitude)
            },
            Ordering::Equal => Self::zero(),
        }
    }

    /// Whether `self > other`.
    pub fn is_greater_than(&self, other: &Self) -> (greater: bool)
        ensures
            greater == (self.value() > other.value()),
    {
        proof {
            use_type_invariant(self);
            use_type_invariant(other);
            if self.magnitude@.len() > 0 {
                lemma_normalized_value_lower_bound(self.magnitude@);
            }
            if other.magnitude@.len() > 0 {
                lemma_normalized_value_lower_bound(other.magnitude@);
            }
        }
        if self.negative != other.negative {
            return other.negative;
        }
        match compare_magnitudes(self.magnitude.as_slice(), other.magnitude.as_slice()) {
            Ordering::Greater => !self.negative,
            Ordering::Less => self.negative,
            Ordering::Equal => false,
        }
    }

    /// Whether `self > 0`.
    pub fn is_positive(&self) -> (positive: bool)
        ensures
            positive == (self.value() > 0),
    {
        proof {
            use_type_invariant(self);
            if self.magnitude@.len() > 0 {
                lemma_normalized_value_lower_bound(self.magnitude@);
            }
        }
        !self.negative && self.magnitude.len() != 0
    }

    /// The value of the finite binary64 number with bit pattern `bits`:
    /// its significand, with the hidden bit for a normal number, shifted to
    /// its place among the multiples of `2^-1074`. Both zeros give zero.
    pub fn from_binary64_bits(bits: u64) -> (value: Self)
        requires
            is_finite_binary64(bits),
        ensures
            value.value() == binary64_numerator(bits),
    {
        let negative = bits >> 63u64 != 0;
        let exponent = (bits >> 52u64) & 0x7ffu64;
        let fraction = bits & 0xf_ffff_ffff_ffffu64;
        proof {
            assert(exponent <= 0x7ff) by (bit_vector)
                requires
                    exponent == (bits >> 52u64) & 0x7ffu64,
            ;
            assert(fraction < 0x10_0000_0000_0000) by (bit_vector)
                requires
                    fraction == bits & 0xf_ffff_ffff_ffffu64,
            ;
            assert((0x10_0000_0000_0000u64 | fraction) == 0x10_0000_0000_0000u64 + fraction) by (bit_vector)
                requires
                    fraction < 0x10_0000_0000_0000u64,
            ;
        }
        let significand: u64 = if exponent == 0 {
            fraction
        } else {
            0x10_0000_0000_0000u64 | fraction
        };
        let shift: u64 = if exponent == 0 {
            0
        } else {
            exponent - 1
        };
        let limb = (shift / 64) as usize;
        let bit: u64 = shift % 64;
        let mut magnitude: Vec<u64> = Vec::new();
        let mut fill: usize = 0;
        while fill < limb + 2
            invariant
                limb <= 32,
                fill <= limb + 2,
                magnitude@.len() == fill,
                forall|i: int| 0 <= i < fill ==> magnitude@[i] == 0,
            decreases limb + 2 - fill,
        {
            magnitude.push(0);
            fill = fill + 1;
        }
        magnitude.set(limb, significand << bit);
        if bit != 0 {
            magnitude.set(limb + 1, significand >> (64 - bit));
        }
        proof {
            lemma_split_shift(significand, bit);
            lemma_two_limb_value(magnitude@, limb as nat);
            lemma_pow_base_is_pow2(limb as nat);
            lemma_pow_base_is_pow2(limb as nat + 1);
            lemma_pow2_adds(64 * limb as nat, bit as nat);
            lemma_pow2_adds(64 * limb as nat, 64);
            lemma2_to64();
            assert(shift == 64 * limb + bit);
            let b = pow2(64 * limb as nat);
            let lo = magnitude@[limb as int] as nat;
            let hi = magnitude@[limb + 1int] as nat;
            assert(lo + hi * limb_base() == significand * pow2(bit as nat));
            assert(magnitude_value(magnitude@) == lo * b + hi * (b * limb_base()));
            assert(magnitude_value(magnitude@) == significand * pow2(shift as nat)) by (nonlinear_arith)
                requires
                    magnitude_value(magnitude@) == lo * b + hi * (b * limb_base()),
                    lo + hi * limb_base() == significand * pow2(bit as nat),
                    pow2(shift as nat) == b * pow2(bit as nat),
            ;
            assert(significand == binary64_significand(bits));
            assert(shift == binary64_shift(bits));
        }
        Self::normalized(negative, magnitude)
    }

    /// The value with sign `negative` and the given limbs, after dropping most
    /// significant zero limbs.
    pub fn normalized(negative: bool, magnitude: Vec<u64>) -> (normalized: Self)
        ensures
            normalized.value() == (if negative {
                -magnitude_value(magnitude@)
            } else {
                magnitude_value(magnitude@) as int
            }),
    {
        let mut magnitude = magnitude;
        let ghost original = magnitude@;
        while magnitude.len() > 0 && magnitude[magnitude.len() - 1] == 0
            invariant
                magnitude_value(magnitude@) == magnitude_value(original),
            decreases magnitude.len(),
        {
            proof {
                lemma_value_drop_zero(magnitude@);
            }
            magnitude.pop();
        }
        let negative = negative && magnitude.len() != 0;
        Self { negative, magnitude }
    }

    /// The sign of the value: `true` exactly for values below zero.
    pub fn is_negative(&self) -> (negative: bool)
        ensures
            negative == (self.value() < 0),
    {
        proof {
            use_type_invariant(self);
            if self.magnitude@.len() > 0 {
                lemma_normalized_value_lower_bound(self.magnitude@);
            }
        }
        self.negative
    }

    /// The little-endian 64-bit limbs of the absolute value.
    pub fn magnitude(&self) -> (magnitude: &[u64])
        ensures
            magnitude_value(magnitude@) == (if self.value() < 0 {
                -self.value()
            } else {
                self.value()
            }),
            is_normalized_magnitude(magnitude@),
            magnitude@ == self.limbs(),
    {
        proof {
            use_type_invariant(self);
            if self.magnitude@.len() > 0 {
                lemma_normalized_value_lower_bound(self.magnitude@);
            }
        }
        self.magnitude.as_slice()
    }
}

proof fn lemma_canonical_magnitudes(a: Seq<u64>, b: Seq<u64>)
    requires
        a.len() == b.len(),
        magnitude_value(a) == magnitude_value(b),
    ensures
        a == b,
    decreases a.len(),
{
    if a.len() > 0 {
        let n = a.len();
        let k = (n - 1) as nat;
        if a.last() != b.last() {
            assert(limb(a, k as int) == a.last());
            assert(limb(b, k as int) == b.last());
            if a.last() < b.last() {
                lemma_prefix_value_first_difference(a, b, k, n);
            } else {
                lemma_prefix_value_first_difference(b, a, k, n);
            }
        } else {
            lemma_value_push(a.drop_last(), a.last());
            lemma_value_push(b.drop_last(), b.last());
            assert(a.drop_last().push(a.last()) == a);
            assert(b.drop_last().push(b.last()) == b);
            lemma_canonical_magnitudes(a.drop_last(), b.drop_last());
            assert(a =~= b);
        }
    } else {
        assert(a =~= b);
    }
}

} // verus!
