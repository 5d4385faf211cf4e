//! Binary floating-point numbers by their bit patterns.
//!
//! A [`Real`] is an IEEE 754 binary64 number given as its 64 bits. Every such
//! number is a multiple of 2^-1074, so its value is stated as an integer
//! count of that unit.

use vstd::prelude::*;
use vstd::arithmetic::power2::pow2;
#[allow(unused_imports)]
use vstd::arithmetic::power2::{
    lemma2_to64, lemma2_to64_rest, lemma_pow2_adds, lemma_pow2_pos, lemma_pow2_strictly_increases,
    lemma_pow2_unfold,
};

verus! {

/// 2^52: the weight of the exponent field.
pub const FRACTION: u64 = 0x10_0000_0000_0000;

/// 2^63: the weight of the sign bit.
pub const SIGN: u64 = 0x8000_0000_0000_0000;

/// A binary64 number.
#[derive(Debug, Clone, Copy, PartialEq, Eq, Structural)]
pub struct Real {
    pub bits: u64,
}

/// The number one, counted in units of 2^-1074.
pub open spec fn one() -> nat {
    pow2(1074)
}

/// The value, in units of 2^-1074, of a number whose bits but for the sign are
/// `magnitude`. Infinity counts as 2^1024.
pub open spec fn magnitude_units(magnitude: nat) -> nat {
    let exponent = magnitude / FRACTION as nat;
    let fraction = magnitude % FRACTION as nat;
    if exponent == 0 {
        fraction
    } else {
        (FRACTION as nat + fraction) * pow2((exponent - 1) as nat)
    }
}

impl Real {
    /// Whether the sign bit is set.
    pub open spec fn negative(self) -> bool {
        self.bits >= SIGN
    }

    /// The bits but for the sign.
    pub open spec fn magnitude(self) -> nat {
        (self.bits % SIGN) as nat
    }

    /// Whether this is neither a number nor an infinity.
    pub open spec fn nan(self) -> bool {
        self.magnitude() > 0x7ff0_0000_0000_0000
    }

    /// Whether this is a number.
    pub open spec fn finite(self) -> bool {
        self.magnitude() < 0x7ff0_0000_0000_0000
    }

    /// The value in units of 2^-1074.
    pub open spec fn units(self) -> int {
        if self.negative() {
            -magnitude_units(self.magnitude())
        } else {
            magnitude_units(self.magnitude()) as int
        }
    }

    /// Whether this number is at most `other`; nothing holds of a NaN.
    pub open spec fn at_most(self, other: Real) -> bool {
        !self.nan() && !other.nan() && self.units() <= other.units()
    }
}

/// Larger bits stand for larger values.
pub proof fn lemma_magnitude_increases(a: nat, b: nat)
    requires
        a < b,
    ensures
        magnitude_units(a) < magnitude_units(b),
{
    let n = FRACTION as nat;
    let ea = a / n;
    let eb = b / n;
    let fa = a % n;
    let fb = b % n;
    assert(a == ea * n + fa && b == eb * n + fb);
    assert(ea <= eb);
    if ea == eb {
        assert(fa < fb);
        if ea > 0 {
            lemma_pow2_pos((ea - 1) as nat);
            let p = pow2((ea - 1) as nat);
            assert((n + fa) * p < (n + fb) * p) by (nonlinear_arith)
                requires
                    fa < fb,
                    p > 0,
            ;
        }
    } else {
        lemma_pow2_pos((eb - 1) as nat);
        let q = pow2((eb - 1) as nat);
        assert(n * q <= (n + fb) * q) by (nonlinear_arith)
            requires
                fb >= 0,
                q > 0,
        ;
        if ea == 0 {
            assert(n <= n * q) by (nonlinear_arith)
                requires
                    q > 0,
            ;
        } else {
            lemma_pow2_pos((ea - 1) as nat);
            let p = pow2((ea - 1) as nat);
            lemma_pow2_unfold(ea);
            assert(pow2(ea) == 2 * p);
            if ea < eb - 1 {
                lemma_pow2_strictly_increases(ea, (eb - 1) as nat);
            }
            assert(2 * p <= q);
            assert((n + fa) * p < n * q) by (nonlinear_arith)
                requires
                    fa < n,
                    2 * p <= q,
                    p > 0,
                    n > 0,
            ;
        }
    }
}

/// Only zero has the value zero.
proof fn lemma_magnitude_zero(m: nat)
    ensures
        magnitude_units(0) == 0,
        m > 0 ==> magnitude_units(m) > 0,
{
    if m > 0 {
        lemma_magnitude_increases(0, m);
    }
}

impl Real {
    /// Tells whether this is neither a number nor an infinity.
    pub fn is_nan(&self) -> (res: bool)
        ensures
            res == self.nan(),
    {
        self.bits % SIGN > 0x7ff0_0000_0000_0000
    }

    /// Tells whether this is a number.
    pub fn is_finite(&self) -> (res: bool)
        ensures
            res == self.finite(),
    {
        self.bits % SIGN < 0x7ff0_0000_0000_0000
    }

    /// Tells whether this number is at most `other`.
    pub fn le(&self, other: &Real) -> (res: bool)
        ensures
            res == self.at_most(*other),
    {
        if self.is_nan() || other.is_nan() {
            return false;
        }
        let a: u64 = self.bits % SIGN;
        let b: u64 = other.bits % SIGN;
        proof {
            lemma_magnitude_zero(a as nat);
            lemma_magnitude_zero(b as nat);
            if a < b {
                lemma_magnitude_increases(a as nat, b as nat);
            } else if b < a {
                lemma_magnitude_increases(b as nat, a as nat);
            }
        }
        if self.bits >= SIGN {
            if other.bits >= SIGN {
                b <= a
            } else {
                true
            }
        } else if other.bits >= SIGN {
            a == 0 && b == 0
        } else {
            a <= b
        }
    }

    /// The lesser of two numbers; of a NaN and a number, the number.
    pub open spec fn smaller(self, other: Real) -> Real {
        if other.nan() || self.at_most(other) {
            self
        } else {
            other
        }
    }

    /// The greater of two numbers; of a NaN and a number, the number.
    pub open spec fn larger(self, other: Real) -> Real {
        if other.nan() || other.at_most(self) {
            self
        } else {
            other
        }
    }

    /// The lesser of two numbers; of a NaN and a number, the number.
    pub fn lesser(&self, other: &Real) -> (res: Real)
        ensures
            res == self.smaller(*other),
    {
        if other.is_nan() || self.le(other) {
            *self
        } else {
            *other
        }
    }

    /// The greater of two numbers; of a NaN and a number, the number.
    pub fn greater(&self, other: &Real) -> (res: Real)
        ensures
            res == self.larger(*other),
    {
        if other.is_nan() || other.le(self) {
            *self
        } else {
            *other
        }
    }
}

/// The number `±m * 2^exponent`, counted in units of 2^-1074.
fn assemble(negative: bool, m: u64, exponent: u64) -> (res: Real)
    requires
        m < 2 * FRACTION,
        52 <= exponent <= 2045,
    ensures
        res.finite(),
        res.negative() == negative,
        res.units() == (if negative {
            -(m * pow2(exponent as nat))
        } else {
            (m * pow2(exponent as nat)) as int
        }),
{
    let sign: u64 = if negative {
        SIGN
    } else {
        0
    };
    if m == 0 {
        return Real { bits: sign };
    }
    let mut k: u64 = m;
    let mut x: u64 = exponent;
    let ghost mut shift: nat = 0;
    proof {
        lemma2_to64();
        lemma2_to64_rest();
    }
    while k < FRACTION
        invariant
            0 < k < 2 * FRACTION,
            x + shift == exponent,
            exponent <= 2045,
            52 <= exponent,
            k >= pow2(shift),
            pow2(52) == FRACTION,
            k * pow2(x as nat) == m * pow2(exponent as nat),
        decreases 2 * FRACTION - k,
    {
        proof {
            if shift >= 52 {
                if shift > 52 {
                    lemma_pow2_strictly_increases(52, shift);
                }
                assert(false);
            }
            lemma_pow2_unfold(x as nat);
            lemma_pow2_unfold(shift + 1);
            let p = pow2((x - 1) as nat);
            assert((2 * k) * p == k * (2 * p)) by (nonlinear_arith);
            shift = shift + 1;
        }
        k = 2 * k;
        x = x - 1;
    }
    let bits: u64 = sign + (x + 1) * FRACTION + (k - FRACTION);
    proof {
        let magnitude = ((x + 1) * FRACTION + (k - FRACTION)) as nat;
        assert(magnitude < 0x7ff0_0000_0000_0000);
        assert(magnitude / FRACTION as nat == x + 1);
        assert(magnitude % FRACTION as nat == k - FRACTION);
        assert(bits % SIGN == magnitude);
    }
    Real { bits }
}

/// The value of a binary32 number in units of 2^-149, given its bits.
pub open spec fn single_units(bits: u32) -> int {
    let magnitude = (bits % 0x8000_0000) as nat;
    let exponent = magnitude / 0x80_0000;
    let fraction = magnitude % 0x80_0000;
    let units = if exponent == 0 {
        fraction
    } else {
        (0x80_0000 + fraction) * pow2((exponent - 1) as nat)
    };
    if bits >= 0x8000_0000 {
        -units
    } else {
        units as int
    }
}

/// Whether the bits of a binary32 number are those of a number.
pub open spec fn single_finite(bits: u32) -> bool {
    bits % 0x8000_0000 < 0x7f80_0000
}

/// Whether the bits of a binary32 number are those of a NaN.
pub open spec fn single_nan(bits: u32) -> bool {
    bits % 0x8000_0000 > 0x7f80_0000
}

impl Real {
    /// The number of an integer.
    pub fn from_int(v: i64) -> (res: Real)
        requires
            -0x20_0000_0000_0000 < v < 0x20_0000_0000_0000,
        ensures
            res.finite(),
            res.negative() == (v < 0),
            res.units() == v * one(),
    {
        if v < 0 {
            let a: u64 = (-v) as u64;
            let res = assemble(true, a, 1074);
            assert(-(a * pow2(1074)) == v * pow2(1074)) by (nonlinear_arith)
                requires
                    a == -v,
            ;
            res
        } else {
            assemble(false, v as u64, 1074)
        }
    }

    /// The number of a binary32 number, given its bits.
    pub fn from_single(bits: u32) -> (res: Real)
        ensures
            res.nan() == single_nan(bits),
            res.finite() == single_finite(bits),
            res.negative() == (bits >= 0x8000_0000),
            single_finite(bits) ==> res.units() == single_units(bits) * pow2(925),
    {
        let negative: bool = bits >= 0x8000_0000;
        let magnitude: u32 = bits % 0x8000_0000;
        let exponent: u64 = (magnitude / 0x80_0000) as u64;
        let fraction: u64 = (magnitude % 0x80_0000) as u64;
        if exponent == 255 {
            let sign: u64 = if negative {
                SIGN
            } else {
                0
            };
            let quiet: u64 = if fraction != 0 && fraction < 0x40_0000 {
                0x8_0000_0000_0000
            } else {
                0
            };
            return Real { bits: sign + 0x7ff0_0000_0000_0000 + fraction * 0x2000_0000 + quiet };
        }
        if exponent == 0 {
            let res = assemble(negative, fraction, 925);
            assert(-(fraction * pow2(925)) == (-fraction) * pow2(925)) by (nonlinear_arith);
            res
        } else {
            let m: u64 = 0x80_0000 + fraction;
            let res = assemble(negative, m, exponent + 924);
            proof {
                lemma_pow2_adds((exponent - 1) as nat, 925);
                let p = pow2((exponent - 1) as nat);
                let q = pow2(925);
                assert(m * (p * q) == (m * p) * q) by (nonlinear_arith);
                assert(-((m * p) * q) == (-(m * p)) * q) by (nonlinear_arith);
            }
            res
        }
    }
}

/// The integer part of a number, as far as it lies between 0 and 65535; the
/// nearer of the two where it does not, and 0 for a NaN.
pub open spec fn truncated(r: Real) -> u16 {
    if r.nan() || r.units() <= 0 {
        0
    } else if r.units() / one() as int >= 65535 {
        65535
    } else {
        (r.units() / one() as int) as u16
    }
}

/// `(k * 2^a) / 2^b` for `a <= b` is `k / 2^(b - a)`.
proof fn lemma_cancel_powers(k: nat, a: nat, b: nat)
    requires
        a <= b,
    ensures
        (k * pow2(a)) / pow2(b) == k / pow2((b - a) as nat),
{
    lemma_pow2_pos(a);
    lemma_pow2_pos(b);
    lemma_pow2_pos((b - a) as nat);
    lemma_pow2_adds(a, (b - a) as nat);
    let p = pow2(a) as int;
    let q = pow2((b - a) as nat) as int;
    vstd::arithmetic::div_mod::lemma_div_denominator(k as int * p, p, q);
    vstd::arithmetic::div_mod::lemma_div_multiples_vanish(k as int, p);
    assert(k as int * p == p * k as int) by (nonlinear_arith);
}

impl Real {
    /// The integer part of this number, limited to the range of `u16`.
    pub fn to_u16(&self) -> (res: u16)
        ensures
            res == truncated(*self),
    {
        let magnitude: u64 = self.bits % SIGN;
        proof {
            lemma_magnitude_zero(magnitude as nat);
        }
        if self.bits >= SIGN || self.is_nan() {
            return 0;
        }
        let exponent: u64 = magnitude / FRACTION;
        let k: u64 = FRACTION + magnitude % FRACTION;
        proof {
            lemma2_to64();
            lemma2_to64_rest();
            lemma_pow2_pos(1074);
        }
        if exponent < 1023 {
            proof {
                let limit = (1023 * FRACTION) as nat;
                lemma_magnitude_increases(magnitude as nat, limit);
                lemma_pow2_adds(52, 1022);
                assert(limit / FRACTION as nat == 1023 && limit % FRACTION as nat == 0);
                assert(magnitude_units(limit) == one());
                vstd::arithmetic::div_mod::lemma_basic_div(self.units(), one() as int);
            }
            return 0;
        }
        if exponent >= 1039 {
            proof {
                let limit = (1039 * FRACTION) as nat;
                if magnitude > limit {
                    lemma_magnitude_increases(limit, magnitude as nat);
                }
                assert(limit / FRACTION as nat == 1039 && limit % FRACTION as nat == 0);
                lemma_pow2_adds(52, 1038);
                assert(magnitude_units(limit) == pow2(1090));
                lemma_pow2_adds(16, 1074);
                vstd::arithmetic::div_mod::lemma_div_is_ordered(
                    65536 * one() as int,
                    self.units(),
                    one() as int,
                );
                vstd::arithmetic::div_mod::lemma_div_multiples_vanish(65536, one() as int);
                assert(one() as int * 65536 == 65536 * one() as int) by (nonlinear_arith);
            }
            return 65535;
        }
        let shift: u64 = 1075 - exponent;
        let res: u64 = k >> shift;
        proof {
            lemma_cancel_powers(k as nat, (exponent - 1) as nat, 1074);
            vstd::bits::lemma_u64_shr_is_div(k, shift);
            lemma_pow2_pos(shift as nat);
            if shift > 37 {
                lemma_pow2_strictly_increases(37, shift as nat);
            }
            vstd::arithmetic::div_mod::lemma_div_is_ordered_by_denominator(
                k as int,
                pow2(37) as int,
                pow2(shift as nat) as int,
            );
        }
        res as u16
    }
}

/// The number of binary digits of `n`.
pub open spec fn bit_len(n: nat) -> nat
    decreases n,
{
    if n == 0 {
        0
    } else {
        1 + bit_len(n / 2)
    }
}

/// The integer nearest to `a / b`; of two equally near, the even one.
pub open spec fn half_even(a: nat, b: nat) -> nat {
    let q = a / b;
    let r = a % b;
    if 2 * r < b || (2 * r == b && q % 2 == 0) {
        q
    } else {
        q + 1
    }
}

/// `n` rounded to 53 significant binary digits, to the even neighbour where
/// two are equally near. Counted in units of 2^-1074 this is how binary64
/// arithmetic rounds a product.
pub open spec fn nearest(n: nat) -> nat {
    if bit_len(n) <= 53 {
        n
    } else {
        half_even(n, pow2((bit_len(n) - 53) as nat)) * pow2((bit_len(n) - 53) as nat)
    }
}

/// What a number between 0 and 1 becomes on the scale from 0 to 65535: its
/// binary64 product with 65535, rounded to an integer, halves upwards.
pub open spec fn unit_scaled(r: Real) -> nat {
    ((2 * nearest((r.units() * 65535) as nat) + one()) / (2 * one())) as nat
}

/// `n` lies between the powers of two that its length in digits tells.
pub proof fn lemma_bit_len_bounds(n: nat)
    requires
        n > 0,
    ensures
        bit_len(n) > 0,
        pow2((bit_len(n) - 1) as nat) <= n < pow2(bit_len(n)),
    decreases n,
{
    lemma2_to64();
    if n / 2 > 0 {
        lemma_bit_len_bounds(n / 2);
        lemma_pow2_unfold(bit_len(n));
        lemma_pow2_unfold(bit_len(n / 2));
    } else {
        assert(n == 1);
        assert(bit_len(0) == 0);
        assert(bit_len(1) == 1 + bit_len(0));
    }
}

/// The powers of two around `n` tell its length in digits.
pub proof fn lemma_bit_len(n: nat, len: nat)
    requires
        len > 0,
        pow2((len - 1) as nat) <= n < pow2(len),
    ensures
        bit_len(n) == len,
{
    lemma_pow2_pos((len - 1) as nat);
    lemma_bit_len_bounds(n);
    if bit_len(n) < len {
        if bit_len(n) < len - 1 {
            lemma_pow2_strictly_increases(bit_len(n), (len - 1) as nat);
        }
    } else if bit_len(n) > len {
        if len < bit_len(n) - 1 {
            lemma_pow2_strictly_increases(len, (bit_len(n) - 1) as nat);
        }
    }
}

/// Rounding a quotient does not depend on a common factor.
pub proof fn lemma_half_even_scales(a: nat, b: nat, c: nat)
    requires
        b > 0,
        c > 0,
    ensures
        half_even(a * c, b * c) == half_even(a, b),
{
    let q = a / b;
    let r = a % b;
    vstd::arithmetic::div_mod::lemma_fundamental_div_mod(a as int, b as int);
    assert(0 <= r < b);
    assert(b * c > 0) by (nonlinear_arith)
        requires
            b > 0,
            c > 0,
    ;
    assert(a * c == q * (b * c) + r * c) by (nonlinear_arith)
        requires
            a == b * q + r,
    ;
    assert(0 <= r * c < b * c) by (nonlinear_arith)
        requires
            0 <= r < b,
            c > 0,
    ;
    vstd::arithmetic::div_mod::lemma_fundamental_div_mod_converse(
        (a * c) as int,
        (b * c) as int,
        q as int,
        (r * c) as int,
    );
    assert(2 * (r * c) < b * c <==> 2 * r < b) by (nonlinear_arith)
        requires
            c > 0,
    ;
    assert(2 * (r * c) == b * c <==> 2 * r == b) by (nonlinear_arith)
        requires
            c > 0,
    ;
}

/// Rounding to 53 digits commutes with a factor that is a power of two.
pub proof fn lemma_nearest_scales(n: nat, e: nat)
    requires
        bit_len(n) > 53,
    ensures
        nearest(n * pow2(e)) == nearest(n) * pow2(e),
{
    let l = bit_len(n);
    let d = (l - 53) as nat;
    lemma_bit_len_bounds(n);
    lemma_pow2_pos(e);
    lemma_pow2_pos(d);
    lemma_pow2_adds((l - 1) as nat, e);
    lemma_pow2_adds(l, e);
    lemma_pow2_adds(d, e);
    let p = pow2(e);
    assert(pow2((l - 1) as nat) * p <= n * p < pow2(l) * p) by (nonlinear_arith)
        requires
            pow2((l - 1) as nat) <= n < pow2(l),
            p > 0,
    ;
    lemma_bit_len(n * p, l + e);
    assert((l + e - 53) as nat == d + e);
    lemma_half_even_scales(n, pow2(d), p);
    assert(half_even(n, pow2(d)) * (pow2(d) * p) == (half_even(n, pow2(d)) * pow2(d)) * p)
        by (nonlinear_arith);
}

/// Rounding at most doubles.
proof fn lemma_nearest_bound(n: nat)
    ensures
        nearest(n) <= 2 * n,
{
    if bit_len(n) > 53 {
        lemma_bit_len_bounds(n);
        let b = pow2((bit_len(n) - 53) as nat);
        lemma_pow2_pos((bit_len(n) - 53) as nat);
        if bit_len(n) - 53 < bit_len(n) - 1 {
            lemma_pow2_strictly_increases(
                (bit_len(n) - 53) as nat,
                (bit_len(n) - 1) as nat,
            );
        }
        assert(b <= n);
        vstd::arithmetic::div_mod::lemma_fundamental_div_mod(n as int, b as int);
        let q = n / b;
        assert((q + 1) * b <= 2 * n && q * b <= 2 * n) by (nonlinear_arith)
            requires
                b * q <= n,
                b <= n,
        ;
    }
}

/// Rounding a quotient up gives at most any integer that is not below it.
proof fn lemma_half_even_bound(a: nat, b: nat, m: nat)
    requires
        b > 0,
        a <= m * b,
    ensures
        half_even(a, b) <= m,
        half_even(a, b) <= a / b + 1,
{
    vstd::arithmetic::div_mod::lemma_fundamental_div_mod(a as int, b as int);
    let q = a / b;
    let r = a % b;
    if q >= m {
        assert(q == m && r == 0) by (nonlinear_arith)
            requires
                a == b * q + r,
                a <= m * b,
                q >= m,
                b > 0,
                r >= 0,
        ;
    }
}

/// A shifted one is a power of two.
proof fn lemma_step(shift: u64)
    requires
        shift <= 62,
    ensures
        1u64 << shift == pow2(shift as nat),
        pow2(shift as nat) <= 0x4000_0000_0000_0000,
        pow2(shift as nat) > 0,
{
    lemma2_to64_rest();
    lemma_pow2_pos(shift as nat);
    if shift < 62 {
        lemma_pow2_strictly_increases(shift as nat, 62);
    }
    vstd::bits::lemma_u64_shl_is_mul(1, shift);
}

/// How the scaled value of a number with the significand `k` comes about:
/// `drop` digits of the product are rounded away, and `shift` digits of what is
/// left stand behind the point.
proof fn lemma_unit_scaled(r: Real, k: nat, x: nat, drop: nat, shift: nat, rounded: nat)
    requires
        !r.nan(),
        r.units() == k * pow2(x),
        r.units() <= one(),
        FRACTION <= k < 2 * FRACTION,
        drop + x + shift == 1074,
        drop == (if k * 65535 >= 0x10_0000_0000_0000_0000 {
            16nat
        } else {
            15nat
        }),
        rounded == half_even(k * 65535, pow2(drop)),
    ensures
        unit_scaled(r) == (2 * rounded + pow2(shift)) / (2 * pow2(shift)),
        unit_scaled(r) <= 65535,
        rounded <= 65535 * pow2(shift),
{
    lemma2_to64();
    lemma2_to64_rest();
    lemma_pow2_pos(x);
    lemma_pow2_pos(drop);
    lemma_pow2_pos(shift);
    let product = k * 65535;
    let px = pow2(x);
    let pd = pow2(drop);
    let ps = pow2(shift);
    lemma_pow2_adds(4, 64);
    lemma_pow2_adds(5, 64);
    lemma_pow2_adds(3, 64);
    lemma_bit_len(product, drop + 53);
    assert(nearest(product) == rounded * pd);
    lemma_nearest_scales(product, x);
    assert((k * px) * 65535 == product * px) by (nonlinear_arith)
        requires
            product == k * 65535,
    ;
    lemma_pow2_adds(drop, x);
    lemma_pow2_adds(shift, drop + x);
    let c = pd * px;
    assert(c > 0) by (nonlinear_arith)
        requires
            c == pd * px,
            pd > 0,
            px > 0,
    ;
    assert(one() == ps * c);
    assert(nearest(product * px) == rounded * c) by (nonlinear_arith)
        requires
            nearest(product * px) == (rounded * pd) * px,
            c == pd * px,
    ;
    let a = 2 * rounded + ps;
    let b = 2 * ps;
    assert(2 * (rounded * c) + ps * c == c * a && 2 * (ps * c) == c * b) by (nonlinear_arith)
        requires
            a == 2 * rounded + ps,
            b == 2 * ps,
    ;
    vstd::arithmetic::div_mod::lemma_div_denominator((c * a) as int, c as int, b as int);
    assert(a * c == c * a) by (nonlinear_arith);
    vstd::arithmetic::div_mod::lemma_div_multiples_vanish(a as int, c as int);
    assert(unit_scaled(r) == a / b);
    assert(k <= ps * pd) by (nonlinear_arith)
        requires
            k * px <= ps * (pd * px),
            px > 0,
    ;
    assert(product <= (65535 * ps) * pd) by (nonlinear_arith)
        requires
            k <= ps * pd,
            product == k * 65535,
    ;
    lemma_half_even_bound(product, pd, 65535 * ps);
    assert(a <= 65535 * b + ps);
    vstd::arithmetic::div_mod::lemma_div_is_ordered(a as int, 65535 * b + ps as int, b as int);
    assert((65535 * b + ps) as int / b as int == 65535) by {
        vstd::arithmetic::div_mod::lemma_fundamental_div_mod_converse(
            65535 * b + ps as int,
            b as int,
            65535,
            ps as int,
        );
    }
}

impl Real {
    /// Scales a number between 0 and 1 to the range of `u16`.
    pub fn unit_to_u16(&self) -> (res: u16)
        requires
            !self.nan(),
            0 <= self.units() <= one(),
        ensures
            res == unit_scaled(*self),
    {
        let magnitude: u64 = self.bits % SIGN;
        let exponent: u64 = magnitude / FRACTION;
        proof {
            lemma2_to64();
            lemma2_to64_rest();
            lemma_magnitude_zero(magnitude as nat);
            lemma_pow2_pos(1074);
            assert(self.units() == magnitude_units(magnitude as nat));
        }
        if exponent < 1000 {
            proof {
                let limit = (1000 * FRACTION) as nat;
                lemma_magnitude_increases(magnitude as nat, limit);
                lemma_pow2_adds(52, 999);
                assert(limit / FRACTION as nat == 1000 && limit % FRACTION as nat == 0);
                assert(magnitude_units(limit) == pow2(1051));
                let p = (self.units() * 65535) as nat;
                lemma_nearest_bound(p);
                lemma_pow2_adds(23, 1051);
                assert(one() == 0x80_0000 * pow2(1051));
                assert(2 * nearest(p) + one() < 2 * one());
                vstd::arithmetic::div_mod::lemma_basic_div(
                    2 * nearest(p) + one() as int,
                    2 * one() as int,
                );
            }
            return 0;
        }
        let k: u64 = FRACTION + magnitude % FRACTION;
        let ghost x: nat = (exponent - 1) as nat;
        proof {
            let limit = (1023 * FRACTION) as nat;
            lemma_pow2_adds(52, 1022);
            assert(limit / FRACTION as nat == 1023 && limit % FRACTION as nat == 0);
            if magnitude > limit {
                lemma_magnitude_increases(limit, magnitude as nat);
            }
            assert(magnitude <= limit);
        }
        let product: u128 = k as u128 * 65535;
        let drop: u32 = if product >= 0x10_0000_0000_0000_0000 {
            16
        } else {
            15
        };
        let half: u128 = if drop == 16 {
            0x8000
        } else {
            0x4000
        };
        let q: u128 = product / (2 * half);
        let r: u128 = product % (2 * half);
        let rounded: u128 = if r < half || (r == half && q % 2 == 0) {
            q
        } else {
            q + 1
        };
        let shift: u64 = 1075 - drop as u64 - exponent;
        let step: u64 = 1u64 << shift;
        proof {
            lemma_step(shift);
            lemma_unit_scaled(*self, k as nat, x, drop as nat, shift as nat, rounded as nat);
        }
        ((2 * rounded + step as u128) / (2 * step as u128)) as u16
    }
}

/// Whether the integer part of a number is `n`, for a number that is not
/// negative: the number is at least `n` and less than `n + 1`.
pub open spec fn whole_part(v: Real, n: int) -> bool {
    n * one() <= v.units() < (n + 1) * one()
}

/// The integer part of a number from 0 up to 65535 is taken; a number below is
/// taken for 0, and so is a NaN, and one above for 65535.
pub proof fn lemma_truncated(v: Real)
    ensures
        v.nan() || v.units() <= 0 ==> truncated(v) == 0,
        !v.nan() && v.units() >= 65535 * one() ==> truncated(v) == 65535,
        !v.nan() && 0 <= v.units() < 65536 * one() ==> whole_part(v, truncated(v) as int),
{
    lemma_pow2_pos(1074);
    let d = one() as int;
    let u = v.units();
    vstd::arithmetic::div_mod::lemma_fundamental_div_mod(u, d);
    let q = u / d;
    let r = u % d;
    assert(d * q == q * d && (q + 1) * d == q * d + d) by (nonlinear_arith);
    if !v.nan() && u >= 65535 * d {
        assert(q >= 65535) by (nonlinear_arith)
            requires
                u == d * q + r,
                0 <= r < d,
                u >= 65535 * d,
        ;
    }
    if !v.nan() && 0 < u < 65536 * d {
        assert(0 <= q <= 65535) by (nonlinear_arith)
            requires
                u == d * q + r,
                0 <= r < d,
                0 < u < 65536 * d,
        ;
    }
}

/// Rounding a quotient changes it by at most a half, and where it is a half the
/// result is even.
pub proof fn lemma_half_even_near(a: nat, b: nat)
    requires
        b > 0,
    ensures
        -b <= 2 * (half_even(a, b) * b - a) <= b,
        2 * (half_even(a, b) * b - a) == b || 2 * (half_even(a, b) * b - a) == -b ==> half_even(a, b)
            % 2 == 0,
{
    vstd::arithmetic::div_mod::lemma_fundamental_div_mod(a as int, b as int);
    let q = a / b;
    let r = a % b;
    assert(b * q == q * b && (q + 1) * b == q * b + b) by (nonlinear_arith);
}

/// Rounding to 53 digits changes a number of at most `len` digits by at most
/// half the last digit that is kept.
pub proof fn lemma_nearest_near(n: nat, len: nat)
    requires
        len >= 53,
        n < pow2(len),
    ensures
        -pow2((len - 53) as nat) <= 2 * (nearest(n) - n) <= pow2((len - 53) as nat),
{
    lemma_pow2_pos((len - 53) as nat);
    if bit_len(n) > 53 {
        lemma_bit_len_bounds(n);
        if bit_len(n) > len {
            if len < bit_len(n) - 1 {
                lemma_pow2_strictly_increases(len, (bit_len(n) - 1) as nat);
            }
            assert(false);
        }
        let d = (bit_len(n) - 53) as nat;
        lemma_pow2_pos(d);
        lemma_half_even_near(n, pow2(d));
        if d < len - 53 {
            lemma_pow2_strictly_increases(d, (len - 53) as nat);
        }
    }
}

/// A number of at most 53 digits with zeros behind them is not rounded.
pub proof fn lemma_nearest_exact(m: nat, e: nat)
    requires
        m < pow2(53),
    ensures
        nearest(m * pow2(e)) == m * pow2(e),
{
    let n = m * pow2(e);
    if bit_len(n) > 53 {
        lemma_bit_len_bounds(n);
        lemma_pow2_adds(53, e);
        lemma_pow2_pos(e);
        assert(n < pow2(53 + e)) by (nonlinear_arith)
            requires
                n == m * pow2(e),
                m < pow2(53),
                pow2(e) > 0,
                pow2(53) * pow2(e) == pow2(53 + e),
        ;
        if bit_len(n) > 53 + e {
            if 53 + e < bit_len(n) - 1 {
                lemma_pow2_strictly_increases(53 + e, (bit_len(n) - 1) as nat);
            }
            assert(false);
        }
        let d = (bit_len(n) - 53) as nat;
        lemma_pow2_pos(d);
        lemma_pow2_adds(d, (e - d) as nat);
        let b = pow2(d);
        let q = m * pow2((e - d) as nat);
        assert(n == q * b) by (nonlinear_arith)
            requires
                n == m * pow2(e),
                pow2(e) == b * pow2((e - d) as nat),
                q == m * pow2((e - d) as nat),
        ;
        vstd::arithmetic::div_mod::lemma_fundamental_div_mod_converse(
            n as int,
            b as int,
            q as int,
            0,
        );
    }
}

/// Whether an integer is nearest to the 65535-fold of a number, but for the
/// rounding of the product, which moves it by at most 2^-38.
pub open spec fn scaled_near(v: Real, n: int) -> bool {
    -(one() + pow2(1037)) <= 2 * (n * one() - 65535 * v.units()) <= one() + pow2(1037)
}

/// Whether an integer is nearest to the 65535-fold of a number as that is rounded
/// to 53 digits; of two equally near it is the greater.
pub open spec fn rounded_near(v: Real, n: int) -> bool {
    (2 * n - 1) * one() <= 2 * nearest((65535 * v.units()) as nat) < (2 * n + 1) * one()
}

/// A number from 0 to 1 becomes the integer nearest to its 65535-fold, as the
/// product is rounded: nothing becomes 0 and one becomes 65535. A product that
/// lies halfway between two integers becomes the greater.
pub proof fn lemma_unit_scaled_near(v: Real)
    requires
        !v.nan(),
        0 <= v.units() <= one(),
    ensures
        scaled_near(v, unit_scaled(v) as int),
        rounded_near(v, unit_scaled(v) as int),
        unit_scaled(v) <= 65535,
        v.units() == 0 ==> unit_scaled(v) == 0,
        v.units() == one() ==> unit_scaled(v) == 65535,
        forall|k: int|
            2 * (65535 * v.units()) == (2 * k + 1) * one() ==> unit_scaled(v) == #[trigger] (k + 1),
{
    lemma_pow2_pos(1074);
    lemma_pow2_adds(16, 1074);
    lemma_pow2_adds(37, 1037);
    lemma2_to64();
    lemma2_to64_rest();
    let d = one() as int;
    let n = (v.units() * 65535) as nat;
    assert(n == 65535 * v.units());
    lemma_nearest_near(n, 1090);
    let a = 2 * nearest(n) + d;
    vstd::arithmetic::div_mod::lemma_fundamental_div_mod(a, 2 * d);
    let c = a / (2 * d);
    assert((2 * d) * c == 2 * (c * d)) by (nonlinear_arith);
    assert((2 * c - 1) * d == 2 * (c * d) - d && (2 * c + 1) * d == 2 * (c * d) + d)
        by (nonlinear_arith);
    assert(c >= 0) by (nonlinear_arith)
        requires
            a == (2 * d) * c + a % (2 * d),
            a >= 0,
            a % (2 * d) < 2 * d,
            d > 0,
    ;
    assert(c <= 65535) by (nonlinear_arith)
        requires
            2 * (c * d) <= 2 * (65535 * d) + d + pow2(1037),
            d == 0x20_0000_0000 * pow2(1037),
            d > 0,
    ;
    if v.units() == 0 {
        assert(nearest(0) == 0);
        assert(c == 0) by (nonlinear_arith)
            requires
                d == (2 * d) * c + a % (2 * d),
                c >= 0,
                d > 0,
                0 <= a % (2 * d),
        ;
    }
    if v.units() == d {
        assert(c >= 65535) by (nonlinear_arith)
            requires
                2 * (c * d) >= 2 * (65535 * d) - d - pow2(1037),
                d == 0x20_0000_0000 * pow2(1037),
                d > 0,
        ;
    }
    assert forall|k: int| 2 * (65535 * v.units()) == (2 * k + 1) * one() implies unit_scaled(v)
        == #[trigger] (k + 1) by {
        assert(0 <= k < 65536) by (nonlinear_arith)
            requires
                2 * (65535 * v.units()) == (2 * k + 1) * d,
                0 <= v.units() <= d,
                d > 0,
        ;
        lemma_pow2_unfold(1074);
        let m = (2 * k + 1) as nat;
        assert(n == m * pow2(1073)) by (nonlinear_arith)
            requires
                2 * n == m * d,
                d == 2 * pow2(1073),
        ;
        lemma_nearest_exact(m, 1073);
        assert(a == (2 * d) * (k + 1)) by (nonlinear_arith)
            requires
                a == 2 * n + d,
                2 * n == (2 * k + 1) * d,
        ;
        assert((2 * d) * (k + 1) == (k + 1) * (2 * d) + 0) by (nonlinear_arith);
        vstd::arithmetic::div_mod::lemma_fundamental_div_mod_converse(a, 2 * d, k + 1, 0);
    }
}

/// The lesser of two numbers is one of them and at most either, and the greater
/// is one of them and at least either. A NaN gives way to the other.
pub proof fn lemma_lesser_greater(a: Real, b: Real)
    ensures
        a.smaller(b) == a || a.smaller(b) == b,
        a.larger(b) == a || a.larger(b) == b,
        !a.nan() && !b.nan() ==> a.smaller(b).units() <= a.units() && a.smaller(b).units()
            <= b.units() && a.larger(b).units() >= a.units() && a.larger(b).units() >= b.units(),
        a.nan() ==> a.smaller(b) == b || b.nan(),
        a.nan() ==> a.larger(b) == b || b.nan(),
        b.nan() ==> a.smaller(b) == a && a.larger(b) == a,
{
}

/// A number with the sign bit set is not more than zero and one without it not
/// less; among numbers without the sign bit more bits are more, and among those
/// with it less. Only the two zeros are zero, and one is where it stands in the
/// format.
pub proof fn lemma_order_of_bits(a: Real, b: Real)
    requires
        !a.nan(),
        !b.nan(),
    ensures
        a.bits < 0x8000_0000_0000_0000 ==> a.units() >= 0,
        a.bits >= 0x8000_0000_0000_0000 ==> a.units() <= 0,
        a.units() == 0 <==> a.bits == 0 || a.bits == 0x8000_0000_0000_0000,
        a.bits == 0x3ff0_0000_0000_0000 ==> a.units() == one(),
        b.bits < 0x8000_0000_0000_0000 && a.bits < b.bits ==> a.units() < b.units(),
        a.bits >= 0x8000_0000_0000_0000 && a.bits < b.bits ==> b.units() < a.units(),
{
    lemma_magnitude_zero(a.magnitude());
    lemma_magnitude_zero(b.magnitude());
    if a.magnitude() < b.magnitude() {
        lemma_magnitude_increases(a.magnitude(), b.magnitude());
    }
    if a.bits == 0x3ff0_0000_0000_0000 {
        lemma2_to64_rest();
        lemma_pow2_adds(52, 1022);
        assert(a.magnitude() == 0x3ff0_0000_0000_0000);
        assert(a.magnitude() / FRACTION as nat == 1023 && a.magnitude() % FRACTION as nat == 0);
    }
}

/// Zero bits are zero, and the next larger bits stand for the next larger number:
/// it lies 2^-1074 above for the first 2^53 of them, and twice as far from each
/// power of two on.
pub proof fn lemma_next_number(magnitude: nat)
    ensures
        magnitude_units(0) == 0,
        magnitude < 0x20_0000_0000_0000 ==> magnitude_units(magnitude + 1) == magnitude_units(
            magnitude,
        ) + 1,
        magnitude >= 0x10_0000_0000_0000 ==> magnitude_units(magnitude + 1) == magnitude_units(
            magnitude,
        ) + pow2((magnitude / 0x10_0000_0000_0000 - 1) as nat),
{
    lemma2_to64();
    let n = FRACTION as nat;
    let e = magnitude / n;
    let f = magnitude % n;
    if e > 0 {
        let p = pow2((e - 1) as nat);
        assert((n + f + 1) * p == (n + f) * p + p) by (nonlinear_arith);
        if magnitude < 2 * n {
            assert(e == 1);
        }
        if f == n - 1 {
            assert((magnitude + 1) / n == e + 1 && (magnitude + 1) % n == 0);
            lemma_pow2_unfold(e);
            assert((n + f + 1) * p == n * (2 * p)) by (nonlinear_arith)
                requires
                    f == n - 1,
            ;
        } else {
            assert((magnitude + 1) / n == e && (magnitude + 1) % n == f + 1);
        }
    } else if f == n - 1 {
        assert((magnitude + 1) / n == 1 && (magnitude + 1) % n == 0);
        assert(n * pow2(0) == n);
    } else {
        assert((magnitude + 1) / n == 0 && (magnitude + 1) % n == f + 1);
    }
}

/// Zero bits of a binary32 number are zero, the next larger bits stand for the
/// next larger number, which lies 2^-149 above for the first 2^24 of them and
/// twice as far from each power of two on, and the sign bit turns the sign. The
/// bits of one stand for 2^149 times 2^-149.
pub proof fn lemma_next_single(bits: u32)
    requires
        bits < 0x7fff_ffff,
    ensures
        single_units(0) == 0,
        single_units(0x3f80_0000) == pow2(149),
        bits < 0x100_0000 ==> single_units((bits + 1) as u32) == single_units(bits) + 1,
        bits >= 0x80_0000 ==> single_units((bits + 1) as u32) == single_units(bits) + pow2(
            (bits as nat / 0x80_0000 - 1) as nat,
        ),
        single_units((bits + 0x8000_0000) as u32) == -single_units(bits),
{
    lemma2_to64();
    lemma_pow2_adds(23, 126);
    let n = 0x80_0000nat;
    let m = bits as nat;
    let e = m / n;
    let f = m % n;
    assert(bits % 0x8000_0000 == bits && (bits + 1) as u32 % 0x8000_0000 == bits + 1);
    assert((bits + 0x8000_0000) as u32 % 0x8000_0000 == bits);
    if e > 0 {
        let p = pow2((e - 1) as nat);
        assert((n + f + 1) * p == (n + f) * p + p) by (nonlinear_arith);
        if f == n - 1 {
            assert((m + 1) / n == e + 1 && (m + 1) % n == 0);
            lemma_pow2_unfold(e);
            assert((n + f + 1) * p == n * (2 * p)) by (nonlinear_arith)
                requires
                    f == n - 1,
            ;
        } else {
            assert((m + 1) / n == e && (m + 1) % n == f + 1);
        }
    } else if f == n - 1 {
        assert((m + 1) / n == 1 && (m + 1) % n == 0);
    } else {
        assert((m + 1) / n == 0 && (m + 1) % n == f + 1);
    }
    assert(single_units(0x3f80_0000) == 0x80_0000 * pow2(126)) by {
        assert(0x3f80_0000u32 % 0x8000_0000 == 0x3f80_0000);
        assert(0x3f80_0000nat / 0x80_0000 == 127 && 0x3f80_0000nat % 0x80_0000 == 0);
    }
}

/// What comes of rounding to 53 digits has 53 digits at most, with zeros behind
/// them: it is the `q`-fold of 2^`e`. So rounding it again changes nothing.
pub proof fn lemma_nearest_digits(n: nat) -> (res: (nat, nat))
    ensures
        res.0 < 0x20_0000_0000_0000,
        nearest(n) == res.0 * pow2(res.1),
        nearest(nearest(n)) == nearest(n),
{
    lemma2_to64();
    lemma2_to64_rest();
    let len = bit_len(n);
    let res = if len <= 53 {
        if n > 0 {
            lemma_bit_len_bounds(n);
            if len < 53 {
                lemma_pow2_strictly_increases(len, 53);
            }
        }
        assert(n * pow2(0) == n);
        (n, 0nat)
    } else {
        let d = (len - 53) as nat;
        let b = pow2(d);
        lemma_bit_len_bounds(n);
        lemma_pow2_pos(d);
        lemma_pow2_adds(53, d);
        assert(n <= 0x20_0000_0000_0000 * b);
        lemma_half_even_bound(n, b, 0x20_0000_0000_0000);
        let q = half_even(n, b);
        if q == 0x20_0000_0000_0000 {
            assert(1 * pow2(53 + d) == q * b);
            (1nat, 53 + d)
        } else {
            (q, d)
        }
    };
    lemma_nearest_exact(res.0, res.1);
    res
}

/// Where a number lies halfway between two of 53 digits, the one that it is rounded
/// to is even in its last digit.
pub proof fn lemma_nearest_tie(n: nat)
    requires
        bit_len(n) > 53,
        ({
            let step = pow2((bit_len(n) - 53) as nat);
            2 * (nearest(n) - n) == step || 2 * (n - nearest(n)) == step
        }),
    ensures
        exists|q: nat| q % 2 == 0 && nearest(n) == #[trigger] (q * pow2((bit_len(n) - 53) as nat)),
{
    let step = pow2((bit_len(n) - 53) as nat);
    lemma_pow2_pos((bit_len(n) - 53) as nat);
    lemma_half_even_near(n, step);
    let q = half_even(n, step);
    assert(q % 2 == 0 && nearest(n) == q * step);
}

} // verus!
