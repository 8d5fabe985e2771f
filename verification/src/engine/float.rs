//! IEEE 754 binary arithmetic on bit patterns.
//!
//! Results must be bit-identical on every machine, so arithmetic is done on the bits with
//! integers, and each operation is stated against the exact real result: the answer is the
//! representable number nearest to it, ties going to the even bit pattern.
//!
//! # Units
//!
//! Every finite number of a width is a whole multiple of that width's smallest positive number.
//! Counting in that unit makes magnitudes natural numbers: [`units`] of a bit pattern is its
//! significand times a power of two, and consecutive bit patterns have increasing units. The
//! pattern of infinity continues the series, which is what makes overflow an ordinary rounding.
//!
//! # NaN
//!
//! An operation whose result is not a number returns the width's canonical quiet NaN. The
//! sign operations `abs`, `neg` and `copysign` only move the sign bit and keep a payload.
use vstd::arithmetic::div_mod::{
    lemma_div_is_ordered, lemma_fundamental_div_mod, lemma_fundamental_div_mod_converse,
};
use vstd::arithmetic::power2::{
    lemma2_to64, lemma2_to64_rest, lemma_pow2_adds, lemma_pow2_pos, lemma_pow2_strictly_increases,
    lemma_pow2_unfold, pow2,
};
use vstd::prelude::*;

verus! {

/// Which of the two formats.
#[derive(Debug, Clone, Copy, PartialEq, Eq, Structural)]
pub enum Width {
    /// 32 bits: 23 of fraction, 8 of exponent.
    Single,
    /// 64 bits: 52 of fraction, 11 of exponent.
    Double,
}

/// One more than the largest fraction field: the weight of the leading bit.
pub open spec fn hidden(w: Width) -> nat {
    match w {
        Width::Single => 0x80_0000,
        Width::Double => 0x10_0000_0000_0000,
    }
}

/// The bit pattern of positive infinity.
pub open spec fn infinity(w: Width) -> nat {
    match w {
        Width::Single => 0x7f80_0000,
        Width::Double => 0x7ff0_0000_0000_0000,
    }
}

/// The weight of the sign bit.
pub open spec fn sign_bit(w: Width) -> nat {
    match w {
        Width::Single => 0x8000_0000,
        Width::Double => 0x8000_0000_0000_0000,
    }
}

/// One is `2^unit_scale` units.
pub open spec fn unit_scale(w: Width) -> nat {
    match w {
        Width::Single => 149,
        Width::Double => 1074,
    }
}

/// The canonical quiet NaN: sign clear, exponent all ones, payload MSB set.
pub open spec fn canonical_nan(w: Width) -> u64 {
    match w {
        Width::Single => 0x7fc0_0000,
        Width::Double => 0x7ff8_0000_0000_0000,
    }
}

/// Bit patterns of a width.
pub open spec fn in_width(w: Width, bits: u64) -> bool {
    bits < 2 * sign_bit(w)
}

/// Is the sign bit set?
pub open spec fn is_negative(w: Width, bits: u64) -> bool {
    bits >= sign_bit(w)
}

/// The bits without the sign.
pub open spec fn magnitude(w: Width, bits: u64) -> nat {
    if is_negative(w, bits) {
        (bits - sign_bit(w)) as nat
    } else {
        bits as nat
    }
}

/// Not a number?
pub open spec fn is_nan(w: Width, bits: u64) -> bool {
    magnitude(w, bits) > infinity(w)
}

/// Infinite?
pub open spec fn is_infinite(w: Width, bits: u64) -> bool {
    magnitude(w, bits) == infinity(w)
}

/// A sign and a magnitude as bits.
pub open spec fn pack(w: Width, negative: bool, m: nat) -> u64 {
    (if negative {
        sign_bit(w) + m
    } else {
        m
    }) as u64
}

/// The integer significand of a magnitude.
pub open spec fn significand(w: Width, m: nat) -> nat {
    if m < hidden(w) {
        m
    } else {
        hidden(w) + m % hidden(w)
    }
}

/// The power of two its significand is scaled by, in units.
pub open spec fn exponent(w: Width, m: nat) -> nat {
    if m < hidden(w) {
        0
    } else {
        (m / hidden(w) - 1) as nat
    }
}

/// A magnitude in units.
pub open spec fn units(w: Width, m: nat) -> nat {
    significand(w, m) * pow2(exponent(w, m))
}

/// A finite number in units, signed.
pub open spec fn signed_units(w: Width, bits: u64) -> int {
    if is_negative(w, bits) {
        -(units(w, magnitude(w, bits)) as int)
    } else {
        units(w, magnitude(w, bits)) as int
    }
}

/// A non-negative real number of units: a ratio, or the square root of one.
pub struct Real {
    /// The numerator.
    pub num: nat,
    /// The denominator, not zero.
    pub den: nat,
    /// Is the number the square root of the ratio?
    pub root: bool,
}

impl Real {
    /// A whole number of units.
    pub open spec fn whole(n: nat) -> Real {
        Real { num: n, den: 1, root: false }
    }

    /// Is twice this number at least `t`?
    pub open spec fn twice_at_least(self, t: nat) -> bool {
        if self.root {
            4 * self.num >= self.den * (t * t)
        } else {
            2 * self.num >= self.den * t
        }
    }

    /// Is twice this number more than `t`?
    pub open spec fn twice_above(self, t: nat) -> bool {
        if self.root {
            4 * self.num > self.den * (t * t)
        } else {
            2 * self.num > self.den * t
        }
    }
}

/// Twice the midpoint between a magnitude and the next.
pub open spec fn twice_midpoint(w: Width, m: nat) -> nat {
    units(w, m) + units(w, m + 1)
}

/// Does a number lie past the midpoint above `m`, so that it rounds to more than `m`? The
/// midpoint itself goes to whichever side is even.
pub open spec fn beyond(w: Width, x: Real, m: nat) -> bool {
    if m % 2 == 0 {
        x.twice_above(twice_midpoint(w, m))
    } else {
        x.twice_at_least(twice_midpoint(w, m))
    }
}

/// Is `m` the magnitude nearest to a number, ties to even?
pub open spec fn rounds_to(w: Width, x: Real, m: nat) -> bool {
    &&& m <= infinity(w)
    &&& m == infinity(w) || !beyond(w, x, m)
    &&& m == 0 || beyond(w, x, (m - 1) as nat)
}

/// The magnitude nearest to a number, ties to even. Past the largest finite number it is
/// infinity.
pub open spec fn nearest(w: Width, x: Real) -> nat {
    choose|m: nat| rounds_to(w, x, m)
}

/// The unit of one: `2^unit_scale`.
pub open spec fn one(w: Width) -> nat {
    pow2(unit_scale(w))
}

/// The sum of two bit patterns.
pub open spec fn add_bits(w: Width, a: u64, b: u64) -> u64 {
    if is_nan(w, a) || is_nan(w, b) {
        canonical_nan(w)
    } else if is_infinite(w, a) {
        if is_infinite(w, b) && is_negative(w, a) != is_negative(w, b) {
            canonical_nan(w)
        } else {
            a
        }
    } else if is_infinite(w, b) {
        b
    } else {
        let sum = signed_units(w, a) + signed_units(w, b);
        if sum == 0 {
            pack(w, is_negative(w, a) && is_negative(w, b), 0)
        } else if sum < 0 {
            pack(w, true, nearest(w, Real::whole(-sum as nat)))
        } else {
            pack(w, false, nearest(w, Real::whole(sum as nat)))
        }
    }
}

/// The bit pattern with its sign flipped.
pub open spec fn neg_bits(w: Width, a: u64) -> u64 {
    pack(w, !is_negative(w, a), magnitude(w, a))
}

/// The bit pattern with its sign cleared.
pub open spec fn abs_bits(w: Width, a: u64) -> u64 {
    pack(w, false, magnitude(w, a))
}

/// The magnitude of one pattern with the sign of another.
pub open spec fn copysign_bits(w: Width, a: u64, b: u64) -> u64 {
    pack(w, is_negative(w, b), magnitude(w, a))
}

/// The difference of two bit patterns.
pub open spec fn sub_bits(w: Width, a: u64, b: u64) -> u64 {
    add_bits(w, a, neg_bits(w, b))
}

/// The product of two bit patterns.
pub open spec fn mul_bits(w: Width, a: u64, b: u64) -> u64 {
    let (ma, mb) = (magnitude(w, a), magnitude(w, b));
    let negative = is_negative(w, a) != is_negative(w, b);
    if is_nan(w, a) || is_nan(w, b) {
        canonical_nan(w)
    } else if is_infinite(w, a) || is_infinite(w, b) {
        if ma == 0 || mb == 0 {
            canonical_nan(w)
        } else {
            pack(w, negative, infinity(w))
        }
    } else {
        pack(
            w,
            negative,
            nearest(w, Real { num: units(w, ma) * units(w, mb), den: one(w), root: false }),
        )
    }
}

/// The quotient of two bit patterns.
pub open spec fn div_bits(w: Width, a: u64, b: u64) -> u64 {
    let (ma, mb) = (magnitude(w, a), magnitude(w, b));
    let negative = is_negative(w, a) != is_negative(w, b);
    if is_nan(w, a) || is_nan(w, b) {
        canonical_nan(w)
    } else if is_infinite(w, a) {
        if is_infinite(w, b) {
            canonical_nan(w)
        } else {
            pack(w, negative, infinity(w))
        }
    } else if is_infinite(w, b) {
        pack(w, negative, 0)
    } else if mb == 0 {
        if ma == 0 {
            canonical_nan(w)
        } else {
            pack(w, negative, infinity(w))
        }
    } else {
        pack(
            w,
            negative,
            nearest(w, Real { num: units(w, ma) * one(w), den: units(w, mb), root: false }),
        )
    }
}

/// The square root of a bit pattern.
pub open spec fn sqrt_bits(w: Width, a: u64) -> u64 {
    let m = magnitude(w, a);
    if is_nan(w, a) {
        canonical_nan(w)
    } else if m == 0 {
        a
    } else if is_negative(w, a) {
        canonical_nan(w)
    } else if is_infinite(w, a) {
        a
    } else {
        pack(w, false, nearest(w, Real { num: units(w, m) * one(w), den: 1, root: true }))
    }
}

/// Is one number less than another? Never, if either is not a number.
pub open spec fn less_bits(w: Width, a: u64, b: u64) -> bool {
    !is_nan(w, a) && !is_nan(w, b) && signed_units(w, a) < signed_units(w, b)
}

/// Are two numbers equal? Never, if either is not a number.
pub open spec fn equal_bits(w: Width, a: u64, b: u64) -> bool {
    !is_nan(w, a) && !is_nan(w, b) && signed_units(w, a) == signed_units(w, b)
}

/// The smaller number, with `-0` below `+0`, or NaN if either is.
pub open spec fn min_bits(w: Width, a: u64, b: u64) -> u64 {
    if is_nan(w, a) || is_nan(w, b) {
        canonical_nan(w)
    } else if less_bits(w, a, b) || (equal_bits(w, a, b) && is_negative(w, a)) {
        a
    } else {
        b
    }
}

/// The larger number, with `-0` below `+0`, or NaN if either is.
pub open spec fn max_bits(w: Width, a: u64, b: u64) -> u64 {
    if is_nan(w, a) || is_nan(w, b) {
        canonical_nan(w)
    } else if less_bits(w, b, a) || (equal_bits(w, a, b) && !is_negative(w, a)) {
        a
    } else {
        b
    }
}

/// Which way a number is taken to a whole one.
#[derive(Debug, Clone, Copy, PartialEq, Eq, Structural)]
pub enum Rounding {
    /// Toward positive infinity.
    Up,
    /// Toward negative infinity.
    Down,
    /// Toward zero.
    Zero,
    /// To the nearest, halves to even.
    Even,
}

/// A magnitude taken to a whole number.
pub open spec fn whole_part(w: Width, how: Rounding, negative: bool, m: nat) -> nat {
    let n = units(w, m) / one(w);
    let rest = units(w, m) % one(w);
    match how {
        Rounding::Zero => n,
        Rounding::Up => if !negative && rest > 0 {
            n + 1
        } else {
            n
        },
        Rounding::Down => if negative && rest > 0 {
            n + 1
        } else {
            n
        },
        Rounding::Even => if 2 * rest > one(w) || (2 * rest == one(w) && n % 2 == 1) {
            n + 1
        } else {
            n
        },
    }
}

/// A bit pattern taken to a whole number, keeping its sign.
pub open spec fn round_bits(w: Width, how: Rounding, a: u64) -> u64 {
    let m = magnitude(w, a);
    if is_nan(w, a) {
        canonical_nan(w)
    } else if is_infinite(w, a) {
        a
    } else {
        pack(
            w,
            is_negative(w, a),
            nearest(w, Real::whole(whole_part(w, how, is_negative(w, a), m) * one(w))),
        )
    }
}

/// The whole number a finite bit pattern truncates to.
pub open spec fn integer_of(w: Width, a: u64) -> int {
    let n = whole_part(w, Rounding::Zero, is_negative(w, a), magnitude(w, a)) as int;
    if is_negative(w, a) {
        -n
    } else {
        n
    }
}

/// The bit pattern nearest to an integer.
pub open spec fn integer_bits(w: Width, n: int) -> u64 {
    if n < 0 {
        pack(w, true, nearest(w, Real::whole((-n as nat) * one(w))))
    } else {
        pack(w, false, nearest(w, Real::whole((n as nat) * one(w))))
    }
}

/// A double as the nearest single.
pub open spec fn demote_bits(a: u64) -> u64 {
    let w = Width::Double;
    let m = magnitude(w, a);
    if is_nan(w, a) {
        canonical_nan(Width::Single)
    } else if is_infinite(w, a) {
        pack(Width::Single, is_negative(w, a), infinity(Width::Single))
    } else {
        pack(
            Width::Single,
            is_negative(w, a),
            nearest(
                Width::Single,
                Real { num: units(w, m) * one(Width::Single), den: one(w), root: false },
            ),
        )
    }
}

/// A single as the double it equals.
pub open spec fn promote_bits(a: u64) -> u64 {
    let w = Width::Single;
    let m = magnitude(w, a);
    if is_nan(w, a) {
        canonical_nan(Width::Double)
    } else if is_infinite(w, a) {
        pack(Width::Double, is_negative(w, a), infinity(Width::Double))
    } else {
        pack(
            Width::Double,
            is_negative(w, a),
            nearest(
                Width::Double,
                Real { num: units(w, m) * one(Width::Double), den: one(w), root: false },
            ),
        )
    }
}

/// The next magnitude is one more unit of this one's last place.
proof fn lemma_next_units(w: Width, m: nat)
    ensures
        units(w, m + 1) == (significand(w, m) + 1) * pow2(exponent(w, m)),
        units(w, m + 1) > units(w, m),
        twice_midpoint(w, m) == (2 * significand(w, m) + 1) * pow2(exponent(w, m)),
{
    let h = hidden(w);
    let e = exponent(w, m);
    lemma_pow2_pos(e);
    if m >= h {
        let (q, r) = (m / h, m % h);
        lemma_fundamental_div_mod(m as int, h as int);
        assert(q >= 1);
        if r < h - 1 {
            lemma_fundamental_div_mod_converse((m + 1) as int, h as int, q as int, (r + 1) as int);
        } else {
            assert(h * (q + 1) == h * q + h) by (nonlinear_arith);
            assert(m + 1 == h * (q + 1));
            lemma_fundamental_div_mod_converse((m + 1) as int, h as int, (q + 1) as int, 0);
            lemma_pow2_unfold(q);
            let p = pow2(e);
            assert(h * (2 * p) == (h + r + 1) * p) by (nonlinear_arith)
                requires
                    r == h - 1,
            ;
        }
    } else if m + 1 == h {
        assert((m + 1) / h == 1);
        assert((m + 1) % h == 0);
    }
    let (s, p) = (significand(w, m), pow2(e));
    assert((s + 1) * p == s * p + p) by (nonlinear_arith);
    assert((2 * s + 1) * p == s * p + (s + 1) * p) by (nonlinear_arith);
}

/// Larger magnitudes have more units.
pub proof fn lemma_units_increase(w: Width, a: nat, b: nat)
    requires
        a < b,
    ensures
        units(w, a) < units(w, b),
    decreases b,
{
    lemma_next_units(w, (b - 1) as nat);
    if a + 1 < b {
        lemma_units_increase(w, a, (b - 1) as nat);
    }
}

/// A number past one midpoint is past every lower one.
proof fn lemma_beyond_lower(w: Width, x: Real, a: nat, b: nat)
    requires
        x.den > 0,
        a < b,
        beyond(w, x, b),
    ensures
        beyond(w, x, a),
{
    lemma_units_increase(w, a, b);
    lemma_units_increase(w, a + 1, b + 1);
    let (s, t) = (twice_midpoint(w, a), twice_midpoint(w, b));
    let d = x.den;
    if x.root {
        assert(d * (t * t) > d * (s * s)) by (nonlinear_arith)
            requires
                d > 0,
                t > s,
        ;
    } else {
        assert(d * t > d * s) by (nonlinear_arith)
            requires
                d > 0,
                t > s,
        ;
    }
}

/// There is one nearest magnitude.
proof fn lemma_nearest_is(w: Width, x: Real, m: nat)
    requires
        x.den > 0,
        rounds_to(w, x, m),
    ensures
        nearest(w, x) == m,
{
    let n = nearest(w, x);
    assert(rounds_to(w, x, n));
    if n < m {
        if n < m - 1 {
            lemma_beyond_lower(w, x, n, (m - 1) as nat);
        }
    } else if m < n {
        if m < n - 1 {
            lemma_beyond_lower(w, x, m, (n - 1) as nat);
        }
    }
}

/// A magnitude rounds to itself.
proof fn lemma_exact(w: Width, m: nat)
    requires
        m <= infinity(w),
    ensures
        nearest(w, Real::whole(units(w, m))) == m,
{
    lemma_next_units(w, m);
    if m > 0 {
        lemma_next_units(w, (m - 1) as nat);
    }
    lemma_nearest_is(w, Real::whole(units(w, m)), m);
}

/// Scaling by a power of two is comparing with a quotient.
proof fn lemma_scaled_above(a: nat, b: nat, d: nat)
    ensures
        a * pow2(d) > b <==> a > b / pow2(d),
{
    lemma_pow2_pos(d);
    let p = pow2(d);
    let q = b / p;
    lemma_fundamental_div_mod(b as int, p as int);
    if a > q {
        assert(a * p >= p * q + p) by (nonlinear_arith)
            requires
                a >= q + 1,
        ;
    } else {
        assert(a * p <= p * q) by (nonlinear_arith)
            requires
                a <= q,
        ;
    }
}

/// A common power of two cancels from a comparison.
proof fn lemma_common_scale(a: nat, i: nat, b: nat, j: nat)
    requires
        i >= j,
    ensures
        a * pow2(i) > b * pow2(j) <==> a * pow2((i - j) as nat) > b,
        b * pow2(j) > a * pow2(i) <==> b > a * pow2((i - j) as nat),
{
    let d = (i - j) as nat;
    lemma_pow2_adds(d, j);
    lemma_pow2_pos(j);
    let (p, q) = (pow2(d), pow2(j));
    assert(a * (p * q) == (a * p) * q) by (nonlinear_arith);
    let x = a * p;
    assert(x * q > b * q <==> x > b) by (nonlinear_arith)
        requires
            q > 0,
    ;
    assert(b * q > x * q <==> b > x) by (nonlinear_arith)
        requires
            q > 0,
    ;
}

/// Two to the 128th exceeds every 128-bit number.
proof fn lemma_pow2_128(d: nat)
    requires
        d >= 128,
    ensures
        pow2(d) > u128::MAX,
{
    lemma2_to64();
    lemma_pow2_adds(64, 64);
    assert(0x1_0000_0000_0000_0000nat * 0x1_0000_0000_0000_0000nat == u128::MAX + 1);
    if d > 128 {
        lemma_pow2_strictly_increases(128, d);
    }
}

/// Is `a * 2^d` more than `b`?
fn shifted_above(a: u128, d: u32, b: u128) -> (r: bool)
    ensures
        r == (a * pow2(d as nat) > b),
{
    if a == 0 {
        return false;
    }
    if d >= 128 {
        proof {
            lemma_pow2_128(d as nat);
            let p = pow2(d as nat);
            assert(a * p >= p) by (nonlinear_arith)
                requires
                    a >= 1,
            ;
        }
        return true;
    }
    proof {
        lemma_scaled_above(a as nat, b as nat, d as nat);
        vstd::bits::lemma_u128_shr_is_div(b, d as u128);
    }
    a > (b >> (d as u128))
}

/// Is `a * 2^i` more than `b * 2^j`?
fn scaled_above(a: u128, i: u32, b: u128, j: u32) -> (r: bool)
    ensures
        r == (a * pow2(i as nat) > b * pow2(j as nat)),
{
    if i >= j {
        proof {
            lemma_common_scale(a as nat, i as nat, b as nat, j as nat);
        }
        shifted_above(a, i - j, b)
    } else {
        proof {
            lemma_common_scale(b as nat, j as nat, a as nat, i as nat);
        }
        if a == 0 {
            return false;
        }
        !shifted_above(b, j - i, a - 1)
    }
}

/// A number about to be rounded: `m * 2^e` over `d * 2^s`, or its square root.
struct Exact {
    m: u128,
    e: u32,
    d: u64,
    s: u32,
    root: bool,
}

impl Exact {
    spec fn exact(self) -> Real {
        Real {
            num: self.m as nat * pow2(self.e as nat),
            den: self.d as nat * pow2(self.s as nat),
            root: self.root,
        }
    }

    spec fn wf(self) -> bool {
        &&& 0 < self.d < 0x40_0000_0000_0000
        &&& self.e <= 10_000
        &&& self.s <= 10_000
        &&& self.root ==> self.d == 1
    }
}

pub proof fn lemma_constants(w: Width)
    ensures
        hidden(w) <= 0x10_0000_0000_0000,
        infinity(w) < sign_bit(w),
        sign_bit(w) <= 0x8000_0000_0000_0000,
        infinity(w) / hidden(w) <= 2047,
        unit_scale(w) <= 1074,
        infinity(w) % 2 == 0,
        canonical_nan(w) < sign_bit(w),
        magnitude(w, canonical_nan(w)) > infinity(w),
{
}

pub proof fn lemma_split_bounds(w: Width, m: nat)
    requires
        m <= infinity(w),
    ensures
        significand(w, m) < 2 * hidden(w),
        exponent(w, m) <= 2046,
        m > 0 ==> significand(w, m) > 0,
        exponent(w, m) > 0 ==> significand(w, m) >= hidden(w),
{
    lemma_constants(w);
    lemma_div_is_ordered(m as int, infinity(w) as int, hidden(w) as int);
}

/// Significand and exponent of a magnitude.
fn split(w: Width, m: u64) -> (r: (u64, u32))
    requires
        m <= infinity(w),
    ensures
        r.0 == significand(w, m as nat),
        r.1 == exponent(w, m as nat),
        r.0 < 0x20_0000_0000_0000,
        r.1 <= 2046,
        m > 0 ==> r.0 > 0,
        r.1 > 0 ==> r.0 >= hidden(w),
{
    proof {
        lemma_split_bounds(w, m as nat);
    }
    let h: u64 = match w {
        Width::Single => 0x80_0000,
        Width::Double => 0x10_0000_0000_0000,
    };
    if m < h {
        (m, 0)
    } else {
        (h + m % h, (m / h - 1) as u32)
    }
}

/// Does the number round to more than `m`?
fn passes(w: Width, x: &Exact, m: u64) -> (r: bool)
    requires
        x.wf(),
        m <= infinity(w),
    ensures
        r == beyond(w, x.exact(), m as nat),
{
    let (sig, exp) = split(w, m);
    let t: u64 = 2 * sig + 1;
    proof {
        lemma_next_units(w, m as nat);
    }
    let ghost mid = twice_midpoint(w, m as nat);
    let ghost (te, tm) = (exp as nat, t as nat);
    assert(mid == tm * pow2(te));
    if x.root {
        assert((t as u128) * (t as u128) < 0x1000_0000_0000_0000_0000_0000_0000_0000u128)
            by (nonlinear_arith)
            requires
                t < 0x40_0000_0000_0000,
        ;
        let square: u128 = (t as u128) * (t as u128);
        proof {
            lemma_pow2_unfold((x.e + 2) as nat);
            lemma_pow2_unfold((x.e + 1) as nat);
            let (m0, p0) = (x.m as nat, pow2(x.e as nat));
            assert(4 * (m0 * p0) == m0 * (2 * (2 * p0))) by (nonlinear_arith);
            lemma_pow2_adds(te, te);
            lemma_pow2_adds(x.s as nat, (te + te) as nat);
            let (p, q) = (pow2(te), pow2(x.s as nat));
            assert((1 * q) * ((tm * p) * (tm * p)) == (tm * tm) * (q * (p * p)))
                by (nonlinear_arith);
        }
        if m % 2 == 0 {
            scaled_above(x.m, x.e + 2, square, x.s + (exp + exp))
        } else {
            !scaled_above(square, x.s + (exp + exp), x.m, x.e + 2)
        }
    } else {
        assert((x.d as u128) * (t as u128) < 0x1000_0000_0000_0000_0000_0000_0000_0000u128)
            by (nonlinear_arith)
            requires
                t < 0x40_0000_0000_0000,
                x.d < 0x40_0000_0000_0000,
        ;
        let scaled: u128 = (x.d as u128) * (t as u128);
        proof {
            lemma_pow2_unfold((x.e + 1) as nat);
            let (m0, p0) = (x.m as nat, pow2(x.e as nat));
            assert(2 * (m0 * p0) == m0 * (2 * p0)) by (nonlinear_arith);
            lemma_pow2_adds(x.s as nat, te);
            let (p, q, d) = (pow2(te), pow2(x.s as nat), x.d as nat);
            assert((d * q) * (tm * p) == (d * tm) * (q * p)) by (nonlinear_arith);
        }
        if m % 2 == 0 {
            scaled_above(x.m, x.e + 1, scaled, x.s + exp)
        } else {
            !scaled_above(scaled, x.s + exp, x.m, x.e + 1)
        }
    }
}

/// The nearest magnitude, found by halving the range of bit patterns.
fn nearest_magnitude(w: Width, x: &Exact) -> (r: u64)
    requires
        x.wf(),
    ensures
        r == nearest(w, x.exact()),
        r <= infinity(w),
{
    let top: u64 = match w {
        Width::Single => 0x7f80_0000,
        Width::Double => 0x7ff0_0000_0000_0000,
    };
    let mut lo: u64 = 0;
    let mut hi: u64 = top;
    while lo < hi
        invariant
            x.wf(),
            top == infinity(w),
            lo <= hi <= top,
            lo == 0 || beyond(w, x.exact(), (lo - 1) as nat),
            hi == top || !beyond(w, x.exact(), hi as nat),
        decreases hi - lo,
    {
        let mid: u64 = lo + (hi - lo) / 2;
        if passes(w, x, mid) {
            lo = mid + 1;
        } else {
            hi = mid;
        }
    }
    proof {
        lemma_pow2_pos(x.s as nat);
        let (d, q) = (x.d as nat, pow2(x.s as nat));
        assert(d * q > 0) by (nonlinear_arith)
            requires
                d > 0,
                q > 0,
        ;
        assert(rounds_to(w, x.exact(), lo as nat));
        lemma_nearest_is(w, x.exact(), lo as nat);
    }
    lo
}

/// The weight of the sign bit.
fn sign_weight(w: Width) -> (r: u64)
    ensures
        r == sign_bit(w),
{
    match w {
        Width::Single => 0x8000_0000,
        Width::Double => 0x8000_0000_0000_0000,
    }
}

fn infinity_of(w: Width) -> (r: u64)
    ensures
        r == infinity(w),
{
    match w {
        Width::Single => 0x7f80_0000,
        Width::Double => 0x7ff0_0000_0000_0000,
    }
}

/// The canonical quiet NaN of a width.
pub fn nan_of(w: Width) -> (r: u64)
    ensures
        r == canonical_nan(w),
{
    match w {
        Width::Single => 0x7fc0_0000,
        Width::Double => 0x7ff8_0000_0000_0000,
    }
}

/// Sign and magnitude of a bit pattern.
fn parts(w: Width, bits: u64) -> (r: (bool, u64))
    requires
        in_width(w, bits),
    ensures
        r.0 == is_negative(w, bits),
        r.1 == magnitude(w, bits),
        r.1 < sign_bit(w),
{
    let weight: u64 = sign_weight(w);
    if bits >= weight {
        (true, bits - weight)
    } else {
        (false, bits)
    }
}

/// Put a sign on a magnitude.
fn join(w: Width, negative: bool, m: u64) -> (r: u64)
    requires
        m < sign_bit(w),
    ensures
        r == pack(w, negative, m as nat),
        in_width(w, r),
        is_negative(w, r) == negative,
        magnitude(w, r) == m,
{
    if negative {
        sign_weight(w) + m
    } else {
        m
    }
}

/// Two to a power up to 127.
fn power(d: u32) -> (r: u128)
    requires
        d <= 100,
    ensures
        r == pow2(d as nat),
{
    proof {
        lemma2_to64();
        lemma2_to64_rest();
        lemma_pow2_pos(d as nat);
    }
    if d < 64 {
        proof {
            lemma_power_64(d as nat);
            vstd::bits::lemma_u64_shl_is_mul(1u64, d as u64);
        }
        (1u64 << (d as u64)) as u128
    } else {
        proof {
            lemma_pow2_adds((d - 64) as nat, 64);
            lemma_power_64((d - 64) as nat);
            vstd::bits::lemma_u64_shl_is_mul(1u64, (d - 64) as u64);
            let p = pow2((d - 64) as nat);
            assert(p * 0x1_0000_0000_0000_0000 <= u128::MAX) by (nonlinear_arith)
                requires
                    p <= 0x8000_0000_0000_0000,
            ;
        }
        ((1u64 << ((d - 64) as u64)) as u128) * 0x1_0000_0000_0000_0000u128
    }
}

proof fn lemma_power_64(d: nat)
    requires
        d < 64,
    ensures
        0 < pow2(d) <= 0x8000_0000_0000_0000,
{
    lemma_pow2_pos(d);
    lemma2_to64_rest();
    if d < 63 {
        lemma_pow2_strictly_increases(d, 63);
    }
}

/// Far below the last place of the larger, a smaller number changes nothing.
proof fn lemma_negligible(w: Width, m: nat, small: nat, n: nat)
    requires
        m < infinity(w),
        exponent(w, m) > 70 + exponent(w, small),
        small < infinity(w),
        n == units(w, m) + units(w, small) || n == units(w, m) - units(w, small),
    ensures
        nearest(w, Real::whole(n)) == m,
        n > 0,
        units(w, m) > units(w, small),
{
    let (e, f) = (exponent(w, m), exponent(w, small));
    lemma_split_bounds(w, m);
    lemma_split_bounds(w, small);
    let h = hidden(w);
    // The step to the magnitude below is at least half of this one's last place.
    let below = (m - 1) as nat;
    assert(exponent(w, below) >= e - 1) by {
        lemma_fundamental_div_mod(m as int, h as int);
        lemma_fundamental_div_mod(below as int, h as int);
        assert(below / h >= m / h - 1) by {
            lemma_div_is_ordered(m - h, below as int, h as int);
            let q = m as int / h as int;
            assert((q - 1) * h == q * h - h) by (nonlinear_arith);
            assert(h * q == q * h) by (nonlinear_arith);
            lemma_fundamental_div_mod_converse(
                m - h,
                h as int,
                q - 1,
                m as int % h as int,
            );
        }
    }
    lemma_next_units(w, below);
    lemma_next_units(w, m);
    let gap = pow2(exponent(w, below));
    let (sb, pb) = (significand(w, below), gap);
    assert((sb + 1) * pb == sb * pb + pb) by (nonlinear_arith);
    assert(units(w, m) == units(w, below) + gap);
    // The small number is less than half of that step.
    let (ss, pf) = (significand(w, small), pow2(f));
    lemma_pow2_pos(f);
    lemma2_to64();
    lemma2_to64_rest();
    assert(ss * pf < 0x20_0000_0000_0000 * pf) by (nonlinear_arith)
        requires
            ss < 0x20_0000_0000_0000,
            pf > 0,
    ;
    lemma_pow2_adds(60, f);
    assert(0x20_0000_0000_0000 * pf * 4 <= 0x1000_0000_0000_0000 * pf) by (nonlinear_arith)
        requires
            pf > 0,
    ;
    lemma_pow2_strictly_increases((60 + f) as nat, exponent(w, below));
    assert(2 * units(w, small) < gap);
    // Nor does it reach the midpoint above.
    let pe = pow2(e);
    if exponent(w, below) < e {
        lemma_pow2_strictly_increases(exponent(w, below), e);
    } else {
        assert(e >= exponent(w, below)) by {
            lemma_div_is_ordered(below as int, m as int, h as int);
        }
    }
    assert(gap <= pe);
    let s = significand(w, m);
    assert((2 * s + 1) * pe == 2 * (s * pe) + pe) by (nonlinear_arith);
    lemma_nearest_is(w, Real::whole(n), m);
}

/// Add two bit patterns.
pub fn float_add(w: Width, a: u64, b: u64) -> (r: u64)
    requires
        in_width(w, a),
        in_width(w, b),
    ensures
        r == add_bits(w, a, b),
        in_width(w, r),
{
    proof {
        lemma_constants(w);
    }
    let (na, ma) = parts(w, a);
    let (nb, mb) = parts(w, b);
    let top: u64 = infinity_of(w);
    if ma > top || mb > top {
        return nan_of(w);
    }
    if ma == top {
        if mb == top && na != nb {
            return nan_of(w);
        }
        return a;
    }
    if mb == top {
        return b;
    }
    let (sa, ea) = split(w, ma);
    let (sb, eb) = split(w, mb);
    if ea >= eb {
        add_aligned(w, a, b, na, ma, sa, ea, nb, mb, sb, eb)
    } else {
        add_aligned(w, b, a, nb, mb, sb, eb, na, ma, sa, ea)
    }
}

/// Add two finite numbers, the first having the larger exponent.
fn add_aligned(
    w: Width,
    a: u64,
    b: u64,
    na: bool,
    ma: u64,
    sa: u64,
    ea: u32,
    nb: bool,
    mb: u64,
    sb: u64,
    eb: u32,
) -> (r: u64)
    requires
        in_width(w, a),
        in_width(w, b),
        na == is_negative(w, a),
        nb == is_negative(w, b),
        ma == magnitude(w, a),
        mb == magnitude(w, b),
        ma < infinity(w),
        mb < infinity(w),
        sa == significand(w, ma as nat),
        ea == exponent(w, ma as nat),
        sb == significand(w, mb as nat),
        eb == exponent(w, mb as nat),
        sa < 0x20_0000_0000_0000,
        sb < 0x20_0000_0000_0000,
        eb <= ea <= 2046,
    ensures
        r == add_bits(w, a, b),
        r == add_bits(w, b, a),
        in_width(w, r),
{
    proof {
        lemma_constants(w);
        lemma_pow2_pos(ea as nat);
        lemma_pow2_pos(eb as nat);
    }
    let gap: u32 = ea - eb;
    let ghost ua = units(w, ma as nat);
    let ghost ub = units(w, mb as nat);
    if gap > 70 {
        proof {
            lemma_negligible(w, ma as nat, mb as nat, ua + ub);
            lemma_negligible(w, ma as nat, mb as nat, (ua - ub) as nat);
            if na {
                assert(a == pack(w, true, ma as nat));
            } else {
                assert(a == pack(w, false, ma as nat));
            }
        }
        return a;
    }
    let scale: u128 = power(gap);
    proof {
        lemma2_to64();
        lemma2_to64_rest();
        lemma_pow2_adds(64, 6);
        if gap < 70 {
            lemma_pow2_strictly_increases(gap as nat, 70);
        }
        assert((sa as u128) * scale < 0x1000_0000_0000_0000_0000_0000_0000_0000u128)
            by (nonlinear_arith)
            requires
                sa < 0x20_0000_0000_0000,
                scale <= 0x40_0000_0000_0000_0000,
        ;
    }
    let wide: u128 = (sa as u128) * scale;
    proof {
        lemma_pow2_adds(gap as nat, eb as nat);
        let (s, p, q) = (sa as nat, pow2(gap as nat), pow2(eb as nat));
        assert(s * (p * q) == (s * p) * q) by (nonlinear_arith);
        assert(ua == wide as nat * q);
        let (x, y) = (wide as nat, sb as nat);
        assert(x * q + y * q == (x + y) * q) by (nonlinear_arith);
        if x >= y {
            assert(x * q - y * q == (x - y) * q) by (nonlinear_arith);
        } else {
            assert(y * q - x * q == (y - x) * q) by (nonlinear_arith);
        }
    }
    let narrow: u128 = sb as u128;
    let (negative, sum) = if na == nb {
        (na, wide + narrow)
    } else if wide >= narrow {
        (na, wide - narrow)
    } else {
        (nb, narrow - wide)
    };
    let ghost exact = signed_units(w, a) + signed_units(w, b);
    if sum == 0 {
        assert(exact == 0) by (nonlinear_arith)
            requires
                exact == sum as nat * pow2(eb as nat) || exact == -(sum as nat * pow2(eb as nat)),
                sum == 0,
        ;
        return join(w, na && nb, 0);
    }
    let x = Exact { m: sum, e: eb, d: 1, s: 0, root: false };
    proof {
        let (n, q) = (sum as nat, pow2(eb as nat));
        assert(n * q > 0) by (nonlinear_arith)
            requires
                n > 0,
                q > 0,
        ;
        lemma2_to64();
        assert(x.exact() == Real::whole(n * q));
    }
    let m: u64 = nearest_magnitude(w, &x);
    join(w, negative, m)
}

/// Flip the sign.
pub fn float_neg(w: Width, a: u64) -> (r: u64)
    requires
        in_width(w, a),
    ensures
        r == neg_bits(w, a),
        in_width(w, r),
{
    let (n, m) = parts(w, a);
    join(w, !n, m)
}

/// Clear the sign.
pub fn float_abs(w: Width, a: u64) -> (r: u64)
    requires
        in_width(w, a),
    ensures
        r == abs_bits(w, a),
        in_width(w, r),
{
    let (_, m) = parts(w, a);
    join(w, false, m)
}

/// Take the sign of another number.
pub fn float_copysign(w: Width, a: u64, b: u64) -> (r: u64)
    requires
        in_width(w, a),
        in_width(w, b),
    ensures
        r == copysign_bits(w, a, b),
        in_width(w, r),
{
    let (_, m) = parts(w, a);
    let (n, _) = parts(w, b);
    join(w, n, m)
}

/// Subtract two bit patterns.
pub fn float_sub(w: Width, a: u64, b: u64) -> (r: u64)
    requires
        in_width(w, a),
        in_width(w, b),
    ensures
        r == sub_bits(w, a, b),
        in_width(w, r),
{
    float_add(w, a, float_neg(w, b))
}

/// The unit scale of a width.
fn scale_of(w: Width) -> (r: u32)
    ensures
        r == unit_scale(w),
        r <= 1074,
{
    match w {
        Width::Single => 149,
        Width::Double => 1074,
    }
}

/// Multiply two bit patterns.
pub fn float_mul(w: Width, a: u64, b: u64) -> (r: u64)
    requires
        in_width(w, a),
        in_width(w, b),
    ensures
        r == mul_bits(w, a, b),
        in_width(w, r),
{
    proof {
        lemma_constants(w);
    }
    let (na, ma) = parts(w, a);
    let (nb, mb) = parts(w, b);
    let top: u64 = infinity_of(w);
    let negative = na != nb;
    if ma > top || mb > top {
        return nan_of(w);
    }
    if ma == top || mb == top {
        if ma == 0 || mb == 0 {
            return nan_of(w);
        }
        return join(w, negative, top);
    }
    let (sa, ea) = split(w, ma);
    let (sb, eb) = split(w, mb);
    assert((sa as u128) * (sb as u128) <= u128::MAX) by (nonlinear_arith)
        requires
            sa < 0x20_0000_0000_0000,
            sb < 0x20_0000_0000_0000,
    ;
    let x = Exact {
        m: (sa as u128) * (sb as u128),
        e: ea + eb,
        d: 1,
        s: scale_of(w),
        root: false,
    };
    proof {
        lemma_pow2_adds(ea as nat, eb as nat);
        let (s, t, p, q) = (sa as nat, sb as nat, pow2(ea as nat), pow2(eb as nat));
        assert((s * t) * (p * q) == (s * p) * (t * q)) by (nonlinear_arith);
        assert(x.exact().num == units(w, ma as nat) * units(w, mb as nat));
    }
    let m: u64 = nearest_magnitude(w, &x);
    join(w, negative, m)
}

/// Divide two bit patterns.
pub fn float_div(w: Width, a: u64, b: u64) -> (r: u64)
    requires
        in_width(w, a),
        in_width(w, b),
    ensures
        r == div_bits(w, a, b),
        in_width(w, r),
{
    proof {
        lemma_constants(w);
    }
    let (na, ma) = parts(w, a);
    let (nb, mb) = parts(w, b);
    let top: u64 = infinity_of(w);
    let negative = na != nb;
    if ma > top || mb > top {
        return nan_of(w);
    }
    if ma == top {
        if mb == top {
            return nan_of(w);
        }
        return join(w, negative, top);
    }
    if mb == top {
        return join(w, negative, 0);
    }
    if mb == 0 {
        if ma == 0 {
            return nan_of(w);
        }
        return join(w, negative, top);
    }
    let (sa, ea) = split(w, ma);
    let (sb, eb) = split(w, mb);
    let scale: u32 = scale_of(w);
    let x = Exact { m: sa as u128, e: ea + scale, d: sb, s: eb, root: false };
    proof {
        lemma_pow2_adds(ea as nat, scale as nat);
        let (s, p, q) = (sa as nat, pow2(ea as nat), pow2(scale as nat));
        assert(s * (p * q) == (s * p) * q) by (nonlinear_arith);
    }
    let m: u64 = nearest_magnitude(w, &x);
    join(w, negative, m)
}

/// Take a square root.
pub fn float_sqrt(w: Width, a: u64) -> (r: u64)
    requires
        in_width(w, a),
    ensures
        r == sqrt_bits(w, a),
        in_width(w, r),
{
    proof {
        lemma_constants(w);
    }
    let (n, ma) = parts(w, a);
    let top: u64 = infinity_of(w);
    if ma > top {
        return nan_of(w);
    }
    if ma == 0 {
        return a;
    }
    if n {
        return nan_of(w);
    }
    if ma == top {
        return a;
    }
    let (sa, ea) = split(w, ma);
    let scale: u32 = scale_of(w);
    let x = Exact { m: sa as u128, e: ea + scale, d: 1, s: 0, root: true };
    proof {
        lemma_pow2_adds(ea as nat, scale as nat);
        let (s, p, q) = (sa as nat, pow2(ea as nat), pow2(scale as nat));
        assert(s * (p * q) == (s * p) * q) by (nonlinear_arith);
        lemma2_to64();
    }
    let m: u64 = nearest_magnitude(w, &x);
    join(w, false, m)
}

/// The nearest bit pattern to a signed 128-bit magnitude that an integer conversion produces.
pub fn float_from_int(w: Width, negative: bool, n: u64) -> (r: u64)
    requires
        negative ==> n > 0,
    ensures
        r == integer_bits(w, if negative { -(n as int) } else { n as int }),
        in_width(w, r),
{
    proof {
        lemma_constants(w);
        lemma2_to64();
    }
    let scale: u32 = scale_of(w);
    let x = Exact { m: n as u128, e: scale, d: 1, s: 0, root: false };
    let m: u64 = nearest_magnitude(w, &x);
    join(w, negative, m)
}

/// Convert a double to the nearest single.
pub fn float_demote(a: u64) -> (r: u64)
    ensures
        r == demote_bits(a),
        in_width(Width::Single, r),
{
    let w = Width::Double;
    let (n, ma) = parts(w, a);
    let top: u64 = infinity_of(w);
    if ma > top {
        return nan_of(Width::Single);
    }
    if ma == top {
        return join(Width::Single, n, infinity_of(Width::Single));
    }
    let (sa, ea) = split(w, ma);
    let x = Exact { m: sa as u128, e: ea + 149, d: 1, s: 1074, root: false };
    proof {
        lemma_pow2_adds(ea as nat, 149);
        let (s, p, q) = (sa as nat, pow2(ea as nat), pow2(149));
        assert(s * (p * q) == (s * p) * q) by (nonlinear_arith);
    }
    let m: u64 = nearest_magnitude(Width::Single, &x);
    join(Width::Single, n, m)
}

/// Convert a single to the double it equals.
pub fn float_promote(a: u64) -> (r: u64)
    requires
        in_width(Width::Single, a),
    ensures
        r == promote_bits(a),
{
    let w = Width::Single;
    let (n, ma) = parts(w, a);
    let top: u64 = infinity_of(w);
    if ma > top {
        return nan_of(Width::Double);
    }
    if ma == top {
        return join(Width::Double, n, infinity_of(Width::Double));
    }
    let (sa, ea) = split(w, ma);
    let x = Exact { m: sa as u128, e: ea + 1074, d: 1, s: 149, root: false };
    proof {
        lemma_pow2_adds(ea as nat, 1074);
        let (s, p, q) = (sa as nat, pow2(ea as nat), pow2(1074));
        assert(s * (p * q) == (s * p) * q) by (nonlinear_arith);
    }
    let m: u64 = nearest_magnitude(Width::Double, &x);
    join(Width::Double, n, m)
}

/// The order of signed units is the order of sign and magnitude.
proof fn lemma_order(w: Width, a: u64, b: u64)
    requires
        !is_nan(w, a),
        !is_nan(w, b),
    ensures
        magnitude(w, a) < magnitude(w, b) <==> units(w, magnitude(w, a)) < units(
            w,
            magnitude(w, b),
        ),
        magnitude(w, a) == magnitude(w, b) <==> units(w, magnitude(w, a)) == units(
            w,
            magnitude(w, b),
        ),
        magnitude(w, a) == 0 <==> units(w, magnitude(w, a)) == 0,
        magnitude(w, b) == 0 <==> units(w, magnitude(w, b)) == 0,
{
    let (x, y) = (magnitude(w, a), magnitude(w, b));
    if x < y {
        lemma_units_increase(w, x, y);
    }
    if y < x {
        lemma_units_increase(w, y, x);
    }
    assert(units(w, 0) == 0) by (nonlinear_arith)
        requires
            units(w, 0) == 0 * pow2(0),
    ;
    if x > 0 {
        lemma_units_increase(w, 0, x);
    }
    if y > 0 {
        lemma_units_increase(w, 0, y);
    }
}

/// Compare for less.
pub fn float_less(w: Width, a: u64, b: u64) -> (r: bool)
    requires
        in_width(w, a),
        in_width(w, b),
    ensures
        r == less_bits(w, a, b),
{
    let (na, ma) = parts(w, a);
    let (nb, mb) = parts(w, b);
    let top: u64 = infinity_of(w);
    if ma > top || mb > top {
        return false;
    }
    proof {
        lemma_order(w, a, b);
    }
    if na {
        if nb {
            mb < ma
        } else {
            ma > 0 || mb > 0
        }
    } else if nb {
        false
    } else {
        ma < mb
    }
}

/// Compare for equality.
pub fn float_equal(w: Width, a: u64, b: u64) -> (r: bool)
    requires
        in_width(w, a),
        in_width(w, b),
    ensures
        r == equal_bits(w, a, b),
{
    let (na, ma) = parts(w, a);
    let (nb, mb) = parts(w, b);
    let top: u64 = infinity_of(w);
    if ma > top || mb > top {
        return false;
    }
    proof {
        lemma_order(w, a, b);
    }
    if na == nb {
        ma == mb
    } else {
        ma == 0 && mb == 0
    }
}

/// The smaller of two numbers.
pub fn float_min(w: Width, a: u64, b: u64) -> (r: u64)
    requires
        in_width(w, a),
        in_width(w, b),
    ensures
        r == min_bits(w, a, b),
        in_width(w, r),
{
    proof {
        lemma_constants(w);
    }
    let (na, ma) = parts(w, a);
    let (_, mb) = parts(w, b);
    let top: u64 = infinity_of(w);
    if ma > top || mb > top {
        return nan_of(w);
    }
    if float_less(w, a, b) || (float_equal(w, a, b) && na) {
        a
    } else {
        b
    }
}

/// The larger of two numbers.
pub fn float_max(w: Width, a: u64, b: u64) -> (r: u64)
    requires
        in_width(w, a),
        in_width(w, b),
    ensures
        r == max_bits(w, a, b),
        in_width(w, r),
{
    proof {
        lemma_constants(w);
    }
    let (na, ma) = parts(w, a);
    let (_, mb) = parts(w, b);
    let top: u64 = infinity_of(w);
    if ma > top || mb > top {
        return nan_of(w);
    }
    if float_less(w, b, a) || (float_equal(w, a, b) && !na) {
        a
    } else {
        b
    }
}

/// How a remainder compares with one half.
#[derive(Clone, Copy, PartialEq, Eq, Structural)]
enum Rest {
    /// Nothing remains.
    Nothing,
    /// Less than a half.
    Below,
    /// Exactly a half.
    Half,
    /// More than a half.
    Above,
}

/// Which class a remainder of `units` belongs to.
spec fn rest_class(w: Width, units: nat) -> Rest {
    let rest = units % one(w);
    if rest == 0 {
        Rest::Nothing
    } else if 2 * rest < one(w) {
        Rest::Below
    } else if 2 * rest == one(w) {
        Rest::Half
    } else {
        Rest::Above
    }
}

/// Dividing `s * 2^e` by `2^(e + k)`.
proof fn lemma_whole(s: nat, e: nat, k: nat, n: nat, r: nat)
    requires
        s == n * pow2(k) + r,
        r < pow2(k),
    ensures
        (s * pow2(e)) / pow2(e + k) == n,
        (s * pow2(e)) % pow2(e + k) == r * pow2(e),
{
    lemma_pow2_adds(e, k);
    lemma_pow2_pos(e);
    lemma_pow2_pos(k);
    let (p, q) = (pow2(e), pow2(k));
    let x = s * p;
    assert(x == n * (p * q) + r * p) by (nonlinear_arith)
        requires
            x == s * p,
            s == n * q + r,
    ;
    assert(0 <= r * p < p * q) by (nonlinear_arith)
        requires
            r < q,
            p > 0,
    ;
    lemma_fundamental_div_mod_converse(x as int, (p * q) as int, n as int, (r * p) as int);
}

/// The whole part of a magnitude below `2^53`, and what remains.
fn split_whole(w: Width, m: u64) -> (r: (u64, Rest))
    requires
        m < infinity(w),
        exponent(w, m as nat) < unit_scale(w),
    ensures
        r.0 == units(w, m as nat) / one(w),
        r.1 == rest_class(w, units(w, m as nat)),
        r.0 < 0x20_0000_0000_0000,
{
    let (sig, exp) = split(w, m);
    let k: u32 = scale_of(w) - exp;
    proof {
        lemma2_to64();
        lemma2_to64_rest();
        lemma_pow2_pos(exp as nat);
        lemma_pow2_adds(exp as nat, k as nat);
    }
    let ghost pe = pow2(exp as nat);
    if k >= 64 {
        proof {
            if k > 64 {
                lemma_pow2_strictly_increases(64, k as nat);
            }
            lemma_whole(sig as nat, exp as nat, k as nat, 0, sig as nat);
            let (s, q) = (sig as nat, pow2(k as nat));
            assert(2 * (s * pe) < pe * q) by (nonlinear_arith)
                requires
                    2 * s < q,
                    pe > 0,
            ;
            assert(s * pe == 0 <==> s == 0) by (nonlinear_arith)
                requires
                    pe > 0,
            ;
        }
        if sig == 0 {
            return (0, Rest::Nothing);
        }
        return (0, Rest::Below);
    }
    proof {
        lemma_power_64(k as nat);
        vstd::bits::lemma_u64_shl_is_mul(1u64, k as u64);
    }
    let p: u64 = 1u64 << (k as u64);
    let n: u64 = sig / p;
    let rest: u64 = sig % p;
    proof {
        lemma_fundamental_div_mod(sig as int, p as int);
        assert(p * n == n * p) by (nonlinear_arith);
        lemma_whole(sig as nat, exp as nat, k as nat, n as nat, rest as nat);
        let (r, q) = (rest as nat, p as nat);
        assert(2 * (r * pe) < pe * q <==> 2 * r < q) by (nonlinear_arith)
            requires
                pe > 0,
        ;
        assert(2 * (r * pe) == pe * q <==> 2 * r == q) by (nonlinear_arith)
            requires
                pe > 0,
        ;
        assert(r * pe == 0 <==> r == 0) by (nonlinear_arith)
            requires
                pe > 0,
        ;
        assert(n <= sig) by (nonlinear_arith)
            requires
                sig == p * n + rest,
                p >= 1,
                rest >= 0,
        ;
        assert(rest <= sig) by (nonlinear_arith)
            requires
                sig == p * n + rest,
                p >= 1,
                n >= 0,
        ;
    }
    let class = if rest == 0 {
        Rest::Nothing
    } else if 2 * rest < p {
        Rest::Below
    } else if 2 * rest == p {
        Rest::Half
    } else {
        Rest::Above
    };
    (n, class)
}

/// A magnitude with no bits below one is whole.
pub proof fn lemma_already_whole(w: Width, m: nat)
    requires
        exponent(w, m) >= unit_scale(w),
    ensures
        units(w, m) % one(w) == 0,
        (units(w, m) / one(w)) * one(w) == units(w, m),
        units(w, m) / one(w) == significand(w, m) * pow2((exponent(w, m) - unit_scale(w)) as nat),
{
    let k = (exponent(w, m) - unit_scale(w)) as nat;
    lemma_pow2_adds(k, unit_scale(w));
    lemma_pow2_pos(unit_scale(w));
    let (s, p, q) = (significand(w, m), pow2(k), one(w));
    assert(s * (p * q) == (s * p) * q) by (nonlinear_arith);
    lemma_fundamental_div_mod_converse(units(w, m) as int, q as int, (s * p) as int, 0);
}

/// Take a number to a whole one.
pub fn float_round(w: Width, how: Rounding, a: u64) -> (r: u64)
    requires
        in_width(w, a),
    ensures
        r == round_bits(w, how, a),
        in_width(w, r),
{
    proof {
        lemma_constants(w);
        lemma_pow2_pos(unit_scale(w));
    }
    let (negative, m) = parts(w, a);
    let top: u64 = infinity_of(w);
    if m > top {
        return nan_of(w);
    }
    if m == top {
        return a;
    }
    let (_, exp) = split(w, m);
    let scale: u32 = scale_of(w);
    if exp >= scale {
        proof {
            lemma_already_whole(w, m as nat);
            lemma_exact(w, m as nat);
            assert(a == pack(w, negative, m as nat));
        }
        return a;
    }
    let (n, rest) = split_whole(w, m);
    let up = match how {
        Rounding::Zero => false,
        Rounding::Up => !negative && rest != Rest::Nothing,
        Rounding::Down => negative && rest != Rest::Nothing,
        Rounding::Even => rest == Rest::Above || (rest == Rest::Half && n % 2 == 1),
    };
    let whole: u64 = if up {
        n + 1
    } else {
        n
    };
    assert(whole == whole_part(w, how, negative, m as nat));
    let x = Exact { m: whole as u128, e: scale, d: 1, s: 0, root: false };
    proof {
        lemma2_to64();
    }
    let r: u64 = nearest_magnitude(w, &x);
    join(w, negative, r)
}

/// Truncate a number to an integer: its sign and magnitude, or `None` if it is not a number or
/// its magnitude does not fit 64 bits.
pub fn float_to_int(w: Width, a: u64) -> (r: Option<(bool, u64)>)
    requires
        in_width(w, a),
    ensures
        r is None <==> is_nan(w, a) || is_infinite(w, a) || integer_of(w, a) > u64::MAX
            || integer_of(w, a) < -(u64::MAX as int),
        r matches Some((negative, n)) ==> negative == is_negative(w, a) && integer_of(w, a) == (
        if negative {
            -(n as int)
        } else {
            n as int
        }),
{
    let (negative, m) = parts(w, a);
    let top: u64 = infinity_of(w);
    if m >= top {
        return None;
    }
    let (sig, exp) = split(w, m);
    let scale: u32 = scale_of(w);
    if exp < scale {
        let (n, _) = split_whole(w, m);
        return Some((negative, n));
    }
    let k: u32 = exp - scale;
    proof {
        lemma_already_whole(w, m as nat);
        lemma2_to64();
        lemma2_to64_rest();
        lemma_pow2_pos(k as nat);
    }
    if k >= 64 {
        proof {
            if k > 64 {
                lemma_pow2_strictly_increases(64, k as nat);
            }
            let (s, p) = (sig as nat, pow2(k as nat));
            assert(s * p > u64::MAX) by (nonlinear_arith)
                requires
                    s >= 1,
                    p > u64::MAX,
            ;
        }
        return None;
    }
    let p: u128 = power(k);
    proof {
        lemma_power_64(k as nat);
        assert((sig as u128) * p <= u128::MAX) by (nonlinear_arith)
            requires
                sig < 0x20_0000_0000_0000,
                p <= 0x8000_0000_0000_0000,
        ;
    }
    let n: u128 = (sig as u128) * p;
    if n > u64::MAX as u128 {
        return None;
    }
    Some((negative, n as u64))
}

/// A number whose integer part is not zero is below zero exactly if its sign is set.
pub proof fn lemma_sign_of_integer(w: Width, bits: u64)
    requires
        in_width(w, bits),
        !is_nan(w, bits),
        is_infinite(w, bits) || integer_of(w, bits) != 0,
    ensures
        less_bits(w, bits, 0) <==> is_negative(w, bits),
        !is_infinite(w, bits) ==> (integer_of(w, bits) < 0 <==> is_negative(w, bits)),
{
    lemma_constants(w);
    lemma_order(w, bits, 0);
    lemma_pow2_pos(unit_scale(w));
    let m = magnitude(w, bits);
    assert(magnitude(w, 0) == 0);
    if m == 0 {
        assert(units(w, m) / one(w) == 0) by (nonlinear_arith)
            requires
                units(w, m) == 0,
                one(w) > 0,
        ;
    }
}

proof fn lemma_nearest_from(w: Width, x: Real, m: nat)
    requires
        m <= infinity(w),
        m == 0 || beyond(w, x, (m - 1) as nat),
    ensures
        exists|n: nat| rounds_to(w, x, n),
    decreases infinity(w) - m,
{
    if m == infinity(w) || !beyond(w, x, m) {
        assert(rounds_to(w, x, m));
    } else {
        lemma_nearest_from(w, x, m + 1);
    }
}

/// Every number has a nearest magnitude, and no other is as near.
pub proof fn law_there_is_one_nearest(w: Width, x: Real, m: nat)
    requires
        x.den > 0,
    ensures
        rounds_to(w, x, nearest(w, x)),
        rounds_to(w, x, m) ==> m == nearest(w, x),
{
    lemma_nearest_from(w, x, 0);
    if rounds_to(w, x, m) {
        lemma_nearest_is(w, x, m);
    }
}

/// A magnitude that is nearest to itself comes back unchanged.
pub proof fn law_representable_numbers_are_exact(w: Width, m: nat)
    requires
        m <= infinity(w),
    ensures
        nearest(w, Real::whole(units(w, m))) == m,
{
    lemma_exact(w, m);
}

/// Only NaN is unequal to itself.
pub proof fn law_only_nan_is_unequal_to_itself(w: Width, a: u64)
    ensures
        equal_bits(w, a, a) == !is_nan(w, a),
{
}

/// Is this a number, or the one NaN that is used?
pub open spec fn is_canonical(w: Width, bits: u64) -> bool {
    in_width(w, bits) && (is_nan(w, bits) ==> bits == canonical_nan(w))
}

proof fn lemma_packed_is_canonical(w: Width, negative: bool, m: nat)
    requires
        m <= infinity(w),
    ensures
        is_canonical(w, pack(w, negative, m)),
{
}

proof fn lemma_nearest_is_canonical(w: Width, negative: bool, x: Real)
    requires
        x.den > 0,
    ensures
        is_canonical(w, pack(w, negative, nearest(w, x))),
{
    law_there_is_one_nearest(w, x, 0);
    lemma_packed_is_canonical(w, negative, nearest(w, x));
}

/// Whatever the operands, no arithmetic gives a NaN other than the canonical one.
pub proof fn law_arithmetic_is_canonical(w: Width, a: u64, b: u64)
    requires
        in_width(w, a),
        in_width(w, b),
    ensures
        is_canonical(w, add_bits(w, a, b)),
        is_canonical(w, sub_bits(w, a, b)),
        is_canonical(w, mul_bits(w, a, b)),
        is_canonical(w, div_bits(w, a, b)),
        is_canonical(w, min_bits(w, a, b)),
        is_canonical(w, max_bits(w, a, b)),
        is_canonical(w, sqrt_bits(w, a)),
{
    lemma_sum_is_canonical(w, a, b);
    lemma_sum_is_canonical(w, a, neg_bits(w, b));
    let (ma, mb) = (magnitude(w, a), magnitude(w, b));
    let negative = is_negative(w, a) != is_negative(w, b);
    lemma_pow2_pos(unit_scale(w));
    lemma_nearest_is_canonical(
        w,
        negative,
        Real { num: units(w, ma) * units(w, mb), den: one(w), root: false },
    );
    if !is_nan(w, b) && mb > 0 {
        lemma_units_positive(w, mb);
        lemma_nearest_is_canonical(
            w,
            negative,
            Real { num: units(w, ma) * one(w), den: units(w, mb), root: false },
        );
    }
    lemma_nearest_is_canonical(
        w,
        false,
        Real { num: units(w, ma) * one(w), den: 1, root: true },
    );
}

proof fn lemma_units_positive(w: Width, m: nat)
    requires
        m > 0,
    ensures
        units(w, m) > 0,
{
    lemma_pow2_pos(exponent(w, m));
    assert(significand(w, m) > 0);
    assert(significand(w, m) * pow2(exponent(w, m)) > 0) by (nonlinear_arith)
        requires
            significand(w, m) > 0,
            pow2(exponent(w, m)) > 0,
    ;
}

proof fn lemma_sum_is_canonical(w: Width, a: u64, b: u64)
    requires
        in_width(w, a),
        in_width(w, b),
    ensures
        is_canonical(w, add_bits(w, a, b)),
{
    let sum = signed_units(w, a) + signed_units(w, b);
    if sum < 0 {
        lemma_nearest_is_canonical(w, true, Real::whole(-sum as nat));
    } else if sum > 0 {
        lemma_nearest_is_canonical(w, false, Real::whole(sum as nat));
    }
}

/// Nor does taking a number to a whole one, or to the other width.
pub proof fn law_conversions_are_canonical(w: Width, how: Rounding, a: u64)
    requires
        in_width(w, a),
    ensures
        is_canonical(w, round_bits(w, how, a)),
        is_canonical(Width::Single, demote_bits(a)),
        in_width(Width::Single, a) ==> is_canonical(Width::Double, promote_bits(a)),
{
    let m = magnitude(w, a);
    lemma_nearest_is_canonical(
        w,
        is_negative(w, a),
        Real::whole(whole_part(w, how, is_negative(w, a), m) * one(w)),
    );
    let (s, d) = (Width::Single, Width::Double);
    lemma_pow2_pos(unit_scale(s));
    lemma_pow2_pos(unit_scale(d));
    lemma_nearest_is_canonical(
        s,
        is_negative(d, a),
        Real { num: units(d, magnitude(d, a)) * one(s), den: one(d), root: false },
    );
    lemma_nearest_is_canonical(
        d,
        is_negative(s, a),
        Real { num: units(s, magnitude(s, a)) * one(d), den: one(s), root: false },
    );
}

/// Addition and multiplication do not care about the order of their operands.
pub proof fn law_operands_commute(w: Width, a: u64, b: u64)
    ensures
        in_width(w, a) && in_width(w, b) ==> add_bits(w, a, b) == add_bits(w, b, a),
        mul_bits(w, a, b) == mul_bits(w, b, a),
{
    let (ma, mb) = (magnitude(w, a), magnitude(w, b));
    assert(units(w, ma) * units(w, mb) == units(w, mb) * units(w, ma)) by (nonlinear_arith);
}

} // verus!
