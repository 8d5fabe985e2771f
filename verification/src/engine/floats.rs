//! What the floating-point instructions compute, as numbers.
//!
//! A bit pattern that is a number has an amount: a whole number of units, the unit being the
//! smallest number of its width above zero. Infinity counts as the amount that would follow the
//! largest. An instruction whose exact result is no such amount leaves the nearest one, the even
//! pattern where two are equally near.
use crate::engine::float::{
    Real, Rounding, Width, abs_bits, add_bits, beyond, copysign_bits, demote_bits, div_bits,
    exponent, hidden, integer_bits, integer_of, is_infinite, is_nan, is_negative,
    law_representable_numbers_are_exact, law_there_is_one_nearest, lemma_already_whole,
    lemma_split_bounds, lemma_units_increase, magnitude, max_bits, min_bits, mul_bits, nearest,
    neg_bits, one, pack, promote_bits, round_bits, signed_units, significand, sqrt_bits, sub_bits,
    twice_midpoint, unit_scale, units, whole_part,
};
use crate::engine::integers::{
    leaves_32, leaves_64, lemma_operands, lemma_signed_32, lemma_signed_64, lemma_unsigned_32,
    lemma_unsigned_64, told, unsigned_32, unsigned_64,
};
use crate::engine::numeric::{TrapView, applied};
use crate::engine::operator::Operator;
use crate::state::Value;
use vstd::arithmetic::div_mod::{
    lemma_fundamental_div_mod, lemma_fundamental_div_mod_converse, lemma_small_mod,
};
use vstd::arithmetic::power2::{
    lemma2_to64, lemma_pow2_adds, lemma_pow2_pos, lemma_pow2_unfold, pow2,
};
use vstd::prelude::*;

verus! {

/// The weight of the sign bit.
pub open spec fn half(w: Width) -> nat {
    match w {
        Width::Single => 0x8000_0000,
        Width::Double => 0x8000_0000_0000_0000,
    }
}

/// The size of infinity.
pub open spec fn top(w: Width) -> nat {
    match w {
        Width::Single => 0x7f80_0000,
        Width::Double => 0x7ff0_0000_0000_0000,
    }
}

/// How many fractions there are.
pub open spec fn fractions(w: Width) -> nat {
    match w {
        Width::Single => 0x80_0000,
        Width::Double => 0x10_0000_0000_0000,
    }
}

/// The number one, in units.
pub open spec fn unit(w: Width) -> nat {
    match w {
        Width::Single => pow2(149),
        Width::Double => pow2(1074),
    }
}

/// The one pattern that results have that are not numbers.
pub open spec fn quiet(w: Width) -> u64 {
    match w {
        Width::Single => 0x7fc0_0000,
        Width::Double => 0x7ff8_0000_0000_0000,
    }
}

/// Is the sign bit set?
pub open spec fn minus(w: Width, bits: u64) -> bool {
    bits >= half(w)
}

/// The pattern without its sign.
pub open spec fn size(w: Width, bits: u64) -> nat {
    bits as nat % half(w)
}

/// Is this pattern not a number?
pub open spec fn unreal(w: Width, bits: u64) -> bool {
    size(w, bits) > top(w)
}

/// Is this pattern infinite?
pub open spec fn endless(w: Width, bits: u64) -> bool {
    size(w, bits) == top(w)
}

/// Is this pattern a finite number?
pub open spec fn finite(w: Width, bits: u64) -> bool {
    size(w, bits) < top(w)
}

/// Is this a pattern of a width?
pub open spec fn fits(w: Width, bits: u64) -> bool {
    bits < 2 * half(w)
}

/// A pattern without sign as a number of units: below the first power, its fraction; above, its
/// fraction with a leading one, scaled by its exponent.
pub open spec fn scaled(w: Width, m: nat) -> nat {
    if m < fractions(w) {
        m
    } else {
        (fractions(w) + m % fractions(w)) * pow2((m / fractions(w) - 1) as nat)
    }
}

/// A pattern as a number of units.
pub open spec fn amount(w: Width, bits: u64) -> int {
    if minus(w, bits) {
        -(scaled(w, size(w, bits)) as int)
    } else {
        scaled(w, size(w, bits)) as int
    }
}

/// How far twice a number is above another: the number is a ratio, or the square root of one, in
/// which case this has the sign of the distance.
pub open spec fn twice_over(num: nat, den: nat, root: bool, t: nat) -> int {
    if root {
        4 * num - den * (t * t)
    } else {
        2 * num - den * t
    }
}

/// Is no other pattern nearer to a number, and none as near unless this one is even?
pub open spec fn is_nearest(w: Width, num: nat, den: nat, root: bool, m: nat) -> bool {
    &&& m <= top(w)
    &&& forall|k: nat|
        k <= top(w) && k != m ==> {
            let over = twice_over(num, den, root, scaled(w, m) + #[trigger] scaled(w, k));
            &&& k > m ==> over < 0 || over == 0 && m % 2 == 0
            &&& k < m ==> over > 0 || over == 0 && m % 2 == 0
        }
}

proof fn lemma_scaled(w: Width, m: nat)
    ensures
        scaled(w, m) == units(w, m),
        unit(w) == one(w),
        unit(w) > 0,
{
    lemma_pow2_pos(149);
    lemma_pow2_pos(1074);
    assert(pow2(0) == 1) by {
        lemma2_to64();
    }
    assert(fractions(w) == hidden(w));
    if m < fractions(w) {
        assert(m * pow2(0) == m);
    } else {
        assert((m / fractions(w) - 1) as nat == exponent(w, m));
        assert(fractions(w) + m % fractions(w) == significand(w, m));
    }
}

proof fn lemma_above(num: nat, den: nat, root: bool, s: nat, t: nat)
    requires
        den > 0,
        s < t,
    ensures
        twice_over(num, den, root, t) < twice_over(num, den, root, s),
{
    if root {
        assert(den * (s * s) < den * (t * t)) by (nonlinear_arith)
            requires
                den > 0,
                s < t,
        ;
    } else {
        assert(den * s < den * t) by (nonlinear_arith)
            requires
                den > 0,
                s < t,
        ;
    }
}

proof fn lemma_nearest(w: Width, x: Real)
    requires
        x.den > 0,
    ensures
        is_nearest(w, x.num, x.den, x.root, nearest(w, x)),
{
    let m = nearest(w, x);
    law_there_is_one_nearest(w, x, m);
    assert forall|k: nat| k <= top(w) && k != m implies {
        let over = twice_over(x.num, x.den, x.root, scaled(w, m) + #[trigger] scaled(w, k));
        &&& k > m ==> over < 0 || over == 0 && m % 2 == 0
        &&& k < m ==> over > 0 || over == 0 && m % 2 == 0
    } by {
        lemma_scaled(w, m);
        lemma_scaled(w, k);
        let t = scaled(w, m) + scaled(w, k);
        if k > m {
            let mid = twice_midpoint(w, m);
            if k > m + 1 {
                lemma_units_increase(w, m + 1, k);
                lemma_above(x.num, x.den, x.root, mid, t);
            }
            assert(!beyond(w, x, m));
        } else {
            let mid = twice_midpoint(w, (m - 1) as nat);
            if k < m - 1 {
                lemma_units_increase(w, k, (m - 1) as nat);
                lemma_above(x.num, x.den, x.root, t, mid);
            }
            assert(beyond(w, x, (m - 1) as nat));
        }
    }
}

/// Is a pattern the sum of two?
pub open spec fn is_sum(w: Width, a: u64, b: u64, r: u64) -> bool {
    let exact = amount(w, a) + amount(w, b);
    if unreal(w, a) || unreal(w, b) || endless(w, a) && endless(w, b) && minus(w, a) != minus(
        w,
        b,
    ) {
        r == quiet(w)
    } else if endless(w, a) {
        r == a
    } else if endless(w, b) {
        r == b
    } else if exact == 0 {
        size(w, r) == 0 && minus(w, r) == (minus(w, a) && minus(w, b))
    } else {
        &&& minus(w, r) == (exact < 0)
        &&& is_nearest(
            w,
            (if exact < 0 {
                -exact
            } else {
                exact
            }) as nat,
            1,
            false,
            size(w, r),
        )
    }
}

/// The pattern with its sign flipped.
pub open spec fn flipped(w: Width, a: u64) -> u64 {
    if minus(w, a) {
        (a - half(w)) as u64
    } else {
        (a + half(w)) as u64
    }
}

/// Is a pattern the product of two?
pub open spec fn is_product(w: Width, a: u64, b: u64, r: u64) -> bool {
    if unreal(w, a) || unreal(w, b) || endless(w, a) && size(w, b) == 0 || endless(w, b) && size(
        w,
        a,
    ) == 0 {
        r == quiet(w)
    } else {
        &&& minus(w, r) == (minus(w, a) != minus(w, b))
        &&& endless(w, a) || endless(w, b) ==> endless(w, r)
        &&& finite(w, a) && finite(w, b) ==> is_nearest(
            w,
            scaled(w, size(w, a)) * scaled(w, size(w, b)),
            unit(w),
            false,
            size(w, r),
        )
    }
}

/// Is a pattern the quotient of two?
pub open spec fn is_quotient(w: Width, a: u64, b: u64, r: u64) -> bool {
    if unreal(w, a) || unreal(w, b) || endless(w, a) && endless(w, b) || size(w, a) == 0 && size(
        w,
        b,
    ) == 0 {
        r == quiet(w)
    } else {
        &&& minus(w, r) == (minus(w, a) != minus(w, b))
        &&& endless(w, a) || size(w, b) == 0 ==> endless(w, r)
        &&& endless(w, b) ==> size(w, r) == 0
        &&& finite(w, a) && finite(w, b) && size(w, b) > 0 ==> is_nearest(
            w,
            scaled(w, size(w, a)) * unit(w),
            scaled(w, size(w, b)),
            false,
            size(w, r),
        )
    }
}

/// Is a pattern the square root of another?
pub open spec fn is_root(w: Width, a: u64, r: u64) -> bool {
    if unreal(w, a) || minus(w, a) && size(w, a) > 0 {
        r == quiet(w)
    } else if size(w, a) == 0 || endless(w, a) {
        r == a
    } else {
        !minus(w, r) && is_nearest(w, scaled(w, size(w, a)) * unit(w), 1, true, size(w, r))
    }
}

proof fn lemma_read(w: Width, a: u64)
    requires
        fits(w, a),
    ensures
        is_negative(w, a) == minus(w, a),
        magnitude(w, a) == size(w, a),
        signed_units(w, a) == amount(w, a),
        is_nan(w, a) == unreal(w, a),
        is_infinite(w, a) == endless(w, a),
        units(w, size(w, a)) == scaled(w, size(w, a)),
{
    match w {
        Width::Single => assert(half(w) == 0x8000_0000),
        Width::Double => assert(half(w) == 0x8000_0000_0000_0000),
    }
    assert(a as nat % half(w) == if a >= half(w) {
        a - half(w)
    } else {
        a as int
    }) by {
        if a >= half(w) {
            lemma_fundamental_div_mod_converse(
                a as int,
                half(w) as int,
                1,
                a - half(w),
            );
        } else {
            lemma_small_mod(a as nat, half(w));
        }
    }
    lemma_scaled(w, size(w, a));
}

proof fn lemma_packed(w: Width, negative: bool, m: nat)
    requires
        m <= top(w),
    ensures
        fits(w, pack(w, negative, m)),
        minus(w, pack(w, negative, m)) == negative,
        size(w, pack(w, negative, m)) == m,
{
}

proof fn lemma_flipped(w: Width, a: u64)
    requires
        fits(w, a),
    ensures
        neg_bits(w, a) == flipped(w, a),
        fits(w, flipped(w, a)),
        minus(w, flipped(w, a)) == !minus(w, a),
        size(w, flipped(w, a)) == size(w, a),
{
    lemma_read(w, a);
}

proof fn lemma_sum(w: Width, a: u64, b: u64)
    requires
        fits(w, a),
        fits(w, b),
    ensures
        is_sum(w, a, b, add_bits(w, a, b)),
        fits(w, add_bits(w, a, b)),
{
    lemma_read(w, a);
    lemma_read(w, b);
    let exact = amount(w, a) + amount(w, b);
    let n = (if exact < 0 {
        -exact
    } else {
        exact
    }) as nat;
    lemma_nearest(w, Real::whole(n));
    lemma_packed(w, exact < 0, nearest(w, Real::whole(n)));
    lemma_packed(w, minus(w, a) && minus(w, b), 0);
}

proof fn lemma_product(w: Width, a: u64, b: u64)
    requires
        fits(w, a),
        fits(w, b),
    ensures
        is_product(w, a, b, mul_bits(w, a, b)),
        fits(w, mul_bits(w, a, b)),
{
    lemma_read(w, a);
    lemma_read(w, b);
    let x = Real {
        num: scaled(w, size(w, a)) * scaled(w, size(w, b)),
        den: unit(w),
        root: false,
    };
    lemma_scaled(w, 0);
    lemma_nearest(w, x);
    lemma_packed(w, minus(w, a) != minus(w, b), nearest(w, x));
    lemma_packed(w, minus(w, a) != minus(w, b), top(w));
}

proof fn lemma_quotient(w: Width, a: u64, b: u64)
    requires
        fits(w, a),
        fits(w, b),
    ensures
        is_quotient(w, a, b, div_bits(w, a, b)),
        fits(w, div_bits(w, a, b)),
{
    lemma_read(w, a);
    lemma_read(w, b);
    let negative = minus(w, a) != minus(w, b);
    lemma_scaled(w, 0);
    lemma_packed(w, negative, top(w));
    lemma_packed(w, negative, 0);
    if size(w, b) > 0 {
        lemma_units_increase(w, 0, size(w, b));
        let x = Real {
            num: scaled(w, size(w, a)) * unit(w),
            den: scaled(w, size(w, b)),
            root: false,
        };
        lemma_nearest(w, x);
        lemma_packed(w, negative, nearest(w, x));
    }
}

proof fn lemma_root(w: Width, a: u64)
    requires
        fits(w, a),
    ensures
        is_root(w, a, sqrt_bits(w, a)),
        fits(w, sqrt_bits(w, a)),
{
    lemma_read(w, a);
    lemma_scaled(w, 0);
    let x = Real { num: scaled(w, size(w, a)) * unit(w), den: 1, root: true };
    lemma_nearest(w, x);
    lemma_packed(w, false, nearest(w, x));
}

/// Is a pattern one of two, as one of them is at most or at least the other? Of two zeros the
/// smaller is the negative one.
pub open spec fn is_extreme(w: Width, smaller: bool, a: u64, b: u64, r: u64) -> bool {
    if unreal(w, a) || unreal(w, b) {
        r == quiet(w)
    } else {
        &&& r == a || r == b
        &&& if smaller {
            &&& amount(w, r) <= amount(w, a) && amount(w, r) <= amount(w, b)
            &&& amount(w, a) == amount(w, b) ==> minus(w, r) == (minus(w, a) || minus(w, b))
        } else {
            &&& amount(w, r) >= amount(w, a) && amount(w, r) >= amount(w, b)
            &&& amount(w, a) == amount(w, b) ==> minus(w, r) == (minus(w, a) && minus(w, b))
        }
    }
}

proof fn lemma_extremes(w: Width, a: u64, b: u64)
    requires
        fits(w, a),
        fits(w, b),
    ensures
        is_extreme(w, true, a, b, min_bits(w, a, b)),
        is_extreme(w, false, a, b, max_bits(w, a, b)),
        fits(w, min_bits(w, a, b)),
        fits(w, max_bits(w, a, b)),
{
    lemma_read(w, a);
    lemma_read(w, b);
}

/// The ways to take a number to a whole one.
pub enum Way {
    /// To the next one above.
    Ceil,
    /// To the next one below.
    Floor,
    /// To the next one toward zero.
    Trunc,
    /// To the nearest, the even one of two.
    Nearest,
}

/// A number of units without its sign.
pub open spec fn plain(n: int) -> int {
    if n < 0 {
        -n
    } else {
        n
    }
}

/// Is a pattern what another is taken to as a whole number? It keeps the sign, also of zero.
pub open spec fn is_whole_of(w: Width, way: Way, a: u64, r: u64) -> bool {
    if unreal(w, a) {
        r == quiet(w)
    } else if endless(w, a) {
        r == a
    } else {
        &&& finite(w, r)
        &&& minus(w, r) == minus(w, a)
        &&& exists|n: int|
            #![trigger is_whole_number(w, amount(w, r), n)]
            is_whole_number(w, amount(w, r), n) && is_next(
                way,
                amount(w, a),
                amount(w, r),
                unit(w) as int,
                n,
            )
    }
}

/// Is one amount the next to another this way, if it is this many times the unit?
pub open spec fn is_next(way: Way, x: int, y: int, u: int, n: int) -> bool {
    match way {
        Way::Ceil => y - u < x <= y,
        Way::Floor => y <= x < y + u,
        Way::Trunc => plain(y) <= plain(x) < plain(y) + u,
        Way::Nearest => -u <= 2 * (x - y) <= u && (2 * plain(x - y) == u ==> n % 2 == 0),
    }
}

/// Is an amount this whole number?
pub open spec fn is_whole_number(w: Width, y: int, n: int) -> bool {
    y == n * unit(w)
}

proof fn lemma_representable(w: Width, n: nat, e: nat) -> (m: nat)
    requires
        n < 2 * fractions(w),
        e <= unit_scale(w),
    ensures
        m < top(w),
        units(w, m) == n * pow2(e),
    decreases e,
{
    let f = fractions(w) as int;
    if n >= f {
        let m = ((e + 1) * f + (n - f)) as nat;
        assert(m as int / f == e + 1 && m as int % f == n - f) by {
            lemma_fundamental_div_mod_converse(
                m as int,
                f,
                e as int + 1,
                n - f,
            );
        }
        assert((e + 1) * f >= f) by (nonlinear_arith)
            requires
                f > 0,
        ;
        m
    } else if e == 0 {
        assert(pow2(0) == 1) by {
            lemma2_to64();
        }
        n
    } else {
        lemma_pow2_unfold(e);
        let m = lemma_representable(w, 2 * n, (e - 1) as nat);
        let p = pow2((e - 1) as nat);
        assert((2 * n) * p == n * (2 * p)) by (nonlinear_arith);
        m
    }
}

proof fn lemma_whole_fits(w: Width, how: Rounding, negative: bool, m: nat) -> (k: nat)
    requires
        m < top(w),
    ensures
        k < top(w),
        units(w, k) == whole_part(w, how, negative, m) * one(w),
        nearest(w, Real::whole(whole_part(w, how, negative, m) * one(w))) == k,
{
    let n = whole_part(w, how, negative, m);
    let k = if exponent(w, m) >= unit_scale(w) {
        lemma_already_whole(w, m);
        assert(2 * 0 <= one(w));
        lemma_scaled(w, m);
        assert(n == units(w, m) / one(w));
        m
    } else {
        lemma_split_bounds(w, m);
        let (s, e) = (significand(w, m), exponent(w, m));
        let d = (unit_scale(w) - e) as nat;
        lemma_pow2_adds(e, d);
        lemma_pow2_pos(e);
        lemma_pow2_pos(d);
        lemma_pow2_unfold(d);
        lemma_pow2_pos((d - 1) as nat);
        let (p, q) = (pow2(e) as int, pow2(d) as int);
        let f = fractions(w) as int;
        assert(s * p < f * (p * q)) by (nonlinear_arith)
            requires
                s < 2 * f,
                q >= 2,
                p > 0,
                f > 0,
        ;
        lemma_scaled(w, m);
        lemma_fundamental_div_mod(units(w, m) as int, one(w) as int);
        let quotient = units(w, m) as int / one(w) as int;
        let u = one(w) as int;
        assert(quotient < f) by (nonlinear_arith)
            requires
                u * quotient <= units(w, m),
                units(w, m) < f * u,
                u > 0,
        ;
        assert(n <= quotient + 1);
        let k = lemma_representable(w, n, unit_scale(w));
        assert(units(w, k) == n * one(w));
        k
    };
    assert(units(w, k) == n * one(w));
    law_representable_numbers_are_exact(w, k);
    k
}

/// The way of a rounding.
pub open spec fn way_of(how: Rounding) -> Way {
    match how {
        Rounding::Up => Way::Ceil,
        Rounding::Down => Way::Floor,
        Rounding::Zero => Way::Trunc,
        Rounding::Even => Way::Nearest,
    }
}

/// A number with a sign.
pub open spec fn with_sign(negative: bool, n: nat) -> int {
    if negative {
        -(n as int)
    } else {
        n as int
    }
}

proof fn lemma_next(w: Width, how: Rounding, negative: bool, m: nat)
    ensures
        ({
            let n = whole_part(w, how, negative, m);
            let u = one(w);
            let y = with_sign(negative, n * u);
            &&& is_next(
                way_of(how),
                with_sign(negative, units(w, m)),
                y,
                u as int,
                with_sign(negative, n),
            )
            &&& y == with_sign(negative, n) * u
        }),
{
    lemma_scaled(w, m);
    let n = whole_part(w, how, negative, m) as int;
    let (u, v) = (one(w) as int, units(w, m) as int);
    lemma_fundamental_div_mod(v, u);
    let (q, rest) = (v / u, v % u);
    assert(u * q == q * u && (q + 1) * u == q * u + u && (-n) * u == -(n * u))
        by (nonlinear_arith);
    assert(n == q || n == q + 1);
}

proof fn lemma_rounded(w: Width, how: Rounding, a: u64)
    requires
        fits(w, a),
    ensures
        is_whole_of(w, way_of(how), a, round_bits(w, how, a)),
        fits(w, round_bits(w, how, a)),
{
    lemma_read(w, a);
    if finite(w, a) {
        let (negative, m) = (minus(w, a), size(w, a));
        let n = whole_part(w, how, negative, m);
        let k = lemma_whole_fits(w, how, negative, m);
        lemma_packed(w, negative, k);
        lemma_scaled(w, k);
        lemma_next(w, how, negative, m);
        let r = round_bits(w, how, a);
        assert(amount(w, a) == with_sign(negative, units(w, m)));
        assert(amount(w, r) == with_sign(negative, n * one(w)));
        assert(unit(w) == one(w));
        assert(is_next(
            way_of(how),
            amount(w, a),
            amount(w, r),
            unit(w) as int,
            with_sign(negative, n),
        ));
        assert(is_whole_number(w, amount(w, r), with_sign(negative, n)));
    }
}

/// Is a whole number what a finite pattern is toward zero?
pub open spec fn is_toward_zero(w: Width, a: u64, n: int) -> bool {
    let (x, u) = (amount(w, a), unit(w) as int);
    &&& plain(n) * u <= plain(x) < plain(n) * u + u
    &&& n == 0 || (n < 0) == (x < 0)
}

proof fn lemma_integer(w: Width, a: u64)
    requires
        fits(w, a),
        finite(w, a),
    ensures
        is_toward_zero(w, a, integer_of(w, a)),
{
    lemma_read(w, a);
    lemma_scaled(w, size(w, a));
    let u = unit(w) as int;
    let v = units(w, size(w, a)) as int;
    lemma_fundamental_div_mod(v, u);
    let q = v / u;
    assert(u * q == q * u) by (nonlinear_arith);
    assert(v > 0 || q == 0) by (nonlinear_arith)
        requires
            v >= 0,
            q >= 0,
            u * q <= v,
            u > 0,
    ;
}

/// Is a pattern the nearest to a whole number?
pub open spec fn is_float_of(w: Width, n: int, r: u64) -> bool {
    minus(w, r) == (n < 0) && is_nearest(w, (plain(n) * unit(w)) as nat, 1, false, size(w, r))
}

proof fn lemma_float(w: Width, n: int)
    ensures
        is_float_of(w, n, integer_bits(w, n)),
        fits(w, integer_bits(w, n)),
{
    lemma_scaled(w, 0);
    let m = plain(n) as nat;
    assert(plain(n) * unit(w) == m * one(w));
    lemma_nearest(w, Real::whole(m * one(w)));
    lemma_packed(w, n < 0, nearest(w, Real::whole(m * one(w))));
}

/// Is a pattern of one width the nearest to a pattern of another?
pub open spec fn is_width_change(from: Width, to: Width, a: u64, r: u64) -> bool {
    if unreal(from, a) {
        r == quiet(to)
    } else {
        &&& minus(to, r) == minus(from, a)
        &&& endless(from, a) ==> endless(to, r)
        &&& finite(from, a) ==> is_nearest(
            to,
            scaled(from, size(from, a)) * unit(to),
            unit(from),
            false,
            size(to, r),
        )
    }
}

proof fn lemma_width_change(a: u64)
    ensures
        is_width_change(Width::Double, Width::Single, a, demote_bits(a)),
        fits(Width::Single, demote_bits(a)),
        fits(Width::Single, a) ==> is_width_change(
            Width::Single,
            Width::Double,
            a,
            promote_bits(a),
        ),
{
    let (s, d) = (Width::Single, Width::Double);
    lemma_scaled(s, 0);
    lemma_scaled(d, 0);
    lemma_read(d, a);
    let x = Real { num: scaled(d, size(d, a)) * unit(s), den: unit(d), root: false };
    lemma_nearest(s, x);
    lemma_packed(s, minus(d, a), nearest(s, x));
    lemma_packed(s, minus(d, a), top(s));
    if fits(s, a) {
        lemma_read(s, a);
        let y = Real { num: scaled(s, size(s, a)) * unit(d), den: unit(s), root: false };
        lemma_nearest(d, y);
        lemma_packed(d, minus(s, a), nearest(d, y));
        lemma_packed(d, minus(s, a), top(d));
    }
}

/// An integer within bounds, or the bound it is past.
pub open spec fn clamped(w: Width, a: u64, n: int, low: int, high: int) -> int {
    if unreal(w, a) {
        0
    } else if endless(w, a) && minus(w, a) || finite(w, a) && n < low {
        low
    } else if endless(w, a) || n > high {
        high
    } else {
        n
    }
}

/// Does an instruction leave a 32-bit float?
pub open spec fn leaves_f32(o: (Seq<Value>, Result<bool, TrapView>), rest: Seq<Value>, r: u32) -> bool {
    o == (rest.push(Value::F32(r)), Ok::<bool, TrapView>(true))
}

/// What an instruction leaves of two 32-bit floats, the second on top.
pub open spec fn of_two_f32(op: Operator, rest: Seq<Value>, a: u32, b: u32) -> (
    Seq<Value>,
    Result<bool, TrapView>,
) {
    applied(op, rest.push(Value::F32(a)).push(Value::F32(b)))
}

/// What an instruction leaves of one 32-bit float.
pub open spec fn of_one_f32(op: Operator, rest: Seq<Value>, a: u32) -> (
    Seq<Value>,
    Result<bool, TrapView>,
) {
    applied(op, rest.push(Value::F32(a)))
}

/// Arithmetic on 32-bit floats leaves the number nearest to the exact result.
pub proof fn law_arithmetic_rounds_to_nearest_32(rest: Seq<Value>, a: u32, b: u32) -> (r: (
    u32,
    u32,
    u32,
    u32,
    u32,
))
    ensures
        leaves_f32(of_two_f32(Operator::F32Add, rest, a, b), rest, r.0),
        is_sum(Width::Single, a as u64, b as u64, r.0 as u64),
        leaves_f32(of_two_f32(Operator::F32Sub, rest, a, b), rest, r.1),
        is_sum(Width::Single, a as u64, flipped(Width::Single, b as u64), r.1 as u64),
        leaves_f32(of_two_f32(Operator::F32Mul, rest, a, b), rest, r.2),
        is_product(Width::Single, a as u64, b as u64, r.2 as u64),
        leaves_f32(of_two_f32(Operator::F32Div, rest, a, b), rest, r.3),
        is_quotient(Width::Single, a as u64, b as u64, r.3 as u64),
        leaves_f32(of_one_f32(Operator::F32Sqrt, rest, a), rest, r.4),
        is_root(Width::Single, a as u64, r.4 as u64),
{
    let (w, x, y) = (Width::Single, a as u64, b as u64);
    lemma_operands(rest, Value::F32(a), Value::F32(b));
    lemma_sum(w, x, y);
    lemma_flipped(w, y);
    lemma_sum(w, x, flipped(w, y));
    lemma_product(w, x, y);
    lemma_quotient(w, x, y);
    lemma_root(w, x);
    (
        add_bits(w, x, y) as u32,
        sub_bits(w, x, y) as u32,
        mul_bits(w, x, y) as u32,
        div_bits(w, x, y) as u32,
        sqrt_bits(w, x) as u32,
    )
}

/// Comparisons of 32-bit floats tell the order of the numbers. What is no number is unequal to
/// everything and neither before nor after anything.
pub proof fn law_floats_are_ordered_32(rest: Seq<Value>, a: u32, b: u32)
    ensures
        ({
            let (w, x, y) = (Width::Single, a as u64, b as u64);
            let both = !unreal(w, x) && !unreal(w, y);
            let (m, n) = (amount(w, x), amount(w, y));
            &&& leaves_32(of_two_f32(Operator::F32Eq, rest, a, b), rest, told(both && m == n))
            &&& leaves_32(of_two_f32(Operator::F32Ne, rest, a, b), rest, told(!both || m != n))
            &&& leaves_32(of_two_f32(Operator::F32Lt, rest, a, b), rest, told(both && m < n))
            &&& leaves_32(of_two_f32(Operator::F32Gt, rest, a, b), rest, told(both && m > n))
            &&& leaves_32(of_two_f32(Operator::F32Le, rest, a, b), rest, told(both && m <= n))
            &&& leaves_32(of_two_f32(Operator::F32Ge, rest, a, b), rest, told(both && m >= n))
        }),
{
    lemma_operands(rest, Value::F32(a), Value::F32(b));
    lemma_read(Width::Single, a as u64);
    lemma_read(Width::Single, b as u64);
}

/// The smaller and the larger of two 32-bit floats are one of them.
pub proof fn law_extremes_are_operands_32(rest: Seq<Value>, a: u32, b: u32) -> (r: (u32, u32))
    ensures
        leaves_f32(of_two_f32(Operator::F32Min, rest, a, b), rest, r.0),
        is_extreme(Width::Single, true, a as u64, b as u64, r.0 as u64),
        leaves_f32(of_two_f32(Operator::F32Max, rest, a, b), rest, r.1),
        is_extreme(Width::Single, false, a as u64, b as u64, r.1 as u64),
{
    let (w, x, y) = (Width::Single, a as u64, b as u64);
    lemma_operands(rest, Value::F32(a), Value::F32(b));
    lemma_extremes(w, x, y);
    (min_bits(w, x, y) as u32, max_bits(w, x, y) as u32)
}

/// The sign of a 32-bit float is cleared, flipped or taken from another, whatever the rest of it
/// is; the rest stays.
pub proof fn law_signs_change_alone_32(rest: Seq<Value>, a: u32, b: u32) -> (r: (u32, u32, u32))
    ensures
        leaves_f32(of_one_f32(Operator::F32Abs, rest, a), rest, r.0),
        r.0 == size(Width::Single, a as u64),
        leaves_f32(of_one_f32(Operator::F32Neg, rest, a), rest, r.1),
        r.1 == flipped(Width::Single, a as u64),
        leaves_f32(of_two_f32(Operator::F32Copysign, rest, a, b), rest, r.2),
        size(Width::Single, r.2 as u64) == size(Width::Single, a as u64),
        minus(Width::Single, r.2 as u64) == minus(Width::Single, b as u64),
{
    let (w, x, y) = (Width::Single, a as u64, b as u64);
    lemma_operands(rest, Value::F32(a), Value::F32(b));
    lemma_read(w, x);
    lemma_read(w, y);
    lemma_flipped(w, x);
    (
        abs_bits(w, x) as u32,
        neg_bits(w, x) as u32,
        copysign_bits(w, x, y) as u32,
    )
}

/// A 32-bit float is taken to the whole number above it, below it, toward zero, or nearest to it.
pub proof fn law_floats_are_taken_to_whole_numbers_32(rest: Seq<Value>, a: u32) -> (r: (
    u32,
    u32,
    u32,
    u32,
))
    ensures
        leaves_f32(of_one_f32(Operator::F32Ceil, rest, a), rest, r.0),
        is_whole_of(Width::Single, Way::Ceil, a as u64, r.0 as u64),
        leaves_f32(of_one_f32(Operator::F32Floor, rest, a), rest, r.1),
        is_whole_of(Width::Single, Way::Floor, a as u64, r.1 as u64),
        leaves_f32(of_one_f32(Operator::F32Trunc, rest, a), rest, r.2),
        is_whole_of(Width::Single, Way::Trunc, a as u64, r.2 as u64),
        leaves_f32(of_one_f32(Operator::F32Nearest, rest, a), rest, r.3),
        is_whole_of(Width::Single, Way::Nearest, a as u64, r.3 as u64),
{
    let (w, x) = (Width::Single, a as u64);
    lemma_operands(rest, Value::F32(a), Value::F32(a));
    lemma_rounded(w, Rounding::Up, x);
    lemma_rounded(w, Rounding::Down, x);
    lemma_rounded(w, Rounding::Zero, x);
    lemma_rounded(w, Rounding::Even, x);
    (
        round_bits(w, Rounding::Up, x) as u32,
        round_bits(w, Rounding::Down, x) as u32,
        round_bits(w, Rounding::Zero, x) as u32,
        round_bits(w, Rounding::Even, x) as u32,
    )
}

/// A 32-bit float becomes the integer it is toward zero. It traps exactly if it is not finite or
/// that integer is out of range.
pub proof fn law_floats_become_integers_32(rest: Seq<Value>, a: u32) -> (n: int)
    ensures
        finite(Width::Single, a as u64) ==> is_toward_zero(Width::Single, a as u64, n),
        ({
            let ends = finite(Width::Single, a as u64);
            let bad = Err::<bool, TrapView>(TrapView::BadConversion);
            let (o, p) = (
                of_one_f32(Operator::I32TruncF32S, rest, a),
                of_one_f32(Operator::I32TruncF32U, rest, a),
            );
            let (q, s) = (
                of_one_f32(Operator::I64TruncF32S, rest, a),
                of_one_f32(Operator::I64TruncF32U, rest, a),
            );
            &&& if ends && -0x8000_0000 <= n < 0x8000_0000 {
                leaves_32(o, rest, n as i32) && (n as i32) as int == n
            } else {
                o.1 == bad
            }
            &&& if ends && 0 <= n < 0x1_0000_0000 {
                leaves_32(p, rest, (n as u32) as i32) && unsigned_32((n as u32) as i32) == n
            } else {
                p.1 == bad
            }
            &&& if ends && -0x8000_0000_0000_0000 <= n < 0x8000_0000_0000_0000 {
                leaves_64(q, rest, n as i64) && (n as i64) as int == n
            } else {
                q.1 == bad
            }
            &&& if ends && 0 <= n < 0x1_0000_0000_0000_0000 {
                leaves_64(s, rest, (n as u64) as i64) && unsigned_64((n as u64) as i64) == n
            } else {
                s.1 == bad
            }
        }),
{
    let (w, x) = (Width::Single, a as u64);
    lemma_operands(rest, Value::F32(a), Value::F32(a));
    lemma_read(w, x);
    if finite(w, x) {
        lemma_integer(w, x);
    }
    let n = integer_of(w, x);
    if 0 <= n < 0x1_0000_0000 {
        lemma_signed_32(n as u32);
    }
    if 0 <= n < 0x1_0000_0000_0000_0000 {
        lemma_signed_64(n as u64);
    }
    n
}

/// A 32-bit float becomes the integer it is toward zero, or the nearest one in range. What is no
/// number becomes zero.
pub proof fn law_floats_become_integers_in_range_32(rest: Seq<Value>, a: u32) -> (n: int)
    ensures
        finite(Width::Single, a as u64) ==> is_toward_zero(Width::Single, a as u64, n),
        ({
            let (w, x) = (Width::Single, a as u64);
            let i = clamped(w, x, n, -0x8000_0000, 0x7fff_ffff);
            let j = clamped(w, x, n, 0, 0xffff_ffff);
            let k = clamped(w, x, n, -0x8000_0000_0000_0000, 0x7fff_ffff_ffff_ffff);
            let l = clamped(w, x, n, 0, 0xffff_ffff_ffff_ffff);
            &&& leaves_32(of_one_f32(Operator::I32TruncSatF32S, rest, a), rest, i as i32)
            &&& (i as i32) as int == i
            &&& leaves_32(of_one_f32(Operator::I32TruncSatF32U, rest, a), rest, (j as u32) as i32)
            &&& unsigned_32((j as u32) as i32) == j
            &&& leaves_64(of_one_f32(Operator::I64TruncSatF32S, rest, a), rest, k as i64)
            &&& (k as i64) as int == k
            &&& leaves_64(of_one_f32(Operator::I64TruncSatF32U, rest, a), rest, (l as u64) as i64)
            &&& unsigned_64((l as u64) as i64) == l
        }),
{
    let (w, x) = (Width::Single, a as u64);
    lemma_operands(rest, Value::F32(a), Value::F32(a));
    lemma_read(w, x);
    if finite(w, x) {
        lemma_integer(w, x);
    }
    let n = integer_of(w, x);
    let j = clamped(w, x, n, 0, 0xffff_ffff);
    let l = clamped(w, x, n, 0, 0xffff_ffff_ffff_ffff);
    lemma_signed_32(j as u32);
    lemma_signed_64(l as u64);
    n
}

/// An integer becomes the 32-bit float nearest to it.
pub proof fn law_integers_become_floats_32(rest: Seq<Value>, a: i32, b: i64) -> (r: (
    u32,
    u32,
    u32,
    u32,
))
    ensures
        leaves_f32(applied(Operator::F32ConvertI32S, rest.push(Value::I32(a))), rest, r.0),
        is_float_of(Width::Single, a as int, r.0 as u64),
        leaves_f32(applied(Operator::F32ConvertI32U, rest.push(Value::I32(a))), rest, r.1),
        is_float_of(Width::Single, unsigned_32(a), r.1 as u64),
        leaves_f32(applied(Operator::F32ConvertI64S, rest.push(Value::I64(b))), rest, r.2),
        is_float_of(Width::Single, b as int, r.2 as u64),
        leaves_f32(applied(Operator::F32ConvertI64U, rest.push(Value::I64(b))), rest, r.3),
        is_float_of(Width::Single, unsigned_64(b), r.3 as u64),
{
    let w = Width::Single;
    lemma_operands(rest, Value::I32(a), Value::I32(a));
    lemma_operands(rest, Value::I64(b), Value::I64(b));
    lemma_unsigned_32(a);
    lemma_unsigned_64(b);
    lemma_float(w, a as int);
    lemma_float(w, unsigned_32(a));
    lemma_float(w, b as int);
    lemma_float(w, unsigned_64(b));
    (
        integer_bits(w, a as int) as u32,
        integer_bits(w, unsigned_32(a)) as u32,
        integer_bits(w, b as int) as u32,
        integer_bits(w, unsigned_64(b)) as u32,
    )
}

/// Does an instruction leave a 64-bit float?
pub open spec fn leaves_f64(o: (Seq<Value>, Result<bool, TrapView>), rest: Seq<Value>, r: u64) -> bool {
    o == (rest.push(Value::F64(r)), Ok::<bool, TrapView>(true))
}

/// What an instruction leaves of two 64-bit floats, the second on top.
pub open spec fn of_two_f64(op: Operator, rest: Seq<Value>, a: u64, b: u64) -> (
    Seq<Value>,
    Result<bool, TrapView>,
) {
    applied(op, rest.push(Value::F64(a)).push(Value::F64(b)))
}

/// What an instruction leaves of one 64-bit float.
pub open spec fn of_one_f64(op: Operator, rest: Seq<Value>, a: u64) -> (
    Seq<Value>,
    Result<bool, TrapView>,
) {
    applied(op, rest.push(Value::F64(a)))
}

/// Arithmetic on 64-bit floats leaves the number nearest to the exact result.
pub proof fn law_arithmetic_rounds_to_nearest_64(rest: Seq<Value>, a: u64, b: u64) -> (r: (
    u64,
    u64,
    u64,
    u64,
    u64,
))
    ensures
        leaves_f64(of_two_f64(Operator::F64Add, rest, a, b), rest, r.0),
        is_sum(Width::Double, a as u64, b as u64, r.0 as u64),
        leaves_f64(of_two_f64(Operator::F64Sub, rest, a, b), rest, r.1),
        is_sum(Width::Double, a as u64, flipped(Width::Double, b as u64), r.1 as u64),
        leaves_f64(of_two_f64(Operator::F64Mul, rest, a, b), rest, r.2),
        is_product(Width::Double, a as u64, b as u64, r.2 as u64),
        leaves_f64(of_two_f64(Operator::F64Div, rest, a, b), rest, r.3),
        is_quotient(Width::Double, a as u64, b as u64, r.3 as u64),
        leaves_f64(of_one_f64(Operator::F64Sqrt, rest, a), rest, r.4),
        is_root(Width::Double, a as u64, r.4 as u64),
{
    let (w, x, y) = (Width::Double, a as u64, b as u64);
    lemma_operands(rest, Value::F64(a), Value::F64(b));
    lemma_sum(w, x, y);
    lemma_flipped(w, y);
    lemma_sum(w, x, flipped(w, y));
    lemma_product(w, x, y);
    lemma_quotient(w, x, y);
    lemma_root(w, x);
    (
        add_bits(w, x, y) as u64,
        sub_bits(w, x, y) as u64,
        mul_bits(w, x, y) as u64,
        div_bits(w, x, y) as u64,
        sqrt_bits(w, x) as u64,
    )
}

/// Comparisons of 64-bit floats tell the order of the numbers. What is no number is unequal to
/// everything and neither before nor after anything.
pub proof fn law_floats_are_ordered_64(rest: Seq<Value>, a: u64, b: u64)
    ensures
        ({
            let (w, x, y) = (Width::Double, a as u64, b as u64);
            let both = !unreal(w, x) && !unreal(w, y);
            let (m, n) = (amount(w, x), amount(w, y));
            &&& leaves_32(of_two_f64(Operator::F64Eq, rest, a, b), rest, told(both && m == n))
            &&& leaves_32(of_two_f64(Operator::F64Ne, rest, a, b), rest, told(!both || m != n))
            &&& leaves_32(of_two_f64(Operator::F64Lt, rest, a, b), rest, told(both && m < n))
            &&& leaves_32(of_two_f64(Operator::F64Gt, rest, a, b), rest, told(both && m > n))
            &&& leaves_32(of_two_f64(Operator::F64Le, rest, a, b), rest, told(both && m <= n))
            &&& leaves_32(of_two_f64(Operator::F64Ge, rest, a, b), rest, told(both && m >= n))
        }),
{
    lemma_operands(rest, Value::F64(a), Value::F64(b));
    lemma_read(Width::Double, a as u64);
    lemma_read(Width::Double, b as u64);
}

/// The smaller and the larger of two 64-bit floats are one of them.
pub proof fn law_extremes_are_operands_64(rest: Seq<Value>, a: u64, b: u64) -> (r: (u64, u64))
    ensures
        leaves_f64(of_two_f64(Operator::F64Min, rest, a, b), rest, r.0),
        is_extreme(Width::Double, true, a as u64, b as u64, r.0 as u64),
        leaves_f64(of_two_f64(Operator::F64Max, rest, a, b), rest, r.1),
        is_extreme(Width::Double, false, a as u64, b as u64, r.1 as u64),
{
    let (w, x, y) = (Width::Double, a as u64, b as u64);
    lemma_operands(rest, Value::F64(a), Value::F64(b));
    lemma_extremes(w, x, y);
    (min_bits(w, x, y) as u64, max_bits(w, x, y) as u64)
}

/// The sign of a 64-bit float is cleared, flipped or taken from another, whatever the rest of it
/// is; the rest stays.
pub proof fn law_signs_change_alone_64(rest: Seq<Value>, a: u64, b: u64) -> (r: (u64, u64, u64))
    ensures
        leaves_f64(of_one_f64(Operator::F64Abs, rest, a), rest, r.0),
        r.0 == size(Width::Double, a as u64),
        leaves_f64(of_one_f64(Operator::F64Neg, rest, a), rest, r.1),
        r.1 == flipped(Width::Double, a as u64),
        leaves_f64(of_two_f64(Operator::F64Copysign, rest, a, b), rest, r.2),
        size(Width::Double, r.2 as u64) == size(Width::Double, a as u64),
        minus(Width::Double, r.2 as u64) == minus(Width::Double, b as u64),
{
    let (w, x, y) = (Width::Double, a as u64, b as u64);
    lemma_operands(rest, Value::F64(a), Value::F64(b));
    lemma_read(w, x);
    lemma_read(w, y);
    lemma_flipped(w, x);
    (
        abs_bits(w, x) as u64,
        neg_bits(w, x) as u64,
        copysign_bits(w, x, y) as u64,
    )
}

/// A 64-bit float is taken to the whole number above it, below it, toward zero, or nearest to it.
pub proof fn law_floats_are_taken_to_whole_numbers_64(rest: Seq<Value>, a: u64) -> (r: (
    u64,
    u64,
    u64,
    u64,
))
    ensures
        leaves_f64(of_one_f64(Operator::F64Ceil, rest, a), rest, r.0),
        is_whole_of(Width::Double, Way::Ceil, a as u64, r.0 as u64),
        leaves_f64(of_one_f64(Operator::F64Floor, rest, a), rest, r.1),
        is_whole_of(Width::Double, Way::Floor, a as u64, r.1 as u64),
        leaves_f64(of_one_f64(Operator::F64Trunc, rest, a), rest, r.2),
        is_whole_of(Width::Double, Way::Trunc, a as u64, r.2 as u64),
        leaves_f64(of_one_f64(Operator::F64Nearest, rest, a), rest, r.3),
        is_whole_of(Width::Double, Way::Nearest, a as u64, r.3 as u64),
{
    let (w, x) = (Width::Double, a as u64);
    lemma_operands(rest, Value::F64(a), Value::F64(a));
    lemma_rounded(w, Rounding::Up, x);
    lemma_rounded(w, Rounding::Down, x);
    lemma_rounded(w, Rounding::Zero, x);
    lemma_rounded(w, Rounding::Even, x);
    (
        round_bits(w, Rounding::Up, x) as u64,
        round_bits(w, Rounding::Down, x) as u64,
        round_bits(w, Rounding::Zero, x) as u64,
        round_bits(w, Rounding::Even, x) as u64,
    )
}

/// A 64-bit float becomes the integer it is toward zero. It traps exactly if it is not finite or
/// that integer is out of range.
pub proof fn law_floats_become_integers_64(rest: Seq<Value>, a: u64) -> (n: int)
    ensures
        finite(Width::Double, a as u64) ==> is_toward_zero(Width::Double, a as u64, n),
        ({
            let ends = finite(Width::Double, a as u64);
            let bad = Err::<bool, TrapView>(TrapView::BadConversion);
            let (o, p) = (
                of_one_f64(Operator::I32TruncF64S, rest, a),
                of_one_f64(Operator::I32TruncF64U, rest, a),
            );
            let (q, s) = (
                of_one_f64(Operator::I64TruncF64S, rest, a),
                of_one_f64(Operator::I64TruncF64U, rest, a),
            );
            &&& if ends && -0x8000_0000 <= n < 0x8000_0000 {
                leaves_32(o, rest, n as i32) && (n as i32) as int == n
            } else {
                o.1 == bad
            }
            &&& if ends && 0 <= n < 0x1_0000_0000 {
                leaves_32(p, rest, (n as u32) as i32) && unsigned_32((n as u32) as i32) == n
            } else {
                p.1 == bad
            }
            &&& if ends && -0x8000_0000_0000_0000 <= n < 0x8000_0000_0000_0000 {
                leaves_64(q, rest, n as i64) && (n as i64) as int == n
            } else {
                q.1 == bad
            }
            &&& if ends && 0 <= n < 0x1_0000_0000_0000_0000 {
                leaves_64(s, rest, (n as u64) as i64) && unsigned_64((n as u64) as i64) == n
            } else {
                s.1 == bad
            }
        }),
{
    let (w, x) = (Width::Double, a as u64);
    lemma_operands(rest, Value::F64(a), Value::F64(a));
    lemma_read(w, x);
    if finite(w, x) {
        lemma_integer(w, x);
    }
    let n = integer_of(w, x);
    if 0 <= n < 0x1_0000_0000 {
        lemma_signed_32(n as u32);
    }
    if 0 <= n < 0x1_0000_0000_0000_0000 {
        lemma_signed_64(n as u64);
    }
    n
}

/// A 64-bit float becomes the integer it is toward zero, or the nearest one in range. What is no
/// number becomes zero.
pub proof fn law_floats_become_integers_in_range_64(rest: Seq<Value>, a: u64) -> (n: int)
    ensures
        finite(Width::Double, a as u64) ==> is_toward_zero(Width::Double, a as u64, n),
        ({
            let (w, x) = (Width::Double, a as u64);
            let i = clamped(w, x, n, -0x8000_0000, 0x7fff_ffff);
            let j = clamped(w, x, n, 0, 0xffff_ffff);
            let k = clamped(w, x, n, -0x8000_0000_0000_0000, 0x7fff_ffff_ffff_ffff);
            let l = clamped(w, x, n, 0, 0xffff_ffff_ffff_ffff);
            &&& leaves_32(of_one_f64(Operator::I32TruncSatF64S, rest, a), rest, i as i32)
            &&& (i as i32) as int == i
            &&& leaves_32(of_one_f64(Operator::I32TruncSatF64U, rest, a), rest, (j as u32) as i32)
            &&& unsigned_32((j as u32) as i32) == j
            &&& leaves_64(of_one_f64(Operator::I64TruncSatF64S, rest, a), rest, k as i64)
            &&& (k as i64) as int == k
            &&& leaves_64(of_one_f64(Operator::I64TruncSatF64U, rest, a), rest, (l as u64) as i64)
            &&& unsigned_64((l as u64) as i64) == l
        }),
{
    let (w, x) = (Width::Double, a as u64);
    lemma_operands(rest, Value::F64(a), Value::F64(a));
    lemma_read(w, x);
    if finite(w, x) {
        lemma_integer(w, x);
    }
    let n = integer_of(w, x);
    let j = clamped(w, x, n, 0, 0xffff_ffff);
    let l = clamped(w, x, n, 0, 0xffff_ffff_ffff_ffff);
    lemma_signed_32(j as u32);
    lemma_signed_64(l as u64);
    n
}

/// An integer becomes the 64-bit float nearest to it.
pub proof fn law_integers_become_floats_64(rest: Seq<Value>, a: i32, b: i64) -> (r: (
    u64,
    u64,
    u64,
    u64,
))
    ensures
        leaves_f64(applied(Operator::F64ConvertI32S, rest.push(Value::I32(a))), rest, r.0),
        is_float_of(Width::Double, a as int, r.0 as u64),
        leaves_f64(applied(Operator::F64ConvertI32U, rest.push(Value::I32(a))), rest, r.1),
        is_float_of(Width::Double, unsigned_32(a), r.1 as u64),
        leaves_f64(applied(Operator::F64ConvertI64S, rest.push(Value::I64(b))), rest, r.2),
        is_float_of(Width::Double, b as int, r.2 as u64),
        leaves_f64(applied(Operator::F64ConvertI64U, rest.push(Value::I64(b))), rest, r.3),
        is_float_of(Width::Double, unsigned_64(b), r.3 as u64),
{
    let w = Width::Double;
    lemma_operands(rest, Value::I32(a), Value::I32(a));
    lemma_operands(rest, Value::I64(b), Value::I64(b));
    lemma_unsigned_32(a);
    lemma_unsigned_64(b);
    lemma_float(w, a as int);
    lemma_float(w, unsigned_32(a));
    lemma_float(w, b as int);
    lemma_float(w, unsigned_64(b));
    (
        integer_bits(w, a as int) as u64,
        integer_bits(w, unsigned_32(a)) as u64,
        integer_bits(w, b as int) as u64,
        integer_bits(w, unsigned_64(b)) as u64,
    )
}

/// A float becomes the nearest one of the other width.
pub proof fn law_floats_change_their_width(rest: Seq<Value>, a: u32, b: u64) -> (r: (u64, u32))
    ensures
        leaves_f64(of_one_f32(Operator::F64PromoteF32, rest, a), rest, r.0),
        is_width_change(Width::Single, Width::Double, a as u64, r.0),
        leaves_f32(of_one_f64(Operator::F32DemoteF64, rest, b), rest, r.1),
        is_width_change(Width::Double, Width::Single, b, r.1 as u64),
{
    lemma_operands(rest, Value::F32(a), Value::F32(a));
    lemma_operands(rest, Value::F64(b), Value::F64(b));
    lemma_width_change(a as u64);
    lemma_width_change(b);
    (promote_bits(a as u64), demote_bits(b) as u32)
}

} // verus!
