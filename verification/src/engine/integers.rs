//! What the integer instructions compute, as numbers and as bits.
//!
//! The interpreter evaluates them with the machine's own operations. Here each one is held to what
//! it is for: arithmetic to the number it gives modulo a power of two, the bitwise instructions to
//! each of their bits, counting to the bits counted, comparisons to the order of the numbers. A
//! value is read as a signed number, as it is kept, or as an unsigned one.
use crate::engine::numeric::{
    TrapView, applied, lemma_quotient_fits, lemma_remainder_fits, magnitude_of, ones, quotient,
    remainder, rotated_32, rotated_64,
};
use crate::engine::operator::Operator;
use crate::state::Value;
use vstd::arithmetic::div_mod::{lemma_fundamental_div_mod, lemma_mod_bound};
use vstd::prelude::*;
use vstd::std_specs::bits::{
    axiom_u32_leading_zeros, axiom_u32_trailing_zeros, axiom_u64_leading_zeros,
    axiom_u64_trailing_zeros, u32_leading_zeros, u32_trailing_zeros, u64_leading_zeros,
    u64_trailing_zeros,
};

verus! {

/// A 32-bit integer, read as unsigned.
pub open spec fn unsigned_32(a: i32) -> int {
    if a < 0 {
        a + 0x1_0000_0000
    } else {
        a as int
    }
}

/// A 64-bit integer, read as unsigned.
pub open spec fn unsigned_64(a: i64) -> int {
    if a < 0 {
        a + 0x1_0000_0000_0000_0000
    } else {
        a as int
    }
}

/// Is a bit of a 32-bit integer set, counting from the lowest?
pub open spec fn bit_32(a: i32, k: u32) -> bool {
    ((a as u32) >> k) & 1 == 1
}

/// Is a bit of a 64-bit integer set, counting from the lowest?
pub open spec fn bit_64(a: i64, k: u64) -> bool {
    ((a as u64) >> k) & 1 == 1
}

/// What an instruction leaves of two 32-bit integers, the second on top.
pub open spec fn of_two_32(op: Operator, rest: Seq<Value>, a: i32, b: i32) -> (
    Seq<Value>,
    Result<bool, TrapView>,
) {
    applied(op, rest.push(Value::I32(a)).push(Value::I32(b)))
}

/// What an instruction leaves of two 64-bit integers, the second on top.
pub open spec fn of_two_64(op: Operator, rest: Seq<Value>, a: i64, b: i64) -> (
    Seq<Value>,
    Result<bool, TrapView>,
) {
    applied(op, rest.push(Value::I64(a)).push(Value::I64(b)))
}

/// Does an instruction leave a 32-bit integer in place of its operands?
pub open spec fn leaves_32(
    o: (Seq<Value>, Result<bool, TrapView>),
    rest: Seq<Value>,
    r: i32,
) -> bool {
    o == (rest.push(Value::I32(r)), Ok::<bool, TrapView>(true))
}

/// Does an instruction leave a 64-bit integer in place of its operands?
pub open spec fn leaves_64(
    o: (Seq<Value>, Result<bool, TrapView>),
    rest: Seq<Value>,
    r: i64,
) -> bool {
    o == (rest.push(Value::I64(r)), Ok::<bool, TrapView>(true))
}

/// The one integer of 32 bits that is a number, up to a multiple of 2^32.
pub open spec fn is_wrapped_32(r: i32, n: int) -> bool {
    (r - n) % 0x1_0000_0000 == 0
}

/// The one integer of 64 bits that is a number, up to a multiple of 2^64.
pub open spec fn is_wrapped_64(r: i64, n: int) -> bool {
    (r - n) % 0x1_0000_0000_0000_0000 == 0
}

/// A truth value, as an integer.
pub open spec fn told(b: bool) -> i32 {
    if b {
        1
    } else {
        0
    }
}

pub proof fn lemma_unsigned_32(a: i32)
    by (bit_vector)
    ensures
        a < 0 ==> (a as u32) as int == a + 0x1_0000_0000,
        a >= 0 ==> (a as u32) as int == a,
        (a as u32) as i32 == a,
{
}

pub proof fn lemma_unsigned_64(a: i64)
    by (bit_vector)
    ensures
        a < 0 ==> (a as u64) as int == a + 0x1_0000_0000_0000_0000,
        a >= 0 ==> (a as u64) as int == a,
        (a as u64) as i64 == a,
{
}

pub proof fn lemma_signed_32(n: u32)
    by (bit_vector)
    ensures
        n < 0x8000_0000 ==> (n as i32) as int == n,
        n >= 0x8000_0000 ==> (n as i32) as int == n - 0x1_0000_0000,
{
}

pub proof fn lemma_signed_64(n: u64)
    by (bit_vector)
    ensures
        n < 0x8000_0000_0000_0000 ==> (n as i64) as int == n,
        n >= 0x8000_0000_0000_0000 ==> (n as i64) as int == n - 0x1_0000_0000_0000_0000,
{
}

pub proof fn lemma_operands(rest: Seq<Value>, a: Value, b: Value)
    ensures
        rest.push(a).push(b).drop_last() == rest.push(a),
        rest.push(a).drop_last() == rest,
{
    assert(rest.push(a).push(b).drop_last() =~= rest.push(a));
    assert(rest.push(a).drop_last() =~= rest);
}

/// Sums, differences and products of 32-bit integers are what the numbers give, modulo 2^32.
pub proof fn law_arithmetic_is_modular_32(rest: Seq<Value>, a: i32, b: i32) -> (r: (i32, i32, i32))
    ensures
        leaves_32(of_two_32(Operator::I32Add, rest, a, b), rest, r.0),
        is_wrapped_32(r.0, a + b),
        leaves_32(of_two_32(Operator::I32Sub, rest, a, b), rest, r.1),
        is_wrapped_32(r.1, a - b),
        leaves_32(of_two_32(Operator::I32Mul, rest, a, b), rest, r.2),
        is_wrapped_32(r.2, a * b),
{
    lemma_operands(rest, Value::I32(a), Value::I32(b));
    (a.wrapping_add(b), a.wrapping_sub(b), a.wrapping_mul(b))
}

/// Sums, differences and products of 64-bit integers are what the numbers give, modulo 2^64.
pub proof fn law_arithmetic_is_modular_64(rest: Seq<Value>, a: i64, b: i64) -> (r: (i64, i64, i64))
    ensures
        leaves_64(of_two_64(Operator::I64Add, rest, a, b), rest, r.0),
        is_wrapped_64(r.0, a + b),
        leaves_64(of_two_64(Operator::I64Sub, rest, a, b), rest, r.1),
        is_wrapped_64(r.1, a - b),
        leaves_64(of_two_64(Operator::I64Mul, rest, a, b), rest, r.2),
        is_wrapped_64(r.2, a * b),
{
    lemma_operands(rest, Value::I64(a), Value::I64(b));
    (a.wrapping_add(b), a.wrapping_sub(b), a.wrapping_mul(b))
}

proof fn lemma_logic_32(a: i32, b: i32, k: u32)
    by (bit_vector)
    requires
        k < 32,
    ensures
        ((((a & b) as u32) >> k) & 1 == 1) <==> (((a as u32) >> k) & 1 == 1) && (((b as u32) >> k)
            & 1 == 1),
        ((((a | b) as u32) >> k) & 1 == 1) <==> (((a as u32) >> k) & 1 == 1) || (((b as u32) >> k)
            & 1 == 1),
        ((((a ^ b) as u32) >> k) & 1 == 1) <==> (((a as u32) >> k) & 1 == 1) != (((b as u32) >> k)
            & 1 == 1),
{
}

/// The logical instructions on 32 bits work on each bit alone: it is set in the result if it is in
/// both operands, in either, or in exactly one.
pub proof fn law_logic_is_bitwise_32(rest: Seq<Value>, a: i32, b: i32, k: u32) -> (r: (
    i32,
    i32,
    i32,
))
    requires
        k < 32,
    ensures
        leaves_32(of_two_32(Operator::I32And, rest, a, b), rest, r.0),
        bit_32(r.0, k) <==> bit_32(a, k) && bit_32(b, k),
        leaves_32(of_two_32(Operator::I32Or, rest, a, b), rest, r.1),
        bit_32(r.1, k) <==> bit_32(a, k) || bit_32(b, k),
        leaves_32(of_two_32(Operator::I32Xor, rest, a, b), rest, r.2),
        bit_32(r.2, k) <==> bit_32(a, k) != bit_32(b, k),
{
    lemma_operands(rest, Value::I32(a), Value::I32(b));
    lemma_logic_32(a, b, k);
    (a & b, a | b, a ^ b)
}

proof fn lemma_shifts_32(a: i32, s: u32, j: u32)
    by (bit_vector)
    requires
        s < 32,
        j < 32,
    ensures
        j + s < 32 ==> ((((a << s) as u32) >> ((j + s) as u32)) & 1 == ((a as u32) >> j) & 1),
        j < s ==> (((a << s) as u32) >> j) & 1 == 0,
        j + s < 32 ==> ((((a as u32) >> s) >> j) & 1 == ((a as u32) >> ((j + s) as u32)) & 1),
        j + s >= 32 ==> (((a as u32) >> s) >> j) & 1 == 0,
        j + s < 32 ==> ((((a >> s) as u32) >> j) & 1 == ((a as u32) >> ((j + s) as u32)) & 1),
        j + s >= 32 ==> ((((a >> s) as u32) >> j) & 1 == ((a as u32) >> 31) & 1),
        (((a as u32) >> s) as i32) as u32 == (a as u32) >> s,
{
}

/// Shifting a 32-bit integer moves each bit by the distance, modulo 32. Zeros come in, or copies of
/// the sign where that is kept.
pub proof fn law_shifts_move_bits_32(rest: Seq<Value>, a: i32, b: i32, j: u32) -> (r: (
    i32,
    i32,
    i32,
))
    requires
        j < 32,
    ensures
        leaves_32(of_two_32(Operator::I32Shl, rest, a, b), rest, r.0),
        leaves_32(of_two_32(Operator::I32ShrU, rest, a, b), rest, r.1),
        leaves_32(of_two_32(Operator::I32ShrS, rest, a, b), rest, r.2),
        ({
            let s = unsigned_32(b) % 32;
            &&& j + s < 32 ==> bit_32(r.0, (j + s) as u32) == bit_32(a, j)
            &&& j < s ==> !bit_32(r.0, j)
            &&& bit_32(r.1, j) == (j + s < 32 && bit_32(a, (j + s) as u32))
            &&& bit_32(r.2, j) == bit_32(
                a,
                if j + s < 32 {
                    (j + s) as u32
                } else {
                    31
                },
            )
        }),
{
    lemma_operands(rest, Value::I32(a), Value::I32(b));
    lemma_unsigned_32(b);
    let s = (b as u32) % 32;
    lemma_low_32(b);
    lemma_shifts_32(a, s, j);
    (a << s, ((a as u32) >> s) as i32, a >> s)
}

proof fn lemma_rotated_32(x: u32, s: u32, j: u32)
    by (bit_vector)
    requires
        0 < s < 32,
        j < 32,
    ensures
        (((x << s) | (x >> ((32 - s) as u32))) >> ((j + s) % 32) as u32) & 1 == (x >> j) & 1,
{
}

/// Rotating a 32-bit integer moves each bit by the distance, and those that fall off come in at the
/// other end.
pub proof fn law_rotations_move_bits_32(rest: Seq<Value>, a: i32, b: i32, j: u32) -> (r: (i32, i32))
    requires
        j < 32,
    ensures
        leaves_32(of_two_32(Operator::I32Rotl, rest, a, b), rest, r.0),
        bit_32(r.0, ((j + unsigned_32(b)) % 32) as u32) == bit_32(a, j),
        leaves_32(of_two_32(Operator::I32Rotr, rest, a, b), rest, r.1),
        bit_32(r.1, j) == bit_32(a, ((j + unsigned_32(b)) % 32) as u32),
{
    lemma_operands(rest, Value::I32(a), Value::I32(b));
    lemma_unsigned_32(b);
    lemma_low_32(b);
    let x = a as u32;
    let s = ((b as u32) % 32) as u32;
    let t = ((32 - s) % 32) as u32;
    let at = ((j + s) % 32) as u32;
    assert((j + unsigned_32(b)) % 32 == (j + s) % 32);
    let (p, q) = (rotated_32(x, s), rotated_32(x, t));
    lemma_back_32(p);
    lemma_back_32(q);
    if s > 0 {
        lemma_rotated_32(x, s, j);
        lemma_rotated_32(x, t, at);
        assert((at + t) % 32 == j);
    }
    (p as i32, q as i32)
}

proof fn lemma_back_32(n: u32)
    by (bit_vector)
    ensures
        (n as i32) as u32 == n,
{
}

/// Comparisons of 32-bit integers tell the order of the numbers, signed or unsigned.
pub proof fn law_comparisons_tell_the_order_32(rest: Seq<Value>, a: i32, b: i32)
    ensures
        leaves_32(of_two_32(Operator::I32Eq, rest, a, b), rest, told(a == b)),
        leaves_32(of_two_32(Operator::I32Ne, rest, a, b), rest, told(a != b)),
        leaves_32(of_two_32(Operator::I32LtS, rest, a, b), rest, told(a < b)),
        leaves_32(of_two_32(Operator::I32GtS, rest, a, b), rest, told(a > b)),
        leaves_32(of_two_32(Operator::I32LeS, rest, a, b), rest, told(a <= b)),
        leaves_32(of_two_32(Operator::I32GeS, rest, a, b), rest, told(a >= b)),
        leaves_32(
            of_two_32(Operator::I32LtU, rest, a, b),
            rest,
            told(unsigned_32(a) < unsigned_32(b)),
        ),
        leaves_32(
            of_two_32(Operator::I32GtU, rest, a, b),
            rest,
            told(unsigned_32(a) > unsigned_32(b)),
        ),
        leaves_32(
            of_two_32(Operator::I32LeU, rest, a, b),
            rest,
            told(unsigned_32(a) <= unsigned_32(b)),
        ),
        leaves_32(
            of_two_32(Operator::I32GeU, rest, a, b),
            rest,
            told(unsigned_32(a) >= unsigned_32(b)),
        ),
        leaves_32(applied(Operator::I32Eqz, rest.push(Value::I32(a))), rest, told(a == 0)),
{
    lemma_operands(rest, Value::I32(a), Value::I32(b));
    lemma_unsigned_32(a);
    lemma_unsigned_32(b);
}

/// Signed division of 32-bit integers rounds toward zero: the remainder is less than the divisor
/// and has the sign of the dividend. Division by zero traps, and so does the one quotient that is
/// out of range; the remainder of that is zero.
pub proof fn law_signed_division_32(rest: Seq<Value>, a: i32, b: i32) -> (r: (i32, i32))
    ensures
        b == 0 ==> of_two_32(Operator::I32DivS, rest, a, b).1 == Err::<bool, TrapView>(
            TrapView::DivideByZero,
        ),
        b == 0 ==> of_two_32(Operator::I32RemS, rest, a, b).1 == Err::<bool, TrapView>(
            TrapView::DivideByZero,
        ),
        a == -0x8000_0000 && b == -1 ==> of_two_32(Operator::I32DivS, rest, a, b).1 == Err::<bool, TrapView>(
            TrapView::IntegerOverflow,
        ),
        b != 0 && !(a == -0x8000_0000 && b == -1) ==> leaves_32(
            of_two_32(Operator::I32DivS, rest, a, b),
            rest,
            r.0,
        ) && r.0 * b + r.1 == a,
        b != 0 ==> leaves_32(of_two_32(Operator::I32RemS, rest, a, b), rest, r.1),
        b > 0 ==> -b < r.1 < b,
        b < 0 ==> b < r.1 < -b,
        b != 0 ==> r.1 == 0 || (r.1 < 0) == (a < 0),
        a == -0x8000_0000 && b == -1 ==> r.1 == 0,
{
    lemma_operands(rest, Value::I32(a), Value::I32(b));
    if b != 0 {
        lemma_division(a as int, b as int);
        lemma_ranges(a as int, b as int, 0x8000_0000);
    }
    (quotient(a as int, b as int) as i32, remainder(a as int, b as int) as i32)
}

/// Unsigned division of 32-bit integers gives the whole quotient and what is left.
pub proof fn law_unsigned_division_32(rest: Seq<Value>, a: i32, b: i32) -> (r: (i32, i32))
    ensures
        b == 0 ==> of_two_32(Operator::I32DivU, rest, a, b).1 == Err::<bool, TrapView>(
            TrapView::DivideByZero,
        ),
        b == 0 ==> of_two_32(Operator::I32RemU, rest, a, b).1 == Err::<bool, TrapView>(
            TrapView::DivideByZero,
        ),
        b != 0 ==> leaves_32(of_two_32(Operator::I32DivU, rest, a, b), rest, r.0),
        b != 0 ==> leaves_32(of_two_32(Operator::I32RemU, rest, a, b), rest, r.1),
        b != 0 ==> unsigned_32(a) == unsigned_32(r.0) * unsigned_32(b) + unsigned_32(r.1),
        b != 0 ==> unsigned_32(r.1) < unsigned_32(b),
{
    lemma_operands(rest, Value::I32(a), Value::I32(b));
    lemma_unsigned_32(a);
    lemma_unsigned_32(b);
    let (x, y) = (a as u32, b as u32);
    if b != 0 {
        lemma_signed_32(x / y);
        lemma_signed_32(x % y);
        lemma_fundamental_div_mod(x as int, y as int);
        assert((x / y) * y == y * (x / y)) by (nonlinear_arith);
    }
    ((x / y) as i32, (x % y) as i32)
}

/// Counting zeros of a 32-bit integer from the top or the bottom: the bits counted are clear, and
/// the next one is set.
pub proof fn law_zeros_are_counted_32(rest: Seq<Value>, a: i32, k: u32) -> (r: (i32, i32))
    requires
        k < 32,
    ensures
        leaves_32(applied(Operator::I32Clz, rest.push(Value::I32(a))), rest, r.0),
        0 <= r.0 <= 32,
        32 - r.0 <= k ==> !bit_32(a, k),
        31 - r.0 == k ==> bit_32(a, k),
        leaves_32(applied(Operator::I32Ctz, rest.push(Value::I32(a))), rest, r.1),
        0 <= r.1 <= 32,
        k < r.1 ==> !bit_32(a, k),
        k == r.1 ==> bit_32(a, k),
{
    lemma_operands(rest, Value::I32(a), Value::I32(a));
    let x = a as u32;
    axiom_u32_leading_zeros(x);
    axiom_u32_trailing_zeros(x);
    let (p, q) = (u32_leading_zeros(x), u32_trailing_zeros(x));
    if p < 32 {
        lemma_next_bit_32(x, (31 - p) as u32);
    }
    if q < 32 {
        lemma_next_bit_32(x, q as u32);
    }
    (p as i32, q as i32)
}

/// How many of the bits of a 32-bit integer from one on are set.
pub open spec fn set_bits_32(a: i32, k: nat) -> nat
    decreases 32 - k,
{
    if k >= 32 {
        0
    } else {
        (if bit_32(a, k as u32) {
            1nat
        } else {
            0
        }) + set_bits_32(a, k + 1)
    }
}

proof fn lemma_next_bit_32(x: u32, k: u32)
    by (bit_vector)
    requires
        k < 32,
    ensures
        (x >> k) % 2 == (x >> k) & 1,
        k < 31 ==> (x >> k) / 2 == x >> ((k + 1) as u32),
        k == 31 ==> (x >> k) / 2 == 0,
        x >> 0 == x,
        (x >> k) & 1 == 0 || (x >> k) & 1 == 1,
{
}

proof fn lemma_ones_32(a: i32, k: u32)
    requires
        k < 32,
    ensures
        ones(((a as u32) >> k) as nat) == set_bits_32(a, k as nat),
    decreases 32 - k,
{
    let x = a as u32;
    lemma_next_bit_32(x, k);
    if k < 31 {
        lemma_ones_32(a, (k + 1) as u32);
    } else {
        assert(set_bits_32(a, 32) == 0);
    }
    assert(ones(0) == 0);
}

/// Counting the set bits of a 32-bit integer counts each.
pub proof fn law_set_bits_are_counted_32(rest: Seq<Value>, a: i32) -> (r: i32)
    ensures
        leaves_32(applied(Operator::I32Popcnt, rest.push(Value::I32(a))), rest, r),
        r == set_bits_32(a, 0),
{
    lemma_operands(rest, Value::I32(a), Value::I32(a));
    lemma_ones_32(a, 0);
    lemma_next_bit_32(a as u32, 0);
    lemma_few_32(a, 0);
    ones((a as u32) as nat) as i32
}

proof fn lemma_few_32(a: i32, k: nat)
    ensures
        set_bits_32(a, k) <= 32,
        k <= 32 ==> set_bits_32(a, k) <= 32 - k,
    decreases 32 - k,
{
    if k < 32 {
        lemma_few_32(a, k + 1);
    }
}

proof fn lemma_logic_64(a: i64, b: i64, k: u64)
    by (bit_vector)
    requires
        k < 64,
    ensures
        ((((a & b) as u64) >> k) & 1 == 1) <==> (((a as u64) >> k) & 1 == 1) && (((b as u64) >> k)
            & 1 == 1),
        ((((a | b) as u64) >> k) & 1 == 1) <==> (((a as u64) >> k) & 1 == 1) || (((b as u64) >> k)
            & 1 == 1),
        ((((a ^ b) as u64) >> k) & 1 == 1) <==> (((a as u64) >> k) & 1 == 1) != (((b as u64) >> k)
            & 1 == 1),
{
}

/// The logical instructions on 64 bits work on each bit alone: it is set in the result if it is in
/// both operands, in either, or in exactly one.
pub proof fn law_logic_is_bitwise_64(rest: Seq<Value>, a: i64, b: i64, k: u64) -> (r: (
    i64,
    i64,
    i64,
))
    requires
        k < 64,
    ensures
        leaves_64(of_two_64(Operator::I64And, rest, a, b), rest, r.0),
        bit_64(r.0, k) <==> bit_64(a, k) && bit_64(b, k),
        leaves_64(of_two_64(Operator::I64Or, rest, a, b), rest, r.1),
        bit_64(r.1, k) <==> bit_64(a, k) || bit_64(b, k),
        leaves_64(of_two_64(Operator::I64Xor, rest, a, b), rest, r.2),
        bit_64(r.2, k) <==> bit_64(a, k) != bit_64(b, k),
{
    lemma_operands(rest, Value::I64(a), Value::I64(b));
    lemma_logic_64(a, b, k);
    (a & b, a | b, a ^ b)
}

proof fn lemma_shifts_64(a: i64, s: u64, j: u64)
    by (bit_vector)
    requires
        s < 64,
        j < 64,
    ensures
        j + s < 64 ==> ((((a << s) as u64) >> ((j + s) as u64)) & 1 == ((a as u64) >> j) & 1),
        j < s ==> (((a << s) as u64) >> j) & 1 == 0,
        j + s < 64 ==> ((((a as u64) >> s) >> j) & 1 == ((a as u64) >> ((j + s) as u64)) & 1),
        j + s >= 64 ==> (((a as u64) >> s) >> j) & 1 == 0,
        j + s < 64 ==> ((((a >> s) as u64) >> j) & 1 == ((a as u64) >> ((j + s) as u64)) & 1),
        j + s >= 64 ==> ((((a >> s) as u64) >> j) & 1 == ((a as u64) >> 63) & 1),
        (((a as u64) >> s) as i64) as u64 == (a as u64) >> s,
{
}

/// Shifting a 64-bit integer moves each bit by the distance, modulo 64. Zeros come in, or copies of
/// the sign where that is kept.
pub proof fn law_shifts_move_bits_64(rest: Seq<Value>, a: i64, b: i64, j: u64) -> (r: (
    i64,
    i64,
    i64,
))
    requires
        j < 64,
    ensures
        leaves_64(of_two_64(Operator::I64Shl, rest, a, b), rest, r.0),
        leaves_64(of_two_64(Operator::I64ShrU, rest, a, b), rest, r.1),
        leaves_64(of_two_64(Operator::I64ShrS, rest, a, b), rest, r.2),
        ({
            let s = unsigned_64(b) % 64;
            &&& j + s < 64 ==> bit_64(r.0, (j + s) as u64) == bit_64(a, j)
            &&& j < s ==> !bit_64(r.0, j)
            &&& bit_64(r.1, j) == (j + s < 64 && bit_64(a, (j + s) as u64))
            &&& bit_64(r.2, j) == bit_64(
                a,
                if j + s < 64 {
                    (j + s) as u64
                } else {
                    63
                },
            )
        }),
{
    lemma_operands(rest, Value::I64(a), Value::I64(b));
    lemma_unsigned_64(b);
    let s = (b as u64) % 64;
    lemma_low_64(b);
    lemma_shifts_64(a, s, j);
    (a << s, ((a as u64) >> s) as i64, a >> s)
}

proof fn lemma_rotated_64(x: u64, s: u32, j: u64)
    by (bit_vector)
    requires
        0 < s < 64,
        j < 64,
    ensures
        (((x << s) | (x >> ((64 - s) as u32))) >> ((j + s) % 64) as u64) & 1 == (x >> j) & 1,
{
}

/// Rotating a 64-bit integer moves each bit by the distance, and those that fall off come in at the
/// other end.
pub proof fn law_rotations_move_bits_64(rest: Seq<Value>, a: i64, b: i64, j: u64) -> (r: (i64, i64))
    requires
        j < 64,
    ensures
        leaves_64(of_two_64(Operator::I64Rotl, rest, a, b), rest, r.0),
        bit_64(r.0, ((j + unsigned_64(b)) % 64) as u64) == bit_64(a, j),
        leaves_64(of_two_64(Operator::I64Rotr, rest, a, b), rest, r.1),
        bit_64(r.1, j) == bit_64(a, ((j + unsigned_64(b)) % 64) as u64),
{
    lemma_operands(rest, Value::I64(a), Value::I64(b));
    lemma_unsigned_64(b);
    lemma_low_64(b);
    let x = a as u64;
    let s = ((b as u64) % 64) as u32;
    let t = ((64 - s) % 64) as u32;
    let at = ((j + s) % 64) as u64;
    assert((j + unsigned_64(b)) % 64 == (j + s) % 64);
    let (p, q) = (rotated_64(x, s), rotated_64(x, t));
    lemma_back_64(p);
    lemma_back_64(q);
    if s > 0 {
        lemma_rotated_64(x, s, j);
        lemma_rotated_64(x, t, at);
        assert((at + t) % 64 == j);
    }
    (p as i64, q as i64)
}

proof fn lemma_back_64(n: u64)
    by (bit_vector)
    ensures
        (n as i64) as u64 == n,
{
}

/// Comparisons of 64-bit integers tell the order of the numbers, signed or unsigned.
pub proof fn law_comparisons_tell_the_order_64(rest: Seq<Value>, a: i64, b: i64)
    ensures
        leaves_32(of_two_64(Operator::I64Eq, rest, a, b), rest, told(a == b)),
        leaves_32(of_two_64(Operator::I64Ne, rest, a, b), rest, told(a != b)),
        leaves_32(of_two_64(Operator::I64LtS, rest, a, b), rest, told(a < b)),
        leaves_32(of_two_64(Operator::I64GtS, rest, a, b), rest, told(a > b)),
        leaves_32(of_two_64(Operator::I64LeS, rest, a, b), rest, told(a <= b)),
        leaves_32(of_two_64(Operator::I64GeS, rest, a, b), rest, told(a >= b)),
        leaves_32(
            of_two_64(Operator::I64LtU, rest, a, b),
            rest,
            told(unsigned_64(a) < unsigned_64(b)),
        ),
        leaves_32(
            of_two_64(Operator::I64GtU, rest, a, b),
            rest,
            told(unsigned_64(a) > unsigned_64(b)),
        ),
        leaves_32(
            of_two_64(Operator::I64LeU, rest, a, b),
            rest,
            told(unsigned_64(a) <= unsigned_64(b)),
        ),
        leaves_32(
            of_two_64(Operator::I64GeU, rest, a, b),
            rest,
            told(unsigned_64(a) >= unsigned_64(b)),
        ),
        leaves_32(applied(Operator::I64Eqz, rest.push(Value::I64(a))), rest, told(a == 0)),
{
    lemma_operands(rest, Value::I64(a), Value::I64(b));
    lemma_unsigned_64(a);
    lemma_unsigned_64(b);
}

/// Signed division of 64-bit integers rounds toward zero: the remainder is less than the divisor
/// and has the sign of the dividend. Division by zero traps, and so does the one quotient that is
/// out of range; the remainder of that is zero.
pub proof fn law_signed_division_64(rest: Seq<Value>, a: i64, b: i64) -> (r: (i64, i64))
    ensures
        b == 0 ==> of_two_64(Operator::I64DivS, rest, a, b).1 == Err::<bool, TrapView>(
            TrapView::DivideByZero,
        ),
        b == 0 ==> of_two_64(Operator::I64RemS, rest, a, b).1 == Err::<bool, TrapView>(
            TrapView::DivideByZero,
        ),
        a == -0x8000_0000_0000_0000 && b == -1 ==> of_two_64(Operator::I64DivS, rest, a, b).1 == Err::<bool, TrapView>(
            TrapView::IntegerOverflow,
        ),
        b != 0 && !(a == -0x8000_0000_0000_0000 && b == -1) ==> leaves_64(
            of_two_64(Operator::I64DivS, rest, a, b),
            rest,
            r.0,
        ) && r.0 * b + r.1 == a,
        b != 0 ==> leaves_64(of_two_64(Operator::I64RemS, rest, a, b), rest, r.1),
        b > 0 ==> -b < r.1 < b,
        b < 0 ==> b < r.1 < -b,
        b != 0 ==> r.1 == 0 || (r.1 < 0) == (a < 0),
        a == -0x8000_0000_0000_0000 && b == -1 ==> r.1 == 0,
{
    lemma_operands(rest, Value::I64(a), Value::I64(b));
    if b != 0 {
        lemma_division(a as int, b as int);
        lemma_ranges(a as int, b as int, 0x8000_0000_0000_0000);
    }
    (quotient(a as int, b as int) as i64, remainder(a as int, b as int) as i64)
}

/// Unsigned division of 64-bit integers gives the whole quotient and what is left.
pub proof fn law_unsigned_division_64(rest: Seq<Value>, a: i64, b: i64) -> (r: (i64, i64))
    ensures
        b == 0 ==> of_two_64(Operator::I64DivU, rest, a, b).1 == Err::<bool, TrapView>(
            TrapView::DivideByZero,
        ),
        b == 0 ==> of_two_64(Operator::I64RemU, rest, a, b).1 == Err::<bool, TrapView>(
            TrapView::DivideByZero,
        ),
        b != 0 ==> leaves_64(of_two_64(Operator::I64DivU, rest, a, b), rest, r.0),
        b != 0 ==> leaves_64(of_two_64(Operator::I64RemU, rest, a, b), rest, r.1),
        b != 0 ==> unsigned_64(a) == unsigned_64(r.0) * unsigned_64(b) + unsigned_64(r.1),
        b != 0 ==> unsigned_64(r.1) < unsigned_64(b),
{
    lemma_operands(rest, Value::I64(a), Value::I64(b));
    lemma_unsigned_64(a);
    lemma_unsigned_64(b);
    let (x, y) = (a as u64, b as u64);
    if b != 0 {
        lemma_signed_64(x / y);
        lemma_signed_64(x % y);
        lemma_fundamental_div_mod(x as int, y as int);
        assert((x / y) * y == y * (x / y)) by (nonlinear_arith);
    }
    ((x / y) as i64, (x % y) as i64)
}

/// Counting zeros of a 64-bit integer from the top or the bottom: the bits counted are clear, and
/// the next one is set.
pub proof fn law_zeros_are_counted_64(rest: Seq<Value>, a: i64, k: u64) -> (r: (i64, i64))
    requires
        k < 64,
    ensures
        leaves_64(applied(Operator::I64Clz, rest.push(Value::I64(a))), rest, r.0),
        0 <= r.0 <= 64,
        64 - r.0 <= k ==> !bit_64(a, k),
        63 - r.0 == k ==> bit_64(a, k),
        leaves_64(applied(Operator::I64Ctz, rest.push(Value::I64(a))), rest, r.1),
        0 <= r.1 <= 64,
        k < r.1 ==> !bit_64(a, k),
        k == r.1 ==> bit_64(a, k),
{
    lemma_operands(rest, Value::I64(a), Value::I64(a));
    let x = a as u64;
    axiom_u64_leading_zeros(x);
    axiom_u64_trailing_zeros(x);
    let (p, q) = (u64_leading_zeros(x), u64_trailing_zeros(x));
    if p < 64 {
        lemma_next_bit_64(x, (63 - p) as u64);
    }
    if q < 64 {
        lemma_next_bit_64(x, q as u64);
    }
    (p as i64, q as i64)
}

/// How many of the bits of a 64-bit integer from one on are set.
pub open spec fn set_bits_64(a: i64, k: nat) -> nat
    decreases 64 - k,
{
    if k >= 64 {
        0
    } else {
        (if bit_64(a, k as u64) {
            1nat
        } else {
            0
        }) + set_bits_64(a, k + 1)
    }
}

proof fn lemma_next_bit_64(x: u64, k: u64)
    by (bit_vector)
    requires
        k < 64,
    ensures
        (x >> k) % 2 == (x >> k) & 1,
        k < 63 ==> (x >> k) / 2 == x >> ((k + 1) as u64),
        k == 63 ==> (x >> k) / 2 == 0,
        x >> 0 == x,
        (x >> k) & 1 == 0 || (x >> k) & 1 == 1,
{
}

proof fn lemma_ones_64(a: i64, k: u64)
    requires
        k < 64,
    ensures
        ones(((a as u64) >> k) as nat) == set_bits_64(a, k as nat),
    decreases 64 - k,
{
    let x = a as u64;
    lemma_next_bit_64(x, k);
    if k < 63 {
        lemma_ones_64(a, (k + 1) as u64);
    } else {
        assert(set_bits_64(a, 64) == 0);
    }
    assert(ones(0) == 0);
}

/// Counting the set bits of a 64-bit integer counts each.
pub proof fn law_set_bits_are_counted_64(rest: Seq<Value>, a: i64) -> (r: i64)
    ensures
        leaves_64(applied(Operator::I64Popcnt, rest.push(Value::I64(a))), rest, r),
        r == set_bits_64(a, 0),
{
    lemma_operands(rest, Value::I64(a), Value::I64(a));
    lemma_ones_64(a, 0);
    lemma_next_bit_64(a as u64, 0);
    lemma_few_64(a, 0);
    ones((a as u64) as nat) as i64
}

proof fn lemma_few_64(a: i64, k: nat)
    ensures
        set_bits_64(a, k) <= 64,
        k <= 64 ==> set_bits_64(a, k) <= 64 - k,
    decreases 64 - k,
{
    if k < 64 {
        lemma_few_64(a, k + 1);
    }
}

proof fn lemma_low_32(b: i32)
    ensures
        (b as u32) % 32 == unsigned_32(b) % 32,
{
    lemma_unsigned_32(b);
}

proof fn lemma_low_64(b: i64)
    by (bit_vector)
    ensures
        ((b as u32) % 64) as int == ((b as u64) % 64) as int,
{
}

proof fn lemma_division(a: int, b: int)
    requires
        b != 0,
    ensures
        quotient(a, b) * b + remainder(a, b) == a,
        magnitude_of(remainder(a, b)) < magnitude_of(b),
        remainder(a, b) == 0 || (remainder(a, b) < 0) == (a < 0),
{
    let (x, y) = (magnitude_of(a) as int, magnitude_of(b) as int);
    lemma_fundamental_div_mod(x, y);
    let (q, m) = (x / y, x % y);
    assert(x == y * q + m);
    assert((-q) * b == -(q * b) && q * (-b) == -(q * b) && (-q) * (-b) == q * b && q * b == b * q)
        by (nonlinear_arith);
    assert(y * q == q * y) by (nonlinear_arith);
    assert((-q) * (-y) == q * y && (-q) * y == -(q * y) && q * (-y) == -(q * y))
        by (nonlinear_arith);
    assert(0 <= m < y) by {
        lemma_mod_bound(x, y);
    }
}

proof fn lemma_ranges(a: int, b: int, limit: int)
    requires
        b != 0,
        limit > 0,
        -limit <= a < limit,
        -limit <= b < limit,
    ensures
        !(a == -limit && b == -1) ==> -limit <= quotient(a, b) < limit,
        -limit <= remainder(a, b) < limit,
        b == -1 ==> remainder(a, b) == 0,
{
    if !(a == -limit && b == -1) {
        lemma_quotient_fits(a, b, limit);
    }
    lemma_remainder_fits(a, b, limit);
    if b == -1 {
        assert(magnitude_of(a) % 1 == 0);
    }
}

/// Widening and narrowing: a value that is extended keeps its number, signed or unsigned, one that
/// is wrapped keeps it modulo the power of two that fits, and one whose low part is extended keeps
/// that part as a signed number.
pub proof fn law_conversions_keep_the_number(rest: Seq<Value>, a: i32, b: i64) -> (r: (
    (i64, i64, i32),
    (i32, i32),
    (i64, i64, i64),
))
    ensures
        leaves_64(applied(Operator::I64ExtendI32S, rest.push(Value::I32(a))), rest, (r.0).0),
        (r.0).0 == a,
        leaves_64(applied(Operator::I64ExtendI32U, rest.push(Value::I32(a))), rest, (r.0).1),
        (r.0).1 == unsigned_32(a),
        leaves_32(applied(Operator::I32WrapI64, rest.push(Value::I64(b))), rest, (r.0).2),
        is_wrapped_32((r.0).2, b as int),
        leaves_32(applied(Operator::I32Extend8S, rest.push(Value::I32(a))), rest, (r.1).0),
        -128 <= (r.1).0 < 128 && ((r.1).0 - a) % 256 == 0,
        leaves_32(applied(Operator::I32Extend16S, rest.push(Value::I32(a))), rest, (r.1).1),
        -32768 <= (r.1).1 < 32768 && ((r.1).1 - a) % 65536 == 0,
        leaves_64(applied(Operator::I64Extend8S, rest.push(Value::I64(b))), rest, (r.2).0),
        -128 <= (r.2).0 < 128 && ((r.2).0 - b) % 256 == 0,
        leaves_64(applied(Operator::I64Extend16S, rest.push(Value::I64(b))), rest, (r.2).1),
        -32768 <= (r.2).1 < 32768 && ((r.2).1 - b) % 65536 == 0,
        leaves_64(applied(Operator::I64Extend32S, rest.push(Value::I64(b))), rest, (r.2).2),
        -0x8000_0000 <= (r.2).2 < 0x8000_0000 && ((r.2).2 - b) % 0x1_0000_0000 == 0,
{
    lemma_operands(rest, Value::I32(a), Value::I32(a));
    lemma_operands(rest, Value::I64(b), Value::I64(b));
    lemma_unsigned_32(a);
    lemma_narrow_32(a);
    lemma_narrow_64(b);
    (
        (a as i64, (a as u32) as i64, b as i32),
        ((a as i8) as i32, (a as i16) as i32),
        ((b as i8) as i64, (b as i16) as i64, (b as i32) as i64),
    )
}

proof fn lemma_narrow_32(a: i32)
    by (bit_vector)
    ensures
        ((a as i8) - a) % 256 == 0,
        ((a as i16) - a) % 65536 == 0,
{
}

proof fn lemma_narrow_64(b: i64)
    by (bit_vector)
    ensures
        ((b as i8) - b) % 256 == 0,
        ((b as i16) - b) % 65536 == 0,
        ((b as i32) - b) % 0x1_0000_0000 == 0,
{
}

/// Reading an integer as the bits of a float, or the bits of a float as an integer, keeps them.
pub proof fn law_reinterpreting_keeps_the_bits(rest: Seq<Value>, a: i32, b: i64) -> (r: (u32, u64))
    ensures
        applied(Operator::F32ReinterpretI32, rest.push(Value::I32(a))) == (
            rest.push(Value::F32(r.0)),
            Ok::<bool, TrapView>(true),
        ),
        r.0 == unsigned_32(a),
        applied(Operator::F64ReinterpretI64, rest.push(Value::I64(b))) == (
            rest.push(Value::F64(r.1)),
            Ok::<bool, TrapView>(true),
        ),
        r.1 == unsigned_64(b),
        leaves_32(applied(Operator::I32ReinterpretF32, rest.push(Value::F32(r.0))), rest, a),
        leaves_64(applied(Operator::I64ReinterpretF64, rest.push(Value::F64(r.1))), rest, b),
{
    lemma_operands(rest, Value::I32(a), Value::I32(a));
    lemma_operands(rest, Value::I64(b), Value::I64(b));
    lemma_operands(rest, Value::F32(a as u32), Value::I32(a));
    lemma_operands(rest, Value::F64(b as u64), Value::I32(a));
    lemma_unsigned_32(a);
    lemma_unsigned_64(b);
    (a as u32, b as u64)
}

/// A constant is left as it is written.
pub proof fn law_constants_are_left(rest: Seq<Value>, a: i32, b: i64, c: u32, d: u64)
    ensures
        leaves_32(applied(Operator::I32Const { value: a }, rest), rest, a),
        leaves_64(applied(Operator::I64Const { value: b }, rest), rest, b),
        applied(Operator::F32Const { value: c }, rest) == (
            rest.push(Value::F32(c)),
            Ok::<bool, TrapView>(true),
        ),
        applied(Operator::F64Const { value: d }, rest) == (
            rest.push(Value::F64(d)),
            Ok::<bool, TrapView>(true),
        ),
{
}

/// An operand of another type is refused, and so is a stack that is too short.
pub proof fn law_operands_have_their_type(rest: Seq<Value>, a: i32, b: i64, c: u32, d: u64)
    ensures
        of_two_32(Operator::I32Add, rest, a, a).1 is Ok,
        applied(Operator::I32Add, rest.push(Value::I32(a)).push(Value::I64(b))).1 == Err::<
            bool,
            TrapView,
        >(TrapView::TypeMismatch),
        applied(Operator::I64Add, rest.push(Value::I64(b)).push(Value::F64(d))).1 == Err::<
            bool,
            TrapView,
        >(TrapView::TypeMismatch),
        applied(Operator::F32Add, rest.push(Value::I32(a)).push(Value::F32(c))).1 == Err::<
            bool,
            TrapView,
        >(TrapView::TypeMismatch),
        applied(Operator::I32Add, Seq::empty()).1 == Err::<bool, TrapView>(
            TrapView::StackUnderflow,
        ),
        applied(Operator::I32Add, seq![Value::I32(a)]).1 == Err::<bool, TrapView>(
            TrapView::StackUnderflow,
        ),
{
    lemma_operands(rest, Value::I32(a), Value::I32(a));
    lemma_operands(rest, Value::I32(a), Value::I64(b));
    lemma_operands(rest, Value::I64(b), Value::F64(d));
    lemma_operands(rest, Value::I32(a), Value::F32(c));
    assert(seq![Value::I32(a)].drop_last() =~= Seq::empty());
}

} // verus!
