//! The numeric instructions.
//!
//! Pure stack transformations, separated from the machine.
//!
//! # Corner cases that do not announce themselves
//!
//! - **`div_s` traps on `INT_MIN / -1`**, because the true quotient is not representable.
//!   `rem_s` on the same operands does **not** trap; it yields zero.
//! - **Shift counts are taken modulo the width.** `i32.shl` by 32 is a shift by 0, not zero.
//! - **`min` and `max` are not `if a < b`.** Either operand being NaN gives NaN, and the sign of
//!   zero is directed: `min(+0, -0)` is `-0` and `max(+0, -0)` is `+0`.
//! - **`nearest` rounds halves to even**, not away from zero. `nearest(2.5)` is `2`.
//! - **`trunc` traps on NaN and on out-of-range**, while `trunc_sat` clamps instead.
use crate::engine::float::{
    Rounding, Width, abs_bits, add_bits, copysign_bits, demote_bits, div_bits, equal_bits,
    float_abs, float_add, float_copysign, float_demote, float_div, float_equal, float_from_int,
    float_less, float_max, float_min, float_mul, float_neg, float_promote, float_round, float_sqrt,
    float_sub, float_to_int, in_width, integer_bits, integer_of, is_infinite, is_nan, is_negative,
    less_bits, max_bits, min_bits, mul_bits, neg_bits, promote_bits, round_bits, sqrt_bits,
    sub_bits,
};
use crate::engine::operator::Operator;
use crate::state::Value;
use crate::text;
use vstd::prelude::*;
use vstd::std_specs::bits::{
    u32_leading_zeros, u32_trailing_zeros, u64_leading_zeros, u64_trailing_zeros,
};

verus! {

/// A trap: execution stops here, deterministically, on every machine.
///
/// Traps are part of a work unit's observable result. Two workers must agree not only on the
/// answer to a computation but on whether it trapped and where, so the cases are never merged.
#[derive(Debug, Clone, PartialEq, Eq)]
pub enum Trap {
    /// `unreachable` was executed.
    Unreachable,
    /// An integer division or remainder by zero.
    DivideByZero,
    /// A signed division whose result is not representable: `INT_MIN / -1`.
    IntegerOverflow,
    /// A float-to-integer conversion of a NaN or of a value outside the target range.
    BadConversion,
    /// A memory access outside the addressable region.
    MemoryOutOfBounds,
    /// A table access outside the table.
    TableOutOfBounds,
    /// An indirect call to an empty table slot.
    UninitializedElement,
    /// An indirect call whose target has a different signature.
    SignatureMismatch,
    /// The call stack exceeded its limit.
    CallStackExhausted,
    /// The work unit ran out of fuel.
    OutOfFuel,
    /// The operand stack did not hold what an instruction required.
    StackUnderflow,
    /// An operand had the wrong type.
    TypeMismatch,
    /// An instruction outside the admitted set reached the interpreter.
    Unsupported {
        /// The operator, rendered for a human.
        operator: String,
    },
    /// A machine rebuilt from a witness touched a page the witness does not carry.
    WitnessIncomplete {
        /// The page index.
        page: u32,
    },
}

/// Which trap, with its text as characters.
pub enum TrapView {
    /// `unreachable` was executed.
    Unreachable,
    /// An integer division or remainder by zero.
    DivideByZero,
    /// A signed division whose result is not representable: `INT_MIN / -1`.
    IntegerOverflow,
    /// A float-to-integer conversion of a NaN or of a value outside the target range.
    BadConversion,
    /// A memory access outside the addressable region.
    MemoryOutOfBounds,
    /// A table access outside the table.
    TableOutOfBounds,
    /// An indirect call to an empty table slot.
    UninitializedElement,
    /// An indirect call whose target has a different signature.
    SignatureMismatch,
    /// The call stack exceeded its limit.
    CallStackExhausted,
    /// The work unit ran out of fuel.
    OutOfFuel,
    /// The operand stack did not hold what an instruction required.
    StackUnderflow,
    /// An operand had the wrong type.
    TypeMismatch,
    /// An instruction outside the admitted set.
    Unsupported {
        /// The operator's rendering.
        operator: Seq<char>,
    },
    /// A page that a witness does not carry.
    WitnessIncomplete {
        /// The page index.
        page: u32,
    },
}

impl View for Trap {
    type V = TrapView;

    open spec fn view(&self) -> TrapView {
        match *self {
            Trap::Unreachable => TrapView::Unreachable,
            Trap::DivideByZero => TrapView::DivideByZero,
            Trap::IntegerOverflow => TrapView::IntegerOverflow,
            Trap::BadConversion => TrapView::BadConversion,
            Trap::MemoryOutOfBounds => TrapView::MemoryOutOfBounds,
            Trap::TableOutOfBounds => TrapView::TableOutOfBounds,
            Trap::UninitializedElement => TrapView::UninitializedElement,
            Trap::SignatureMismatch => TrapView::SignatureMismatch,
            Trap::CallStackExhausted => TrapView::CallStackExhausted,
            Trap::OutOfFuel => TrapView::OutOfFuel,
            Trap::StackUnderflow => TrapView::StackUnderflow,
            Trap::TypeMismatch => TrapView::TypeMismatch,
            Trap::Unsupported { operator } => TrapView::Unsupported { operator: operator@ },
            Trap::WitnessIncomplete { page } => TrapView::WitnessIncomplete { page },
        }
    }
}

impl TrapView {
    /// The message a person reads.
    pub open spec fn message(self) -> Seq<char> {
        match self {
            TrapView::Unreachable => "unreachable executed"@,
            TrapView::DivideByZero => "integer divide by zero"@,
            TrapView::IntegerOverflow => "integer overflow"@,
            TrapView::BadConversion => "invalid conversion to integer"@,
            TrapView::MemoryOutOfBounds => "out of bounds memory access"@,
            TrapView::TableOutOfBounds => "out of bounds table access"@,
            TrapView::UninitializedElement => "uninitialized element"@,
            TrapView::SignatureMismatch => "indirect call type mismatch"@,
            TrapView::CallStackExhausted => "call stack exhausted"@,
            TrapView::OutOfFuel => "out of fuel"@,
            TrapView::StackUnderflow => "operand stack underflow"@,
            TrapView::TypeMismatch => "operand type mismatch"@,
            TrapView::Unsupported { operator } => "unsupported instruction `"@ + operator + "`"@,
            TrapView::WitnessIncomplete { page } => "page "@ + text::decimal_text(page as nat)
                + " is not part of the witness"@,
        }
    }
}

impl Trap {
    /// Render the trap.
    #[must_use]
    pub fn to_string(&self) -> (r: String)
        ensures
            r@ == self@.message(),
    {
        match self {
            Trap::Unreachable => String::from_str("unreachable executed"),
            Trap::DivideByZero => String::from_str("integer divide by zero"),
            Trap::IntegerOverflow => String::from_str("integer overflow"),
            Trap::BadConversion => String::from_str("invalid conversion to integer"),
            Trap::MemoryOutOfBounds => String::from_str("out of bounds memory access"),
            Trap::TableOutOfBounds => String::from_str("out of bounds table access"),
            Trap::UninitializedElement => String::from_str("uninitialized element"),
            Trap::SignatureMismatch => String::from_str("indirect call type mismatch"),
            Trap::CallStackExhausted => String::from_str("call stack exhausted"),
            Trap::OutOfFuel => String::from_str("out of fuel"),
            Trap::StackUnderflow => String::from_str("operand stack underflow"),
            Trap::TypeMismatch => String::from_str("operand type mismatch"),
            Trap::Unsupported { operator } => text::join3(
                "unsupported instruction `",
                operator.as_str(),
                "`",
            ),
            Trap::WitnessIncomplete { page } => {
                let n = text::decimal(*page as u64);
                text::join3("page ", n.as_str(), " is not part of the witness")
            },
        }
    }
}

/// The operand stack an instruction acts on.
pub type Stack = Vec<Value>;

/// The type of a value.
#[derive(Debug, Clone, Copy, PartialEq, Eq, Structural)]
pub enum Kind {
    /// A 32-bit integer.
    I32,
    /// A 64-bit integer.
    I64,
    /// A 32-bit float.
    F32,
    /// A 64-bit float.
    F64,
}

/// The type of a value.
pub open spec fn kind_of(v: Value) -> Kind {
    match v {
        Value::I32(_) => Kind::I32,
        Value::I64(_) => Kind::I64,
        Value::F32(_) => Kind::F32,
        Value::F64(_) => Kind::F64,
    }
}

/// What an instruction takes from the stack.
#[derive(Debug, Clone, Copy, PartialEq, Eq, Structural)]
pub enum Shape {
    /// Nothing: it is a constant.
    Constant(Value),
    /// One value of a type.
    Unary(Kind),
    /// Two values of one type.
    Binary(Kind),
    /// It is not a numeric instruction.
    NotNumeric,
}

/// What a numeric instruction takes from the stack.
pub open spec fn shape(op: Operator) -> Shape {
    match op {
        Operator::I32Const { value } => Shape::Constant(Value::I32(value)),
        Operator::I64Const { value } => Shape::Constant(Value::I64(value)),
        Operator::F32Const { value } => Shape::Constant(Value::F32(value)),
        Operator::F64Const { value } => Shape::Constant(Value::F64(value)),
        Operator::I32Eqz
        | Operator::I32Clz
        | Operator::I32Ctz
        | Operator::I32Popcnt
        | Operator::I64ExtendI32S
        | Operator::I64ExtendI32U
        | Operator::I32Extend8S
        | Operator::I32Extend16S
        | Operator::F32ConvertI32S
        | Operator::F32ConvertI32U
        | Operator::F64ConvertI32S
        | Operator::F64ConvertI32U
        | Operator::F32ReinterpretI32 => Shape::Unary(Kind::I32),
        Operator::I64Eqz
        | Operator::I64Clz
        | Operator::I64Ctz
        | Operator::I64Popcnt
        | Operator::I32WrapI64
        | Operator::I64Extend8S
        | Operator::I64Extend16S
        | Operator::I64Extend32S
        | Operator::F32ConvertI64S
        | Operator::F32ConvertI64U
        | Operator::F64ConvertI64S
        | Operator::F64ConvertI64U
        | Operator::F64ReinterpretI64 => Shape::Unary(Kind::I64),
        Operator::F32Abs
        | Operator::F32Neg
        | Operator::F32Ceil
        | Operator::F32Floor
        | Operator::F32Trunc
        | Operator::F32Nearest
        | Operator::F32Sqrt
        | Operator::F64PromoteF32
        | Operator::I32ReinterpretF32
        | Operator::I32TruncF32S
        | Operator::I32TruncF32U
        | Operator::I64TruncF32S
        | Operator::I64TruncF32U
        | Operator::I32TruncSatF32S
        | Operator::I32TruncSatF32U
        | Operator::I64TruncSatF32S
        | Operator::I64TruncSatF32U => Shape::Unary(Kind::F32),
        Operator::F64Abs
        | Operator::F64Neg
        | Operator::F64Ceil
        | Operator::F64Floor
        | Operator::F64Trunc
        | Operator::F64Nearest
        | Operator::F64Sqrt
        | Operator::F32DemoteF64
        | Operator::I64ReinterpretF64
        | Operator::I32TruncF64S
        | Operator::I32TruncF64U
        | Operator::I64TruncF64S
        | Operator::I64TruncF64U
        | Operator::I32TruncSatF64S
        | Operator::I32TruncSatF64U
        | Operator::I64TruncSatF64S
        | Operator::I64TruncSatF64U => Shape::Unary(Kind::F64),
        Operator::I32Eq
        | Operator::I32Ne
        | Operator::I32LtS
        | Operator::I32LtU
        | Operator::I32GtS
        | Operator::I32GtU
        | Operator::I32LeS
        | Operator::I32LeU
        | Operator::I32GeS
        | Operator::I32GeU
        | Operator::I32Add
        | Operator::I32Sub
        | Operator::I32Mul
        | Operator::I32DivS
        | Operator::I32DivU
        | Operator::I32RemS
        | Operator::I32RemU
        | Operator::I32And
        | Operator::I32Or
        | Operator::I32Xor
        | Operator::I32Shl
        | Operator::I32ShrS
        | Operator::I32ShrU
        | Operator::I32Rotl
        | Operator::I32Rotr => Shape::Binary(Kind::I32),
        Operator::I64Eq
        | Operator::I64Ne
        | Operator::I64LtS
        | Operator::I64LtU
        | Operator::I64GtS
        | Operator::I64GtU
        | Operator::I64LeS
        | Operator::I64LeU
        | Operator::I64GeS
        | Operator::I64GeU
        | Operator::I64Add
        | Operator::I64Sub
        | Operator::I64Mul
        | Operator::I64DivS
        | Operator::I64DivU
        | Operator::I64RemS
        | Operator::I64RemU
        | Operator::I64And
        | Operator::I64Or
        | Operator::I64Xor
        | Operator::I64Shl
        | Operator::I64ShrS
        | Operator::I64ShrU
        | Operator::I64Rotl
        | Operator::I64Rotr => Shape::Binary(Kind::I64),
        Operator::F32Eq
        | Operator::F32Ne
        | Operator::F32Lt
        | Operator::F32Gt
        | Operator::F32Le
        | Operator::F32Ge
        | Operator::F32Add
        | Operator::F32Sub
        | Operator::F32Mul
        | Operator::F32Div
        | Operator::F32Min
        | Operator::F32Max
        | Operator::F32Copysign => Shape::Binary(Kind::F32),
        Operator::F64Eq
        | Operator::F64Ne
        | Operator::F64Lt
        | Operator::F64Gt
        | Operator::F64Le
        | Operator::F64Ge
        | Operator::F64Add
        | Operator::F64Sub
        | Operator::F64Mul
        | Operator::F64Div
        | Operator::F64Min
        | Operator::F64Max
        | Operator::F64Copysign => Shape::Binary(Kind::F64),
        _ => Shape::NotNumeric,
    }
}

fn shape_of(op: &Operator) -> (r: Shape)
    ensures
        r == shape(*op),
{
    match op {
        Operator::I32Const { value } => Shape::Constant(Value::I32(*value)),
        Operator::I64Const { value } => Shape::Constant(Value::I64(*value)),
        Operator::F32Const { value } => Shape::Constant(Value::F32(*value)),
        Operator::F64Const { value } => Shape::Constant(Value::F64(*value)),
        Operator::I32Eqz
        | Operator::I32Clz
        | Operator::I32Ctz
        | Operator::I32Popcnt
        | Operator::I64ExtendI32S
        | Operator::I64ExtendI32U
        | Operator::I32Extend8S
        | Operator::I32Extend16S
        | Operator::F32ConvertI32S
        | Operator::F32ConvertI32U
        | Operator::F64ConvertI32S
        | Operator::F64ConvertI32U
        | Operator::F32ReinterpretI32 => Shape::Unary(Kind::I32),
        Operator::I64Eqz
        | Operator::I64Clz
        | Operator::I64Ctz
        | Operator::I64Popcnt
        | Operator::I32WrapI64
        | Operator::I64Extend8S
        | Operator::I64Extend16S
        | Operator::I64Extend32S
        | Operator::F32ConvertI64S
        | Operator::F32ConvertI64U
        | Operator::F64ConvertI64S
        | Operator::F64ConvertI64U
        | Operator::F64ReinterpretI64 => Shape::Unary(Kind::I64),
        Operator::F32Abs
        | Operator::F32Neg
        | Operator::F32Ceil
        | Operator::F32Floor
        | Operator::F32Trunc
        | Operator::F32Nearest
        | Operator::F32Sqrt
        | Operator::F64PromoteF32
        | Operator::I32ReinterpretF32
        | Operator::I32TruncF32S
        | Operator::I32TruncF32U
        | Operator::I64TruncF32S
        | Operator::I64TruncF32U
        | Operator::I32TruncSatF32S
        | Operator::I32TruncSatF32U
        | Operator::I64TruncSatF32S
        | Operator::I64TruncSatF32U => Shape::Unary(Kind::F32),
        Operator::F64Abs
        | Operator::F64Neg
        | Operator::F64Ceil
        | Operator::F64Floor
        | Operator::F64Trunc
        | Operator::F64Nearest
        | Operator::F64Sqrt
        | Operator::F32DemoteF64
        | Operator::I64ReinterpretF64
        | Operator::I32TruncF64S
        | Operator::I32TruncF64U
        | Operator::I64TruncF64S
        | Operator::I64TruncF64U
        | Operator::I32TruncSatF64S
        | Operator::I32TruncSatF64U
        | Operator::I64TruncSatF64S
        | Operator::I64TruncSatF64U => Shape::Unary(Kind::F64),
        Operator::I32Eq
        | Operator::I32Ne
        | Operator::I32LtS
        | Operator::I32LtU
        | Operator::I32GtS
        | Operator::I32GtU
        | Operator::I32LeS
        | Operator::I32LeU
        | Operator::I32GeS
        | Operator::I32GeU
        | Operator::I32Add
        | Operator::I32Sub
        | Operator::I32Mul
        | Operator::I32DivS
        | Operator::I32DivU
        | Operator::I32RemS
        | Operator::I32RemU
        | Operator::I32And
        | Operator::I32Or
        | Operator::I32Xor
        | Operator::I32Shl
        | Operator::I32ShrS
        | Operator::I32ShrU
        | Operator::I32Rotl
        | Operator::I32Rotr => Shape::Binary(Kind::I32),
        Operator::I64Eq
        | Operator::I64Ne
        | Operator::I64LtS
        | Operator::I64LtU
        | Operator::I64GtS
        | Operator::I64GtU
        | Operator::I64LeS
        | Operator::I64LeU
        | Operator::I64GeS
        | Operator::I64GeU
        | Operator::I64Add
        | Operator::I64Sub
        | Operator::I64Mul
        | Operator::I64DivS
        | Operator::I64DivU
        | Operator::I64RemS
        | Operator::I64RemU
        | Operator::I64And
        | Operator::I64Or
        | Operator::I64Xor
        | Operator::I64Shl
        | Operator::I64ShrS
        | Operator::I64ShrU
        | Operator::I64Rotl
        | Operator::I64Rotr => Shape::Binary(Kind::I64),
        Operator::F32Eq
        | Operator::F32Ne
        | Operator::F32Lt
        | Operator::F32Gt
        | Operator::F32Le
        | Operator::F32Ge
        | Operator::F32Add
        | Operator::F32Sub
        | Operator::F32Mul
        | Operator::F32Div
        | Operator::F32Min
        | Operator::F32Max
        | Operator::F32Copysign => Shape::Binary(Kind::F32),
        Operator::F64Eq
        | Operator::F64Ne
        | Operator::F64Lt
        | Operator::F64Gt
        | Operator::F64Le
        | Operator::F64Ge
        | Operator::F64Add
        | Operator::F64Sub
        | Operator::F64Mul
        | Operator::F64Div
        | Operator::F64Min
        | Operator::F64Max
        | Operator::F64Copysign => Shape::Binary(Kind::F64),
        _ => Shape::NotNumeric,
    }
}

/// A truth value on the stack.
pub open spec fn truth(b: bool) -> Value {
    Value::I32(if b {
        1
    } else {
        0
    })
}

fn truth_value(b: bool) -> (r: Value)
    ensures
        r == truth(b),
{
    Value::I32(if b {
        1
    } else {
        0
    })
}

/// The magnitude of an integer.
pub open spec fn magnitude_of(a: int) -> nat {
    if a < 0 {
        -a as nat
    } else {
        a as nat
    }
}

/// The quotient, rounded toward zero.
pub open spec fn quotient(a: int, b: int) -> int {
    let q = (magnitude_of(a) / magnitude_of(b)) as int;
    if (a < 0) != (b < 0) {
        -q
    } else {
        q
    }
}

/// The remainder, which takes the sign of the dividend.
pub open spec fn remainder(a: int, b: int) -> int {
    let r = (magnitude_of(a) % magnitude_of(b)) as int;
    if a < 0 {
        -r
    } else {
        r
    }
}

fn magnitude_exec(a: i64) -> (r: u64)
    ensures
        r == magnitude_of(a as int),
        r <= 0x8000_0000_0000_0000,
{
    if a < 0 {
        (-(a as i128)) as u64
    } else {
        a as u64
    }
}

/// Divide, rounding toward zero.
fn divide(a: i64, b: i64) -> (r: i128)
    requires
        b != 0,
    ensures
        r == quotient(a as int, b as int),
{
    let q: u64 = magnitude_exec(a) / magnitude_exec(b);
    if (a < 0) != (b < 0) {
        -(q as i128)
    } else {
        q as i128
    }
}

/// The remainder of a division that rounds toward zero.
fn remain(a: i64, b: i64) -> (r: i128)
    requires
        b != 0,
    ensures
        r == remainder(a as int, b as int),
{
    let q: u64 = magnitude_exec(a) % magnitude_exec(b);
    if a < 0 {
        -(q as i128)
    } else {
        q as i128
    }
}

pub proof fn lemma_quotient_fits(a: int, b: int, limit: int)
    requires
        b != 0,
        limit > 0,
        -limit <= a < limit,
        !(a == -limit && b == -1),
    ensures
        -limit <= quotient(a, b) < limit,
{
    let (x, y) = (magnitude_of(a), magnitude_of(b));
    assert(x / y <= x) by (nonlinear_arith)
        requires
            y >= 1,
    ;
    if y > 1 && x > 0 {
        assert(x / y < x) by (nonlinear_arith)
            requires
                y > 1,
                x > 0,
        ;
    } else if y == 1 {
        assert(x / 1 == x);
    }
}

pub proof fn lemma_remainder_fits(a: int, b: int, limit: int)
    requires
        b != 0,
        -limit <= b < limit,
    ensures
        -limit <= remainder(a, b) < limit,
{
    let (x, y) = (magnitude_of(a), magnitude_of(b));
    assert(0 <= x % y < y) by (nonlinear_arith)
        requires
            y >= 1,
    ;
}

/// How many bits are set.
pub open spec fn ones(x: nat) -> nat
    decreases x,
{
    if x == 0 {
        0
    } else {
        x % 2 + ones(x / 2)
    }
}

fn count_ones(x: u64) -> (r: u32)
    ensures
        r == ones(x as nat),
        r <= 64,
{
    let mut rest: u64 = x;
    let mut n: u32 = 0;
    let mut left: u32 = 64;
    proof {
        crate::bytes::lemma_pow256_values();
        vstd::arithmetic::power2::lemma2_to64();
    }
    while rest > 0
        invariant
            n + ones(rest as nat) == ones(x as nat),
            n + left <= 64,
            rest < vstd::arithmetic::power2::pow2(left as nat),
        decreases rest,
    {
        proof {
            if left == 0 {
                vstd::arithmetic::power2::lemma2_to64();
            } else {
                vstd::arithmetic::power2::lemma_pow2_unfold(left as nat);
            }
        }
        n = n + (rest % 2) as u32;
        rest = rest / 2;
        left = left - 1;
    }
    n
}

/// Rotate left.
pub open spec fn rotated_32(x: u32, k: u32) -> u32 {
    if k == 0 {
        x
    } else {
        (x << k) | (x >> ((32 - k) as u32))
    }
}

/// Rotate left.
pub open spec fn rotated_64(x: u64, k: u32) -> u64 {
    if k == 0 {
        x
    } else {
        (x << k) | (x >> ((64 - k) as u32))
    }
}

fn rotate_32(x: u32, k: u32) -> (r: u32)
    requires
        k < 32,
    ensures
        r == rotated_32(x, k),
{
    if k == 0 {
        x
    } else {
        (x << k) | (x >> (32 - k))
    }
}

fn rotate_64(x: u64, k: u32) -> (r: u64)
    requires
        k < 64,
    ensures
        r == rotated_64(x, k),
{
    if k == 0 {
        x
    } else {
        (x << k) | (x >> (64 - k))
    }
}

/// Truncate a float to an integer of a range, trapping outside it.
pub open spec fn truncated(w: Width, bits: u64, lo: int, hi: int) -> Result<int, TrapView> {
    if is_nan(w, bits) || is_infinite(w, bits) {
        Err(TrapView::BadConversion)
    } else if lo <= integer_of(w, bits) <= hi {
        Ok(integer_of(w, bits))
    } else {
        Err(TrapView::BadConversion)
    }
}

/// Truncate a float to an integer, clamping to a range. NaN becomes zero.
pub open spec fn saturated(w: Width, bits: u64, lo: int, hi: int) -> int {
    if is_nan(w, bits) {
        0
    } else if is_infinite(w, bits) {
        if is_negative(w, bits) {
            lo
        } else {
            hi
        }
    } else if integer_of(w, bits) < lo {
        lo
    } else if integer_of(w, bits) > hi {
        hi
    } else {
        integer_of(w, bits)
    }
}

fn truncate(w: Width, bits: u64, lo: i128, hi: i128) -> (r: Result<i128, Trap>)
    requires
        in_width(w, bits),
        -(u64::MAX as int) <= lo <= hi <= u64::MAX,
    ensures
        r is Ok <==> truncated(w, bits, lo as int, hi as int) is Ok,
        r matches Ok(n) ==> Ok::<int, TrapView>(n as int) == truncated(
            w,
            bits,
            lo as int,
            hi as int,
        ),
        r matches Err(t) ==> Err::<int, TrapView>(t@) == truncated(
            w,
            bits,
            lo as int,
            hi as int,
        ),
{
    match float_to_int(w, bits) {
        None => Err(Trap::BadConversion),
        Some((negative, n)) => {
            let v: i128 = if negative {
                -(n as i128)
            } else {
                n as i128
            };
            if lo <= v && v <= hi {
                Ok(v)
            } else {
                Err(Trap::BadConversion)
            }
        },
    }
}

fn saturate(w: Width, bits: u64, lo: i128, hi: i128) -> (r: i128)
    requires
        in_width(w, bits),
        -(u64::MAX as int) <= lo <= 0 <= hi <= u64::MAX,
    ensures
        r == saturated(w, bits, lo as int, hi as int),
        lo <= r <= hi,
{
    match float_to_int(w, bits) {
        None => {
            if !float_equal(w, bits, bits) {
                return 0;
            }
            if float_less(w, bits, 0) {
                proof {
                    lemma_sign(w, bits);
                }
                lo
            } else {
                proof {
                    lemma_sign(w, bits);
                }
                hi
            }
        },
        Some((negative, n)) => {
            let v: i128 = if negative {
                -(n as i128)
            } else {
                n as i128
            };
            if v < lo {
                lo
            } else if v > hi {
                hi
            } else {
                v
            }
        },
    }
}

/// A number whose integer part is not zero is below zero exactly if its sign is set.
proof fn lemma_sign(w: Width, bits: u64)
    requires
        in_width(w, bits),
        !is_nan(w, bits),
        is_infinite(w, bits) || integer_of(w, bits) != 0,
    ensures
        less_bits(w, bits, 0) <==> is_negative(w, bits),
        !is_infinite(w, bits) ==> (integer_of(w, bits) < 0 <==> is_negative(w, bits)),
{
    crate::engine::float::lemma_sign_of_integer(w, bits);
}

/// Convert a signed integer to a float.
fn convert_signed(w: Width, a: i64) -> (r: u64)
    ensures
        r == integer_bits(w, a as int),
        in_width(w, r),
{
    let n: u64 = magnitude_exec(a);
    float_from_int(w, a < 0, n)
}


proof fn lemma_unsigned_32(b: i32)
    requires
        b != 0,
    ensures
        b as u32 != 0,
{
    assert(b as u32 == 0 ==> b == 0) by (bit_vector);
}

proof fn lemma_unsigned_64(b: i64)
    requires
        b != 0,
    ensures
        b as u64 != 0,
{
    assert(b as u64 == 0 ==> b == 0) by (bit_vector);
}

/// Does a result match a stated one?
pub open spec fn matches_result(r: Result<Value, Trap>, s: Result<Value, TrapView>) -> bool {
    match (r, s) {
        (Ok(v), Ok(u)) => v == u,
        (Err(t), Err(u)) => t@ == u,
        _ => false,
    }
}

/// What an instruction makes of a 32-bit integer.
pub open spec fn i32_unary(op: Operator, a: i32) -> Result<Value, TrapView> {
    match op {
        Operator::I32Eqz => Ok(truth(a == 0)),
        Operator::I32Clz => Ok(Value::I32(u32_leading_zeros(a as u32) as i32)),
        Operator::I32Ctz => Ok(Value::I32(u32_trailing_zeros(a as u32) as i32)),
        Operator::I32Popcnt => Ok(Value::I32(ones((a as u32) as nat) as i32)),
        Operator::I64ExtendI32S => Ok(Value::I64(a as i64)),
        Operator::I64ExtendI32U => Ok(Value::I64((a as u32) as i64)),
        Operator::I32Extend8S => Ok(Value::I32((a as i8) as i32)),
        Operator::I32Extend16S => Ok(Value::I32((a as i16) as i32)),
        Operator::F32ConvertI32S => Ok(Value::F32(integer_bits(Width::Single, a as int) as u32)),
        Operator::F32ConvertI32U => Ok(Value::F32(integer_bits(Width::Single, (a as u32) as int) as u32)),
        Operator::F64ConvertI32S => Ok(Value::F64(integer_bits(Width::Double, a as int) as u64)),
        Operator::F64ConvertI32U => Ok(Value::F64(integer_bits(Width::Double, (a as u32) as int) as u64)),
        Operator::F32ReinterpretI32 => Ok(Value::F32(a as u32)),
        _ => arbitrary(),
    }
}

#[verifier::rlimit(40)]
fn eval_i32_unary(op: &Operator, a: i32) -> (r: Result<Value, Trap>)
    requires
        shape(*op) == Shape::Unary(Kind::I32),
    ensures
        matches_result(r, i32_unary(*op, a)),
{
    match op {
        Operator::I32Eqz => Ok(truth_value(a == 0)),
        Operator::I32Clz => Ok(Value::I32((a as u32).leading_zeros() as i32)),
        Operator::I32Ctz => Ok(Value::I32((a as u32).trailing_zeros() as i32)),
        Operator::I32Popcnt => Ok(Value::I32(count_ones((a as u32) as u64) as i32)),
        Operator::I64ExtendI32S => Ok(Value::I64(a as i64)),
        Operator::I64ExtendI32U => Ok(Value::I64((a as u32) as i64)),
        Operator::I32Extend8S => Ok(Value::I32((a as i8) as i32)),
        Operator::I32Extend16S => Ok(Value::I32((a as i16) as i32)),
        Operator::F32ConvertI32S => Ok(Value::F32(convert_signed(Width::Single, a as i64) as u32)),
        Operator::F32ConvertI32U => Ok(Value::F32(float_from_int(Width::Single, false, (a as u32) as u64) as u32)),
        Operator::F64ConvertI32S => Ok(Value::F64(convert_signed(Width::Double, a as i64) as u64)),
        Operator::F64ConvertI32U => Ok(Value::F64(float_from_int(Width::Double, false, (a as u32) as u64) as u64)),
        Operator::F32ReinterpretI32 => Ok(Value::F32(a as u32)),
        _ => {
            assert(false);
            Err(Trap::Unreachable)
        },
    }
}

/// What an instruction makes of a 64-bit integer.
pub open spec fn i64_unary(op: Operator, a: i64) -> Result<Value, TrapView> {
    match op {
        Operator::I64Eqz => Ok(truth(a == 0)),
        Operator::I64Clz => Ok(Value::I64(u64_leading_zeros(a as u64) as i64)),
        Operator::I64Ctz => Ok(Value::I64(u64_trailing_zeros(a as u64) as i64)),
        Operator::I64Popcnt => Ok(Value::I64(ones((a as u64) as nat) as i64)),
        Operator::I32WrapI64 => Ok(Value::I32(a as i32)),
        Operator::I64Extend8S => Ok(Value::I64((a as i8) as i64)),
        Operator::I64Extend16S => Ok(Value::I64((a as i16) as i64)),
        Operator::I64Extend32S => Ok(Value::I64((a as i32) as i64)),
        Operator::F32ConvertI64S => Ok(Value::F32(integer_bits(Width::Single, a as int) as u32)),
        Operator::F32ConvertI64U => Ok(Value::F32(integer_bits(Width::Single, (a as u64) as int) as u32)),
        Operator::F64ConvertI64S => Ok(Value::F64(integer_bits(Width::Double, a as int) as u64)),
        Operator::F64ConvertI64U => Ok(Value::F64(integer_bits(Width::Double, (a as u64) as int) as u64)),
        Operator::F64ReinterpretI64 => Ok(Value::F64(a as u64)),
        _ => arbitrary(),
    }
}

#[verifier::rlimit(40)]
fn eval_i64_unary(op: &Operator, a: i64) -> (r: Result<Value, Trap>)
    requires
        shape(*op) == Shape::Unary(Kind::I64),
    ensures
        matches_result(r, i64_unary(*op, a)),
{
    match op {
        Operator::I64Eqz => Ok(truth_value(a == 0)),
        Operator::I64Clz => Ok(Value::I64((a as u64).leading_zeros() as i64)),
        Operator::I64Ctz => Ok(Value::I64((a as u64).trailing_zeros() as i64)),
        Operator::I64Popcnt => Ok(Value::I64(count_ones((a as u64) as u64) as i64)),
        Operator::I32WrapI64 => Ok(Value::I32(a as i32)),
        Operator::I64Extend8S => Ok(Value::I64((a as i8) as i64)),
        Operator::I64Extend16S => Ok(Value::I64((a as i16) as i64)),
        Operator::I64Extend32S => Ok(Value::I64((a as i32) as i64)),
        Operator::F32ConvertI64S => Ok(Value::F32(convert_signed(Width::Single, a as i64) as u32)),
        Operator::F32ConvertI64U => Ok(Value::F32(float_from_int(Width::Single, false, (a as u64) as u64) as u32)),
        Operator::F64ConvertI64S => Ok(Value::F64(convert_signed(Width::Double, a as i64) as u64)),
        Operator::F64ConvertI64U => Ok(Value::F64(float_from_int(Width::Double, false, (a as u64) as u64) as u64)),
        Operator::F64ReinterpretI64 => Ok(Value::F64(a as u64)),
        _ => {
            assert(false);
            Err(Trap::Unreachable)
        },
    }
}

/// What an instruction makes of a 32-bit float.
pub open spec fn f32_unary(op: Operator, a: u32) -> Result<Value, TrapView> {
    match op {
        Operator::F32Abs => Ok(Value::F32(abs_bits(Width::Single, a as u64) as u32)),
        Operator::F32Neg => Ok(Value::F32(neg_bits(Width::Single, a as u64) as u32)),
        Operator::F32Ceil => Ok(Value::F32(round_bits(Width::Single, Rounding::Up, a as u64) as u32)),
        Operator::F32Floor => Ok(Value::F32(round_bits(Width::Single, Rounding::Down, a as u64) as u32)),
        Operator::F32Trunc => Ok(Value::F32(round_bits(Width::Single, Rounding::Zero, a as u64) as u32)),
        Operator::F32Nearest => Ok(Value::F32(round_bits(Width::Single, Rounding::Even, a as u64) as u32)),
        Operator::F32Sqrt => Ok(Value::F32(sqrt_bits(Width::Single, a as u64) as u32)),
        Operator::F64PromoteF32 => Ok(Value::F64(promote_bits(a as u64))),
        Operator::I32ReinterpretF32 => Ok(Value::I32(a as i32)),
        Operator::I32TruncF32S => match truncated(Width::Single, a as u64, i32::MIN as int, i32::MAX as int) {
            Ok(n) => Ok(Value::I32(n as i32)),
            Err(t) => Err(t),
        },
        Operator::I32TruncF32U => match truncated(Width::Single, a as u64, 0, u32::MAX as int) {
            Ok(n) => Ok(Value::I32((n as u32) as i32)),
            Err(t) => Err(t),
        },
        Operator::I64TruncF32S => match truncated(Width::Single, a as u64, i64::MIN as int, i64::MAX as int) {
            Ok(n) => Ok(Value::I64(n as i64)),
            Err(t) => Err(t),
        },
        Operator::I64TruncF32U => match truncated(Width::Single, a as u64, 0, u64::MAX as int) {
            Ok(n) => Ok(Value::I64((n as u64) as i64)),
            Err(t) => Err(t),
        },
        Operator::I32TruncSatF32S => {
            let n = saturated(Width::Single, a as u64, i32::MIN as int, i32::MAX as int);
            Ok(Value::I32(n as i32))
        },
        Operator::I32TruncSatF32U => {
            let n = saturated(Width::Single, a as u64, 0, u32::MAX as int);
            Ok(Value::I32((n as u32) as i32))
        },
        Operator::I64TruncSatF32S => {
            let n = saturated(Width::Single, a as u64, i64::MIN as int, i64::MAX as int);
            Ok(Value::I64(n as i64))
        },
        Operator::I64TruncSatF32U => {
            let n = saturated(Width::Single, a as u64, 0, u64::MAX as int);
            Ok(Value::I64((n as u64) as i64))
        },
        _ => arbitrary(),
    }
}

#[verifier::rlimit(40)]
fn eval_f32_unary(op: &Operator, a: u32) -> (r: Result<Value, Trap>)
    requires
        shape(*op) == Shape::Unary(Kind::F32),
    ensures
        matches_result(r, f32_unary(*op, a)),
{
    match op {
        Operator::F32Abs => Ok(Value::F32(float_abs(Width::Single, a as u64) as u32)),
        Operator::F32Neg => Ok(Value::F32(float_neg(Width::Single, a as u64) as u32)),
        Operator::F32Ceil => Ok(Value::F32(float_round(Width::Single, Rounding::Up, a as u64) as u32)),
        Operator::F32Floor => Ok(Value::F32(float_round(Width::Single, Rounding::Down, a as u64) as u32)),
        Operator::F32Trunc => Ok(Value::F32(float_round(Width::Single, Rounding::Zero, a as u64) as u32)),
        Operator::F32Nearest => Ok(Value::F32(float_round(Width::Single, Rounding::Even, a as u64) as u32)),
        Operator::F32Sqrt => Ok(Value::F32(float_sqrt(Width::Single, a as u64) as u32)),
        Operator::F64PromoteF32 => Ok(Value::F64(float_promote(a as u64))),
        Operator::I32ReinterpretF32 => Ok(Value::I32(a as i32)),
        Operator::I32TruncF32S => match truncate(Width::Single, a as u64, i32::MIN as i128, i32::MAX as i128) {
            Ok(n) => Ok(Value::I32(n as i32)),
            Err(t) => Err(t),
        },
        Operator::I32TruncF32U => match truncate(Width::Single, a as u64, 0, u32::MAX as i128) {
            Ok(n) => Ok(Value::I32((n as u32) as i32)),
            Err(t) => Err(t),
        },
        Operator::I64TruncF32S => match truncate(Width::Single, a as u64, i64::MIN as i128, i64::MAX as i128) {
            Ok(n) => Ok(Value::I64(n as i64)),
            Err(t) => Err(t),
        },
        Operator::I64TruncF32U => match truncate(Width::Single, a as u64, 0, u64::MAX as i128) {
            Ok(n) => Ok(Value::I64((n as u64) as i64)),
            Err(t) => Err(t),
        },
        Operator::I32TruncSatF32S => {
            let n: i128 = saturate(Width::Single, a as u64, i32::MIN as i128, i32::MAX as i128);
            Ok(Value::I32(n as i32))
        },
        Operator::I32TruncSatF32U => {
            let n: i128 = saturate(Width::Single, a as u64, 0, u32::MAX as i128);
            Ok(Value::I32((n as u32) as i32))
        },
        Operator::I64TruncSatF32S => {
            let n: i128 = saturate(Width::Single, a as u64, i64::MIN as i128, i64::MAX as i128);
            Ok(Value::I64(n as i64))
        },
        Operator::I64TruncSatF32U => {
            let n: i128 = saturate(Width::Single, a as u64, 0, u64::MAX as i128);
            Ok(Value::I64((n as u64) as i64))
        },
        _ => {
            assert(false);
            Err(Trap::Unreachable)
        },
    }
}

/// What an instruction makes of a 64-bit float.
pub open spec fn f64_unary(op: Operator, a: u64) -> Result<Value, TrapView> {
    match op {
        Operator::F64Abs => Ok(Value::F64(abs_bits(Width::Double, a as u64) as u64)),
        Operator::F64Neg => Ok(Value::F64(neg_bits(Width::Double, a as u64) as u64)),
        Operator::F64Ceil => Ok(Value::F64(round_bits(Width::Double, Rounding::Up, a as u64) as u64)),
        Operator::F64Floor => Ok(Value::F64(round_bits(Width::Double, Rounding::Down, a as u64) as u64)),
        Operator::F64Trunc => Ok(Value::F64(round_bits(Width::Double, Rounding::Zero, a as u64) as u64)),
        Operator::F64Nearest => Ok(Value::F64(round_bits(Width::Double, Rounding::Even, a as u64) as u64)),
        Operator::F64Sqrt => Ok(Value::F64(sqrt_bits(Width::Double, a as u64) as u64)),
        Operator::F32DemoteF64 => Ok(Value::F32(demote_bits(a) as u32)),
        Operator::I64ReinterpretF64 => Ok(Value::I64(a as i64)),
        Operator::I32TruncF64S => match truncated(Width::Double, a as u64, i32::MIN as int, i32::MAX as int) {
            Ok(n) => Ok(Value::I32(n as i32)),
            Err(t) => Err(t),
        },
        Operator::I32TruncF64U => match truncated(Width::Double, a as u64, 0, u32::MAX as int) {
            Ok(n) => Ok(Value::I32((n as u32) as i32)),
            Err(t) => Err(t),
        },
        Operator::I64TruncF64S => match truncated(Width::Double, a as u64, i64::MIN as int, i64::MAX as int) {
            Ok(n) => Ok(Value::I64(n as i64)),
            Err(t) => Err(t),
        },
        Operator::I64TruncF64U => match truncated(Width::Double, a as u64, 0, u64::MAX as int) {
            Ok(n) => Ok(Value::I64((n as u64) as i64)),
            Err(t) => Err(t),
        },
        Operator::I32TruncSatF64S => {
            let n = saturated(Width::Double, a as u64, i32::MIN as int, i32::MAX as int);
            Ok(Value::I32(n as i32))
        },
        Operator::I32TruncSatF64U => {
            let n = saturated(Width::Double, a as u64, 0, u32::MAX as int);
            Ok(Value::I32((n as u32) as i32))
        },
        Operator::I64TruncSatF64S => {
            let n = saturated(Width::Double, a as u64, i64::MIN as int, i64::MAX as int);
            Ok(Value::I64(n as i64))
        },
        Operator::I64TruncSatF64U => {
            let n = saturated(Width::Double, a as u64, 0, u64::MAX as int);
            Ok(Value::I64((n as u64) as i64))
        },
        _ => arbitrary(),
    }
}

#[verifier::rlimit(40)]
fn eval_f64_unary(op: &Operator, a: u64) -> (r: Result<Value, Trap>)
    requires
        shape(*op) == Shape::Unary(Kind::F64),
    ensures
        matches_result(r, f64_unary(*op, a)),
{
    match op {
        Operator::F64Abs => Ok(Value::F64(float_abs(Width::Double, a as u64) as u64)),
        Operator::F64Neg => Ok(Value::F64(float_neg(Width::Double, a as u64) as u64)),
        Operator::F64Ceil => Ok(Value::F64(float_round(Width::Double, Rounding::Up, a as u64) as u64)),
        Operator::F64Floor => Ok(Value::F64(float_round(Width::Double, Rounding::Down, a as u64) as u64)),
        Operator::F64Trunc => Ok(Value::F64(float_round(Width::Double, Rounding::Zero, a as u64) as u64)),
        Operator::F64Nearest => Ok(Value::F64(float_round(Width::Double, Rounding::Even, a as u64) as u64)),
        Operator::F64Sqrt => Ok(Value::F64(float_sqrt(Width::Double, a as u64) as u64)),
        Operator::F32DemoteF64 => Ok(Value::F32(float_demote(a) as u32)),
        Operator::I64ReinterpretF64 => Ok(Value::I64(a as i64)),
        Operator::I32TruncF64S => match truncate(Width::Double, a as u64, i32::MIN as i128, i32::MAX as i128) {
            Ok(n) => Ok(Value::I32(n as i32)),
            Err(t) => Err(t),
        },
        Operator::I32TruncF64U => match truncate(Width::Double, a as u64, 0, u32::MAX as i128) {
            Ok(n) => Ok(Value::I32((n as u32) as i32)),
            Err(t) => Err(t),
        },
        Operator::I64TruncF64S => match truncate(Width::Double, a as u64, i64::MIN as i128, i64::MAX as i128) {
            Ok(n) => Ok(Value::I64(n as i64)),
            Err(t) => Err(t),
        },
        Operator::I64TruncF64U => match truncate(Width::Double, a as u64, 0, u64::MAX as i128) {
            Ok(n) => Ok(Value::I64((n as u64) as i64)),
            Err(t) => Err(t),
        },
        Operator::I32TruncSatF64S => {
            let n: i128 = saturate(Width::Double, a as u64, i32::MIN as i128, i32::MAX as i128);
            Ok(Value::I32(n as i32))
        },
        Operator::I32TruncSatF64U => {
            let n: i128 = saturate(Width::Double, a as u64, 0, u32::MAX as i128);
            Ok(Value::I32((n as u32) as i32))
        },
        Operator::I64TruncSatF64S => {
            let n: i128 = saturate(Width::Double, a as u64, i64::MIN as i128, i64::MAX as i128);
            Ok(Value::I64(n as i64))
        },
        Operator::I64TruncSatF64U => {
            let n: i128 = saturate(Width::Double, a as u64, 0, u64::MAX as i128);
            Ok(Value::I64((n as u64) as i64))
        },
        _ => {
            assert(false);
            Err(Trap::Unreachable)
        },
    }
}

/// What an instruction makes of two 32-bit integers.
pub open spec fn i32_binary(op: Operator, a: i32, b: i32) -> Result<Value, TrapView> {
    match op {
        Operator::I32Eq => Ok(truth(a == b)),
        Operator::I32Ne => Ok(truth(a != b)),
        Operator::I32LtS => Ok(truth(a < b)),
        Operator::I32LtU => Ok(truth((a as u32) < (b as u32))),
        Operator::I32GtS => Ok(truth(a > b)),
        Operator::I32GtU => Ok(truth((a as u32) > (b as u32))),
        Operator::I32LeS => Ok(truth(a <= b)),
        Operator::I32LeU => Ok(truth((a as u32) <= (b as u32))),
        Operator::I32GeS => Ok(truth(a >= b)),
        Operator::I32GeU => Ok(truth((a as u32) >= (b as u32))),
        Operator::I32Add => Ok(Value::I32(a.wrapping_add(b))),
        Operator::I32Sub => Ok(Value::I32(a.wrapping_sub(b))),
        Operator::I32Mul => Ok(Value::I32(a.wrapping_mul(b))),
        Operator::I32DivS => if b == 0 {
            Err(TrapView::DivideByZero)
        } else if a == i32::MIN && b == -1 {
            Err(TrapView::IntegerOverflow)
        } else {
            Ok(Value::I32(quotient(a as int, b as int) as i32))
        },
        Operator::I32DivU => if b == 0 {
            Err(TrapView::DivideByZero)
        } else {
            Ok(Value::I32(((a as u32) / (b as u32)) as i32))
        },
        Operator::I32RemS => if b == 0 {
            Err(TrapView::DivideByZero)
        } else {
            Ok(Value::I32(remainder(a as int, b as int) as i32))
        },
        Operator::I32RemU => if b == 0 {
            Err(TrapView::DivideByZero)
        } else {
            Ok(Value::I32(((a as u32) % (b as u32)) as i32))
        },
        Operator::I32And => Ok(Value::I32(a & b)),
        Operator::I32Or => Ok(Value::I32(a | b)),
        Operator::I32Xor => Ok(Value::I32(a ^ b)),
        Operator::I32Shl => Ok(Value::I32(a.wrapping_shl(b as u32))),
        Operator::I32ShrS => Ok(Value::I32(a.wrapping_shr(b as u32))),
        Operator::I32ShrU => Ok(Value::I32((a as u32).wrapping_shr(b as u32) as i32)),
        Operator::I32Rotl => Ok(Value::I32(rotated_32(a as u32, (b as u32) % 32) as i32)),
        Operator::I32Rotr => Ok(Value::I32(rotated_32(a as u32, ((32 - (b as u32) % 32) % 32) as u32) as i32)),
        _ => arbitrary(),
    }
}

#[verifier::rlimit(40)]
fn eval_i32_binary(op: &Operator, a: i32, b: i32) -> (r: Result<Value, Trap>)
    requires
        shape(*op) == Shape::Binary(Kind::I32),
    ensures
        matches_result(r, i32_binary(*op, a, b)),
{
    match op {
        Operator::I32Eq => Ok(truth_value(a == b)),
        Operator::I32Ne => Ok(truth_value(a != b)),
        Operator::I32LtS => Ok(truth_value(a < b)),
        Operator::I32LtU => Ok(truth_value((a as u32) < (b as u32))),
        Operator::I32GtS => Ok(truth_value(a > b)),
        Operator::I32GtU => Ok(truth_value((a as u32) > (b as u32))),
        Operator::I32LeS => Ok(truth_value(a <= b)),
        Operator::I32LeU => Ok(truth_value((a as u32) <= (b as u32))),
        Operator::I32GeS => Ok(truth_value(a >= b)),
        Operator::I32GeU => Ok(truth_value((a as u32) >= (b as u32))),
        Operator::I32Add => Ok(Value::I32(a.wrapping_add(b))),
        Operator::I32Sub => Ok(Value::I32(a.wrapping_sub(b))),
        Operator::I32Mul => Ok(Value::I32(a.wrapping_mul(b))),
        Operator::I32DivS => {
            if b == 0 {
                return Err(Trap::DivideByZero);
            }
            // The one signed division whose result is not representable.
            if a == i32::MIN && b == -1 {
                return Err(Trap::IntegerOverflow);
            }
            proof {
                lemma_quotient_fits(a as int, b as int, -(i32::MIN as int));
            }
            Ok(Value::I32(divide(a as i64, b as i64) as i32))
        },
        Operator::I32DivU => {
            if b == 0 {
                return Err(Trap::DivideByZero);
            }
            proof {
                lemma_unsigned_32(b);
            }
            Ok(Value::I32(((a as u32) / (b as u32)) as i32))
        },
        Operator::I32RemS => {
            if b == 0 {
                return Err(Trap::DivideByZero);
            }
            proof {
                lemma_remainder_fits(a as int, b as int, -(i32::MIN as int));
            }
            Ok(Value::I32(remain(a as i64, b as i64) as i32))
        },
        Operator::I32RemU => {
            if b == 0 {
                return Err(Trap::DivideByZero);
            }
            proof {
                lemma_unsigned_32(b);
            }
            Ok(Value::I32(((a as u32) % (b as u32)) as i32))
        },
        Operator::I32And => Ok(Value::I32(a & b)),
        Operator::I32Or => Ok(Value::I32(a | b)),
        Operator::I32Xor => Ok(Value::I32(a ^ b)),
        Operator::I32Shl => Ok(Value::I32(a.wrapping_shl(b as u32))),
        Operator::I32ShrS => Ok(Value::I32(a.wrapping_shr(b as u32))),
        Operator::I32ShrU => Ok(Value::I32((a as u32).wrapping_shr(b as u32) as i32)),
        Operator::I32Rotl => Ok(Value::I32(rotate_32(a as u32, (b as u32) % 32) as i32)),
        Operator::I32Rotr => Ok(Value::I32(rotate_32(a as u32, ((32 - (b as u32) % 32) % 32) as u32) as i32)),
        _ => {
            assert(false);
            Err(Trap::Unreachable)
        },
    }
}

/// What an instruction makes of two 64-bit integers.
pub open spec fn i64_binary(op: Operator, a: i64, b: i64) -> Result<Value, TrapView> {
    match op {
        Operator::I64Eq => Ok(truth(a == b)),
        Operator::I64Ne => Ok(truth(a != b)),
        Operator::I64LtS => Ok(truth(a < b)),
        Operator::I64LtU => Ok(truth((a as u64) < (b as u64))),
        Operator::I64GtS => Ok(truth(a > b)),
        Operator::I64GtU => Ok(truth((a as u64) > (b as u64))),
        Operator::I64LeS => Ok(truth(a <= b)),
        Operator::I64LeU => Ok(truth((a as u64) <= (b as u64))),
        Operator::I64GeS => Ok(truth(a >= b)),
        Operator::I64GeU => Ok(truth((a as u64) >= (b as u64))),
        Operator::I64Add => Ok(Value::I64(a.wrapping_add(b))),
        Operator::I64Sub => Ok(Value::I64(a.wrapping_sub(b))),
        Operator::I64Mul => Ok(Value::I64(a.wrapping_mul(b))),
        Operator::I64DivS => if b == 0 {
            Err(TrapView::DivideByZero)
        } else if a == i64::MIN && b == -1 {
            Err(TrapView::IntegerOverflow)
        } else {
            Ok(Value::I64(quotient(a as int, b as int) as i64))
        },
        Operator::I64DivU => if b == 0 {
            Err(TrapView::DivideByZero)
        } else {
            Ok(Value::I64(((a as u64) / (b as u64)) as i64))
        },
        Operator::I64RemS => if b == 0 {
            Err(TrapView::DivideByZero)
        } else {
            Ok(Value::I64(remainder(a as int, b as int) as i64))
        },
        Operator::I64RemU => if b == 0 {
            Err(TrapView::DivideByZero)
        } else {
            Ok(Value::I64(((a as u64) % (b as u64)) as i64))
        },
        Operator::I64And => Ok(Value::I64(a & b)),
        Operator::I64Or => Ok(Value::I64(a | b)),
        Operator::I64Xor => Ok(Value::I64(a ^ b)),
        Operator::I64Shl => Ok(Value::I64(a.wrapping_shl(b as u32))),
        Operator::I64ShrS => Ok(Value::I64(a.wrapping_shr(b as u32))),
        Operator::I64ShrU => Ok(Value::I64((a as u64).wrapping_shr(b as u32) as i64)),
        Operator::I64Rotl => Ok(Value::I64(rotated_64(a as u64, ((b as u64) % 64) as u32) as i64)),
        Operator::I64Rotr => Ok(Value::I64(rotated_64(a as u64, ((64 - (b as u64) % 64) % 64) as u32) as i64)),
        _ => arbitrary(),
    }
}

#[verifier::rlimit(40)]
fn eval_i64_binary(op: &Operator, a: i64, b: i64) -> (r: Result<Value, Trap>)
    requires
        shape(*op) == Shape::Binary(Kind::I64),
    ensures
        matches_result(r, i64_binary(*op, a, b)),
{
    match op {
        Operator::I64Eq => Ok(truth_value(a == b)),
        Operator::I64Ne => Ok(truth_value(a != b)),
        Operator::I64LtS => Ok(truth_value(a < b)),
        Operator::I64LtU => Ok(truth_value((a as u64) < (b as u64))),
        Operator::I64GtS => Ok(truth_value(a > b)),
        Operator::I64GtU => Ok(truth_value((a as u64) > (b as u64))),
        Operator::I64LeS => Ok(truth_value(a <= b)),
        Operator::I64LeU => Ok(truth_value((a as u64) <= (b as u64))),
        Operator::I64GeS => Ok(truth_value(a >= b)),
        Operator::I64GeU => Ok(truth_value((a as u64) >= (b as u64))),
        Operator::I64Add => Ok(Value::I64(a.wrapping_add(b))),
        Operator::I64Sub => Ok(Value::I64(a.wrapping_sub(b))),
        Operator::I64Mul => Ok(Value::I64(a.wrapping_mul(b))),
        Operator::I64DivS => {
            if b == 0 {
                return Err(Trap::DivideByZero);
            }
            // The one signed division whose result is not representable.
            if a == i64::MIN && b == -1 {
                return Err(Trap::IntegerOverflow);
            }
            proof {
                lemma_quotient_fits(a as int, b as int, -(i64::MIN as int));
            }
            Ok(Value::I64(divide(a as i64, b as i64) as i64))
        },
        Operator::I64DivU => {
            if b == 0 {
                return Err(Trap::DivideByZero);
            }
            proof {
                lemma_unsigned_64(b);
            }
            Ok(Value::I64(((a as u64) / (b as u64)) as i64))
        },
        Operator::I64RemS => {
            if b == 0 {
                return Err(Trap::DivideByZero);
            }
            proof {
                lemma_remainder_fits(a as int, b as int, -(i64::MIN as int));
            }
            Ok(Value::I64(remain(a as i64, b as i64) as i64))
        },
        Operator::I64RemU => {
            if b == 0 {
                return Err(Trap::DivideByZero);
            }
            proof {
                lemma_unsigned_64(b);
            }
            Ok(Value::I64(((a as u64) % (b as u64)) as i64))
        },
        Operator::I64And => Ok(Value::I64(a & b)),
        Operator::I64Or => Ok(Value::I64(a | b)),
        Operator::I64Xor => Ok(Value::I64(a ^ b)),
        Operator::I64Shl => Ok(Value::I64(a.wrapping_shl(b as u32))),
        Operator::I64ShrS => Ok(Value::I64(a.wrapping_shr(b as u32))),
        Operator::I64ShrU => Ok(Value::I64((a as u64).wrapping_shr(b as u32) as i64)),
        Operator::I64Rotl => Ok(Value::I64(rotate_64(a as u64, ((b as u64) % 64) as u32) as i64)),
        Operator::I64Rotr => Ok(Value::I64(rotate_64(a as u64, ((64 - (b as u64) % 64) % 64) as u32) as i64)),
        _ => {
            assert(false);
            Err(Trap::Unreachable)
        },
    }
}

/// What an instruction makes of two 32-bit floats.
pub open spec fn f32_binary(op: Operator, a: u32, b: u32) -> Result<Value, TrapView> {
    match op {
        Operator::F32Eq => Ok(truth(equal_bits(Width::Single, a as u64, b as u64))),
        Operator::F32Ne => Ok(truth(!equal_bits(Width::Single, a as u64, b as u64))),
        Operator::F32Lt => Ok(truth(less_bits(Width::Single, a as u64, b as u64))),
        Operator::F32Gt => Ok(truth(less_bits(Width::Single, b as u64, a as u64))),
        Operator::F32Le => Ok(truth(less_bits(Width::Single, a as u64, b as u64) || equal_bits(Width::Single, a as u64, b as u64))),
        Operator::F32Ge => Ok(truth(less_bits(Width::Single, b as u64, a as u64) || equal_bits(Width::Single, a as u64, b as u64))),
        Operator::F32Add => Ok(Value::F32(add_bits(Width::Single, a as u64, b as u64) as u32)),
        Operator::F32Sub => Ok(Value::F32(sub_bits(Width::Single, a as u64, b as u64) as u32)),
        Operator::F32Mul => Ok(Value::F32(mul_bits(Width::Single, a as u64, b as u64) as u32)),
        Operator::F32Div => Ok(Value::F32(div_bits(Width::Single, a as u64, b as u64) as u32)),
        Operator::F32Min => Ok(Value::F32(min_bits(Width::Single, a as u64, b as u64) as u32)),
        Operator::F32Max => Ok(Value::F32(max_bits(Width::Single, a as u64, b as u64) as u32)),
        Operator::F32Copysign => Ok(Value::F32(copysign_bits(Width::Single, a as u64, b as u64) as u32)),
        _ => arbitrary(),
    }
}

#[verifier::rlimit(40)]
fn eval_f32_binary(op: &Operator, a: u32, b: u32) -> (r: Result<Value, Trap>)
    requires
        shape(*op) == Shape::Binary(Kind::F32),
    ensures
        matches_result(r, f32_binary(*op, a, b)),
{
    match op {
        Operator::F32Eq => Ok(truth_value(float_equal(Width::Single, a as u64, b as u64))),
        Operator::F32Ne => Ok(truth_value(!float_equal(Width::Single, a as u64, b as u64))),
        Operator::F32Lt => Ok(truth_value(float_less(Width::Single, a as u64, b as u64))),
        Operator::F32Gt => Ok(truth_value(float_less(Width::Single, b as u64, a as u64))),
        Operator::F32Le => Ok(truth_value(float_less(Width::Single, a as u64, b as u64) || float_equal(Width::Single, a as u64, b as u64))),
        Operator::F32Ge => Ok(truth_value(float_less(Width::Single, b as u64, a as u64) || float_equal(Width::Single, a as u64, b as u64))),
        Operator::F32Add => Ok(Value::F32(float_add(Width::Single, a as u64, b as u64) as u32)),
        Operator::F32Sub => Ok(Value::F32(float_sub(Width::Single, a as u64, b as u64) as u32)),
        Operator::F32Mul => Ok(Value::F32(float_mul(Width::Single, a as u64, b as u64) as u32)),
        Operator::F32Div => Ok(Value::F32(float_div(Width::Single, a as u64, b as u64) as u32)),
        Operator::F32Min => Ok(Value::F32(float_min(Width::Single, a as u64, b as u64) as u32)),
        Operator::F32Max => Ok(Value::F32(float_max(Width::Single, a as u64, b as u64) as u32)),
        Operator::F32Copysign => Ok(Value::F32(float_copysign(Width::Single, a as u64, b as u64) as u32)),
        _ => {
            assert(false);
            Err(Trap::Unreachable)
        },
    }
}

/// What an instruction makes of two 64-bit floats.
pub open spec fn f64_binary(op: Operator, a: u64, b: u64) -> Result<Value, TrapView> {
    match op {
        Operator::F64Eq => Ok(truth(equal_bits(Width::Double, a as u64, b as u64))),
        Operator::F64Ne => Ok(truth(!equal_bits(Width::Double, a as u64, b as u64))),
        Operator::F64Lt => Ok(truth(less_bits(Width::Double, a as u64, b as u64))),
        Operator::F64Gt => Ok(truth(less_bits(Width::Double, b as u64, a as u64))),
        Operator::F64Le => Ok(truth(less_bits(Width::Double, a as u64, b as u64) || equal_bits(Width::Double, a as u64, b as u64))),
        Operator::F64Ge => Ok(truth(less_bits(Width::Double, b as u64, a as u64) || equal_bits(Width::Double, a as u64, b as u64))),
        Operator::F64Add => Ok(Value::F64(add_bits(Width::Double, a as u64, b as u64) as u64)),
        Operator::F64Sub => Ok(Value::F64(sub_bits(Width::Double, a as u64, b as u64) as u64)),
        Operator::F64Mul => Ok(Value::F64(mul_bits(Width::Double, a as u64, b as u64) as u64)),
        Operator::F64Div => Ok(Value::F64(div_bits(Width::Double, a as u64, b as u64) as u64)),
        Operator::F64Min => Ok(Value::F64(min_bits(Width::Double, a as u64, b as u64) as u64)),
        Operator::F64Max => Ok(Value::F64(max_bits(Width::Double, a as u64, b as u64) as u64)),
        Operator::F64Copysign => Ok(Value::F64(copysign_bits(Width::Double, a as u64, b as u64) as u64)),
        _ => arbitrary(),
    }
}

#[verifier::rlimit(40)]
fn eval_f64_binary(op: &Operator, a: u64, b: u64) -> (r: Result<Value, Trap>)
    requires
        shape(*op) == Shape::Binary(Kind::F64),
    ensures
        matches_result(r, f64_binary(*op, a, b)),
{
    match op {
        Operator::F64Eq => Ok(truth_value(float_equal(Width::Double, a as u64, b as u64))),
        Operator::F64Ne => Ok(truth_value(!float_equal(Width::Double, a as u64, b as u64))),
        Operator::F64Lt => Ok(truth_value(float_less(Width::Double, a as u64, b as u64))),
        Operator::F64Gt => Ok(truth_value(float_less(Width::Double, b as u64, a as u64))),
        Operator::F64Le => Ok(truth_value(float_less(Width::Double, a as u64, b as u64) || float_equal(Width::Double, a as u64, b as u64))),
        Operator::F64Ge => Ok(truth_value(float_less(Width::Double, b as u64, a as u64) || float_equal(Width::Double, a as u64, b as u64))),
        Operator::F64Add => Ok(Value::F64(float_add(Width::Double, a as u64, b as u64) as u64)),
        Operator::F64Sub => Ok(Value::F64(float_sub(Width::Double, a as u64, b as u64) as u64)),
        Operator::F64Mul => Ok(Value::F64(float_mul(Width::Double, a as u64, b as u64) as u64)),
        Operator::F64Div => Ok(Value::F64(float_div(Width::Double, a as u64, b as u64) as u64)),
        Operator::F64Min => Ok(Value::F64(float_min(Width::Double, a as u64, b as u64) as u64)),
        Operator::F64Max => Ok(Value::F64(float_max(Width::Double, a as u64, b as u64) as u64)),
        Operator::F64Copysign => Ok(Value::F64(float_copysign(Width::Double, a as u64, b as u64) as u64)),
        _ => {
            assert(false);
            Err(Trap::Unreachable)
        },
    }
}

/// What a unary instruction makes of its operand.
pub open spec fn unary(op: Operator, a: Value) -> Result<Value, TrapView> {
    match a {
        Value::I32(a) => i32_unary(op, a),
        Value::I64(a) => i64_unary(op, a),
        Value::F32(a) => f32_unary(op, a),
        Value::F64(a) => f64_unary(op, a),
    }
}

/// What a binary instruction makes of its operands.
pub open spec fn binary(op: Operator, a: Value, b: Value) -> Result<Value, TrapView> {
    match (a, b) {
        (Value::I32(a), Value::I32(b)) => i32_binary(op, a, b),
        (Value::I64(a), Value::I64(b)) => i64_binary(op, a, b),
        (Value::F32(a), Value::F32(b)) => f32_binary(op, a, b),
        (Value::F64(a), Value::F64(b)) => f64_binary(op, a, b),
        _ => arbitrary(),
    }
}

/// Taking a value of a type off a stack: what is left, and the value or the trap.
pub open spec fn popped(stack: Seq<Value>, kind: Kind) -> (Seq<Value>, Result<Value, TrapView>) {
    if stack.len() == 0 {
        (stack, Err(TrapView::StackUnderflow))
    } else if kind_of(stack.last()) != kind {
        (stack.drop_last(), Err(TrapView::TypeMismatch))
    } else {
        (stack.drop_last(), Ok(stack.last()))
    }
}

/// Pushing a result: a trap leaves the stack as it is.
pub open spec fn pushed(stack: Seq<Value>, r: Result<Value, TrapView>) -> (
    Seq<Value>,
    Result<bool, TrapView>,
) {
    match r {
        Ok(v) => (stack.push(v), Ok(true)),
        Err(t) => (stack, Err(t)),
    }
}

/// What an instruction does to a stack, and whether it was a numeric one.
///
/// Operands are taken off the top, the second one first, each checked as it comes.
pub open spec fn applied(op: Operator, stack: Seq<Value>) -> (Seq<Value>, Result<bool, TrapView>) {
    match shape(op) {
        Shape::Constant(v) => (stack.push(v), Ok(true)),
        Shape::Unary(kind) => {
            let (rest, a) = popped(stack, kind);
            match a {
                Ok(a) => pushed(rest, unary(op, a)),
                Err(t) => (rest, Err(t)),
            }
        },
        Shape::Binary(kind) => {
            let (rest, b) = popped(stack, kind);
            match b {
                Ok(b) => {
                    let (rest, a) = popped(rest, kind);
                    match a {
                        Ok(a) => pushed(rest, binary(op, a, b)),
                        Err(t) => (rest, Err(t)),
                    }
                },
                Err(t) => (rest, Err(t)),
            }
        },
        Shape::NotNumeric => (stack, Ok(false)),
    }
}

/// Take a value of a type off the stack.
pub fn pop_kind(stack: &mut Stack, kind: Kind) -> (r: Result<Value, Trap>)
    ensures
        final(stack)@ == popped(old(stack)@, kind).0,
        matches_result(r, popped(old(stack)@, kind).1),
        r matches Ok(v) ==> kind_of(v) == kind,
{
    match stack.pop() {
        None => Err(Trap::StackUnderflow),
        Some(v) => {
            let found = match v {
                Value::I32(_) => Kind::I32,
                Value::I64(_) => Kind::I64,
                Value::F32(_) => Kind::F32,
                Value::F64(_) => Kind::F64,
            };
            if found == kind {
                Ok(v)
            } else {
                Err(Trap::TypeMismatch)
            }
        },
    }
}

fn eval_unary(op: &Operator, a: Value) -> (r: Result<Value, Trap>)
    requires
        shape(*op) == Shape::Unary(kind_of(a)),
    ensures
        matches_result(r, unary(*op, a)),
{
    match a {
        Value::I32(a) => eval_i32_unary(op, a),
        Value::I64(a) => eval_i64_unary(op, a),
        Value::F32(a) => eval_f32_unary(op, a),
        Value::F64(a) => eval_f64_unary(op, a),
    }
}

fn eval_binary(op: &Operator, a: Value, b: Value) -> (r: Result<Value, Trap>)
    requires
        shape(*op) == Shape::Binary(kind_of(a)),
        kind_of(a) == kind_of(b),
    ensures
        matches_result(r, binary(*op, a, b)),
{
    match (a, b) {
        (Value::I32(a), Value::I32(b)) => eval_i32_binary(op, a, b),
        (Value::I64(a), Value::I64(b)) => eval_i64_binary(op, a, b),
        (Value::F32(a), Value::F32(b)) => eval_f32_binary(op, a, b),
        (Value::F64(a), Value::F64(b)) => eval_f64_binary(op, a, b),
        _ => {
            assert(false);
            Err(Trap::Unreachable)
        },
    }
}

/// Apply an operator if it is a numeric one.
///
/// Returns `Ok(true)` when the operator was handled, and `Ok(false)` when it belongs to another
/// category for the caller to dispatch.
pub fn apply(op: &Operator, stack: &mut Stack) -> (r: Result<bool, Trap>)
    ensures
        final(stack)@ == applied(*op, old(stack)@).0,
        match (r, applied(*op, old(stack)@).1) {
            (Ok(a), Ok(b)) => a == b,
            (Err(t), Err(u)) => t@ == u,
            _ => false,
        },
{
    match shape_of(op) {
        Shape::Constant(v) => {
            stack.push(v);
            Ok(true)
        },
        Shape::Unary(kind) => {
            let a = match pop_kind(stack, kind) {
                Ok(a) => a,
                Err(t) => return Err(t),
            };
            match eval_unary(op, a) {
                Ok(v) => {
                    stack.push(v);
                    Ok(true)
                },
                Err(t) => Err(t),
            }
        },
        Shape::Binary(kind) => {
            let b = match pop_kind(stack, kind) {
                Ok(b) => b,
                Err(t) => return Err(t),
            };
            let a = match pop_kind(stack, kind) {
                Ok(a) => a,
                Err(t) => return Err(t),
            };
            match eval_binary(op, a, b) {
                Ok(v) => {
                    stack.push(v);
                    Ok(true)
                },
                Err(t) => Err(t),
            }
        },
        Shape::NotNumeric => Ok(false),
    }
}

} // verus!
