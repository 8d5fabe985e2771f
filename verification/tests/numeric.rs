//! Numeric instructions.
use cairn_runtime::engine::numeric::{Trap, apply};
use cairn_runtime::engine::operator::Operator;
use cairn_runtime::state::Value;

/// Apply one operator to a prepared stack and return the result.
fn eval(op: Operator, inputs: &[Value]) -> Result<Vec<Value>, Trap> {
    let mut stack = inputs.to_vec();
    let handled = apply(&op, &mut stack)?;
    assert!(handled, "{op:?} should be handled as numeric");
    Ok(stack)
}

/// Apply one operator expected to leave exactly one value.
fn eval1(op: Operator, inputs: &[Value]) -> Result<Value, Trap> {
    let out = eval(op, inputs)?;
    assert_eq!(out.len(), 1, "expected a single result, got {out:?}");
    Ok(out[0])
}

fn i32v(v: i32) -> Value {
    Value::I32(v)
}
fn i64v(v: i64) -> Value {
    Value::I64(v)
}
fn f32v(v: f32) -> Value {
    Value::F32(v.to_bits())
}
fn f64v(v: f64) -> Value {
    Value::F64(v.to_bits())
}

#[test]
fn arithmetic_wraps_rather_than_overflowing() {
    assert_eq!(
        eval1(Operator::I32Add, &[i32v(i32::MAX), i32v(1)]).unwrap(),
        i32v(i32::MIN)
    );
    assert_eq!(
        eval1(Operator::I64Mul, &[i64v(i64::MAX), i64v(2)]).unwrap(),
        i64v(-2)
    );
}

#[test]
fn operands_pop_in_the_right_order() {
    // Subtraction is the cheapest way to catch a reversed pop, and a reversed pop would
    // otherwise pass every commutative test in this file.
    assert_eq!(
        eval1(Operator::I32Sub, &[i32v(10), i32v(3)]).unwrap(),
        i32v(7)
    );
    assert_eq!(
        eval1(Operator::I32DivS, &[i32v(20), i32v(4)]).unwrap(),
        i32v(5)
    );
    assert_eq!(
        eval1(Operator::F64Sub, &[f64v(10.0), f64v(3.0)]).unwrap(),
        f64v(7.0)
    );
}

#[test]
fn signed_division_traps_on_the_one_unrepresentable_quotient() {
    // INT_MIN / -1 is +2^31, which does not fit. This is the only overflow trap in
    // WebAssembly integer arithmetic; everything else wraps.
    assert_eq!(
        eval1(Operator::I32DivS, &[i32v(i32::MIN), i32v(-1)]).unwrap_err(),
        Trap::IntegerOverflow
    );
    assert_eq!(
        eval1(Operator::I64DivS, &[i64v(i64::MIN), i64v(-1)]).unwrap_err(),
        Trap::IntegerOverflow
    );
}

#[test]
fn signed_remainder_does_not_trap_on_those_same_operands() {
    // The asymmetry that a plausible implementation gets wrong: INT_MIN % -1 is defined,
    // and it is zero. Sharing a checked_div-style guard between div and rem would trap
    // here instead.
    assert_eq!(
        eval1(Operator::I32RemS, &[i32v(i32::MIN), i32v(-1)]).unwrap(),
        i32v(0)
    );
    assert_eq!(
        eval1(Operator::I64RemS, &[i64v(i64::MIN), i64v(-1)]).unwrap(),
        i64v(0)
    );
}

#[test]
fn division_and_remainder_by_zero_trap() {
    for op in [
        Operator::I32DivS,
        Operator::I32DivU,
        Operator::I32RemS,
        Operator::I32RemU,
    ] {
        assert_eq!(
            eval1(op.clone(), &[i32v(1), i32v(0)]).unwrap_err(),
            Trap::DivideByZero,
            "{op:?}"
        );
    }
}

#[test]
fn shift_counts_are_taken_modulo_the_width() {
    // A shift by the width is a shift by zero, not a wipe to zero. Implementing this with
    // a plain `<<` would be undefined behaviour in C and a panic in debug Rust.
    assert_eq!(
        eval1(Operator::I32Shl, &[i32v(1), i32v(32)]).unwrap(),
        i32v(1)
    );
    assert_eq!(
        eval1(Operator::I32Shl, &[i32v(1), i32v(33)]).unwrap(),
        i32v(2)
    );
    assert_eq!(
        eval1(Operator::I64Shl, &[i64v(1), i64v(64)]).unwrap(),
        i64v(1)
    );
    // Arithmetic vs logical right shift on a negative value.
    assert_eq!(
        eval1(Operator::I32ShrS, &[i32v(-8), i32v(1)]).unwrap(),
        i32v(-4)
    );
    assert_eq!(
        eval1(Operator::I32ShrU, &[i32v(-8), i32v(1)]).unwrap(),
        i32v(0x7fff_fffc)
    );
}

#[test]
fn rotations_wrap_bits_around() {
    assert_eq!(
        eval1(Operator::I32Rotl, &[i32v(0x1234_5678), i32v(8)]).unwrap(),
        i32v(0x3456_7812)
    );
    assert_eq!(
        eval1(Operator::I32Rotr, &[i32v(0x1234_5678), i32v(8)]).unwrap(),
        i32v(0x7812_3456_u32 as i32)
    );
    // Rotating by the full width is the identity.
    assert_eq!(
        eval1(Operator::I64Rotl, &[i64v(-1234), i64v(64)]).unwrap(),
        i64v(-1234)
    );
}

#[test]
fn unsigned_comparisons_are_not_signed_ones() {
    // -1 is the largest u32 and the smallest i32.
    assert_eq!(
        eval1(Operator::I32LtS, &[i32v(-1), i32v(1)]).unwrap(),
        i32v(1)
    );
    assert_eq!(
        eval1(Operator::I32LtU, &[i32v(-1), i32v(1)]).unwrap(),
        i32v(0)
    );
    // Comparisons yield i32 regardless of operand width.
    assert_eq!(
        eval1(Operator::I64GtU, &[i64v(-1), i64v(1)]).unwrap(),
        i32v(1)
    );
    assert_eq!(
        eval1(Operator::I64GtS, &[i64v(-1), i64v(1)]).unwrap(),
        i32v(0)
    );
}

#[test]
fn min_and_max_propagate_nan() {
    // Not `if a < b`: a NaN operand makes the result NaN regardless of position.
    for (a, b) in [(f32::NAN, 1.0f32), (1.0f32, f32::NAN)] {
        let out = eval1(Operator::F32Min, &[f32v(a), f32v(b)]).unwrap();
        let Value::F32(bits) = out else {
            panic!("expected f32")
        };
        assert!(f32::from_bits(bits).is_nan(), "min({a}, {b})");

        let out = eval1(Operator::F32Max, &[f32v(a), f32v(b)]).unwrap();
        let Value::F32(bits) = out else {
            panic!("expected f32")
        };
        assert!(f32::from_bits(bits).is_nan(), "max({a}, {b})");
    }
}

#[test]
fn min_and_max_direct_the_sign_of_zero() {
    // +0.0 and -0.0 compare equal, so "return whichever came first" passes an equality
    // test and is still wrong. min must yield -0.0 and max +0.0, in either argument order.
    for (a, b) in [(0.0f64, -0.0f64), (-0.0f64, 0.0f64)] {
        assert_eq!(
            eval1(Operator::F64Min, &[f64v(a), f64v(b)]).unwrap(),
            f64v(-0.0),
            "min({a}, {b})"
        );
        assert_eq!(
            eval1(Operator::F64Max, &[f64v(a), f64v(b)]).unwrap(),
            f64v(0.0),
            "max({a}, {b})"
        );
    }
}

#[test]
fn nearest_rounds_halves_to_even() {
    // Rust's `round` rounds halves away from zero and would be wrong here.
    for (input, expected) in [
        (0.5f64, 0.0f64),
        (1.5, 2.0),
        (2.5, 2.0),
        (3.5, 4.0),
        (-0.5, -0.0),
        (-1.5, -2.0),
        (-2.5, -2.0),
    ] {
        assert_eq!(
            eval1(Operator::F64Nearest, &[f64v(input)]).unwrap(),
            f64v(expected),
            "nearest({input})"
        );
    }
}

#[test]
fn truncation_traps_exactly_at_the_boundary() {
    // The bounds are the first float values outside the target's range, and they must
    // themselves trap. Writing the check with strict inequalities lets -2147483904.0 --
    // the first f32 below -2^31 -- convert to a wrong answer instead of trapping.
    assert_eq!(
        eval1(Operator::I32TruncF32S, &[f32v(-2_147_483_648.0)]).unwrap(),
        i32v(i32::MIN),
        "the range end itself converts"
    );
    assert_eq!(
        eval1(Operator::I32TruncF32S, &[f32v(-2_147_483_904.0)]).unwrap_err(),
        Trap::BadConversion,
        "the first f32 below the range must trap"
    );
    assert_eq!(
        eval1(Operator::I32TruncF32S, &[f32v(2_147_483_520.0)]).unwrap(),
        i32v(2_147_483_520),
        "the largest f32 inside the range converts"
    );
    assert_eq!(
        eval1(Operator::I32TruncF32S, &[f32v(2_147_483_648.0)]).unwrap_err(),
        Trap::BadConversion
    );

    // Unsigned: fractions above -1 truncate toward zero and are fine; -1 itself is not.
    assert_eq!(
        eval1(Operator::I32TruncF32U, &[f32v(-0.9)]).unwrap(),
        i32v(0)
    );
    assert_eq!(
        eval1(Operator::I32TruncF32U, &[f32v(-1.0)]).unwrap_err(),
        Trap::BadConversion
    );

    // f64 sources have finer spacing, so the same integer target has different bounds.
    assert_eq!(
        eval1(Operator::I32TruncF64S, &[f64v(-2_147_483_648.0)]).unwrap(),
        i32v(i32::MIN)
    );
    assert_eq!(
        eval1(Operator::I32TruncF64S, &[f64v(-2_147_483_649.0)]).unwrap_err(),
        Trap::BadConversion
    );
}

#[test]
fn truncation_traps_on_nan_and_infinity() {
    for input in [f64::NAN, f64::INFINITY, f64::NEG_INFINITY] {
        assert_eq!(
            eval1(Operator::I64TruncF64S, &[f64v(input)]).unwrap_err(),
            Trap::BadConversion,
            "{input}"
        );
    }
}

#[test]
fn saturating_truncation_clamps_instead_of_trapping() {
    assert_eq!(
        eval1(Operator::I32TruncSatF64S, &[f64v(1e300)]).unwrap(),
        i32v(i32::MAX)
    );
    assert_eq!(
        eval1(Operator::I32TruncSatF64S, &[f64v(-1e300)]).unwrap(),
        i32v(i32::MIN)
    );
    assert_eq!(
        eval1(Operator::I32TruncSatF64S, &[f64v(f64::NAN)]).unwrap(),
        i32v(0),
        "NaN saturates to zero, it does not trap"
    );
    assert_eq!(
        eval1(Operator::I32TruncSatF64U, &[f64v(-5.0)]).unwrap(),
        i32v(0)
    );
}

#[test]
fn reinterpretation_preserves_nan_payloads() {
    // A bit cast changes the type and nothing else. This is why the instrumentation pass
    // does not canonicalize after reinterpret: the payload is whatever the program put
    // there, and that is deterministic.
    let payload = 0x7ff8_0000_dead_beef_u64;
    let as_int = eval1(Operator::I64ReinterpretF64, &[Value::F64(payload)]).unwrap();
    assert_eq!(as_int, Value::I64(payload as i64));

    let back = eval1(Operator::F64ReinterpretI64, &[as_int]).unwrap();
    assert_eq!(back, Value::F64(payload));
}

#[test]
fn sign_extension_widens_correctly() {
    assert_eq!(
        eval1(Operator::I32Extend8S, &[i32v(0xff)]).unwrap(),
        i32v(-1)
    );
    assert_eq!(
        eval1(Operator::I32Extend16S, &[i32v(0x8000)]).unwrap(),
        i32v(-32768)
    );
    assert_eq!(
        eval1(Operator::I64Extend32S, &[i64v(0x8000_0000)]).unwrap(),
        i64v(-2_147_483_648)
    );
    // The two i32 -> i64 widenings differ on negative inputs.
    assert_eq!(
        eval1(Operator::I64ExtendI32S, &[i32v(-1)]).unwrap(),
        i64v(-1)
    );
    assert_eq!(
        eval1(Operator::I64ExtendI32U, &[i32v(-1)]).unwrap(),
        i64v(0xffff_ffff)
    );
}

#[test]
fn width_conversion_round_trips_what_it_can() {
    assert_eq!(
        eval1(Operator::I32WrapI64, &[i64v(0x1_0000_0001)]).unwrap(),
        i32v(1)
    );
    assert_eq!(
        eval1(Operator::F64PromoteF32, &[f32v(0.5)]).unwrap(),
        f64v(0.5)
    );
    assert_eq!(
        eval1(Operator::F32DemoteF64, &[f64v(0.5)]).unwrap(),
        f32v(0.5)
    );
}

#[test]
fn unsigned_integer_to_float_is_not_signed() {
    assert_eq!(
        eval1(Operator::F64ConvertI32U, &[i32v(-1)]).unwrap(),
        f64v(4_294_967_295.0)
    );
    assert_eq!(
        eval1(Operator::F64ConvertI32S, &[i32v(-1)]).unwrap(),
        f64v(-1.0)
    );
}

#[test]
fn constants_push_their_value() {
    assert_eq!(
        eval1(Operator::I32Const { value: 7 }, &[]).unwrap(),
        i32v(7)
    );
    assert_eq!(
        eval1(Operator::I64Const { value: -7 }, &[]).unwrap(),
        i64v(-7)
    );
}

#[test]
fn non_numeric_operators_are_handed_back() {
    // The dispatch contract: `Ok(false)` means "not mine", so the machine can layer
    // control flow, variables and memory on top without this module knowing about them.
    let mut stack = Vec::new();
    assert_eq!(
        apply(&Operator::LocalGet { local_index: 0 }, &mut stack),
        Ok(false)
    );
    assert_eq!(apply(&Operator::Nop, &mut stack), Ok(false));
    assert!(
        stack.is_empty(),
        "an unhandled operator must not touch the stack"
    );
}

#[test]
fn a_short_stack_is_an_error_not_a_panic() {
    assert_eq!(
        eval1(Operator::I32Add, &[i32v(1)]).unwrap_err(),
        Trap::StackUnderflow
    );
    assert_eq!(
        eval1(Operator::I32Add, &[]).unwrap_err(),
        Trap::StackUnderflow
    );
}

#[test]
fn a_mistyped_operand_is_an_error_not_a_panic() {
    // Unreachable for a validated module, but the interpreter must not assume validation
    // ran: silently reinterpreting an i64 as an i32 here would corrupt a trace instead of
    // failing.
    assert_eq!(
        eval1(Operator::I32Add, &[i64v(1), i32v(2)]).unwrap_err(),
        Trap::TypeMismatch
    );
    assert_eq!(
        eval1(Operator::F32Abs, &[i32v(1)]).unwrap_err(),
        Trap::TypeMismatch
    );
    assert_eq!(
        eval1(Operator::I64ReinterpretF64, &[i64v(1)]).unwrap_err(),
        Trap::TypeMismatch
    );
}

#[test]
fn every_trap_renders_a_message() {
    let samples = [
        Trap::Unreachable,
        Trap::DivideByZero,
        Trap::IntegerOverflow,
        Trap::BadConversion,
        Trap::MemoryOutOfBounds,
        Trap::TableOutOfBounds,
        Trap::UninitializedElement,
        Trap::SignatureMismatch,
        Trap::CallStackExhausted,
        Trap::OutOfFuel,
        Trap::StackUnderflow,
        Trap::TypeMismatch,
        Trap::Unsupported {
            operator: "v128.const".to_owned(),
        },
    ];
    for sample in samples {
        assert!(
            !sample.to_string().is_empty(),
            "empty message for {sample:?}"
        );
    }
}
