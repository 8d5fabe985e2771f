//! Executing whole modules.
use cairn_runtime::canon::{self, Config};
use cairn_runtime::engine::image;
use cairn_runtime::engine::machine::{Limits, Machine, Progress, Snapshot, Trace};
use cairn_runtime::engine::numeric::Trap;

/// Assemble, validate and instrument, exactly as a coordinator would before dispatching.
///
/// The validation step is here to catch malformed *test* input. Without it an invalid
/// module reaches the interpreter and surfaces as a bare `StackUnderflow` from somewhere
/// deep in execution, which is an expensive way to learn that a test's WebAssembly text
/// was wrong.
fn canonical(text: &str) -> Vec<u8> {
    let source = wat::parse_str(text).expect("test module should assemble");
    cairn_runtime::validate::validate_submitted(&source, cairn_runtime::validate::Limits::default())
        .expect("test module should be a valid Cairn workload");
    canon::instrument(&source, Config::default()).expect("instrumentation should succeed")
}

fn run(module: &[u8], input: &[u8]) -> Result<Trace, Trap> {
    let image = image::decode(module).expect("instrumented module should decode");
    let mut machine = Machine::new(&image, input.to_vec(), Limits::default())?;
    machine.run()
}

/// Wrap a function body in a module that writes an i32 result to `output`.
fn module_returning_i32(body: &str) -> String {
    format!(
        r#"(module
             (import "cairn" "output" (func $output (param i32 i32)))
             (memory (export "memory") 1 4)
             (func $compute (result i32) {body})
             (func (export "cairn_run")
               (i32.store (i32.const 0) (call $compute))
               (call $output (i32.const 0) (i32.const 4))))"#
    )
}

fn eval_i32(body: &str) -> i32 {
    let module = canonical(&module_returning_i32(body));
    let trace = run(&module, &[]).expect("execution should succeed");
    assert_eq!(trace.output.len(), 4, "expected four output bytes");
    i32::from_le_bytes([
        trace.output[0],
        trace.output[1],
        trace.output[2],
        trace.output[3],
    ])
}

#[test]
fn evaluates_arithmetic_end_to_end() {
    assert_eq!(eval_i32("(i32.add (i32.const 20) (i32.const 22))"), 42);
    assert_eq!(eval_i32("(i32.mul (i32.const 6) (i32.const 7))"), 42);
}

#[test]
fn runs_a_loop_to_completion() {
    // Sum 1..=10. Exercises loop labels, br_if and locals together.
    assert_eq!(
        eval_i32(
            r#"(local $i i32) (local $sum i32)
               (local.set $i (i32.const 1))
               (block $done
                 (loop $again
                   (br_if $done (i32.gt_u (local.get $i) (i32.const 10)))
                   (local.set $sum (i32.add (local.get $sum) (local.get $i)))
                   (local.set $i (i32.add (local.get $i) (i32.const 1)))
                   (br $again)))
               (local.get $sum)"#
        ),
        55
    );
}

#[test]
fn branches_to_a_loop_label_re_enter_it() {
    // The distinction that is easy to get backwards: a br to a loop label jumps to the
    // start of the body and keeps the label, while a br to a block label leaves. If loop
    // labels were popped like block labels, the second iteration would branch into
    // nothing.
    assert_eq!(
        eval_i32(
            r#"(local $n i32)
               (local.set $n (i32.const 3))
               (loop $again
                 (local.set $n (i32.sub (local.get $n) (i32.const 1)))
                 (br_if $again (local.get $n)))
               (local.get $n)"#
        ),
        0
    );
}

#[test]
fn if_else_takes_both_paths() {
    assert_eq!(
        eval_i32("(if (result i32) (i32.const 1) (then (i32.const 10)) (else (i32.const 20)))"),
        10
    );
    assert_eq!(
        eval_i32("(if (result i32) (i32.const 0) (then (i32.const 10)) (else (i32.const 20)))"),
        20
    );
}

#[test]
fn an_if_without_an_else_falls_through() {
    assert_eq!(
        eval_i32(
            r#"(local $x i32)
               (local.set $x (i32.const 5))
               (if (i32.const 0) (then (local.set $x (i32.const 99))))
               (local.get $x)"#
        ),
        5
    );
}

#[test]
fn br_table_selects_its_target_and_falls_back_to_the_default() {
    // Three nested blocks, each branch landing just past a different `end`. Every block
    // is result-free so the dispatch is tested without stack juggling on top.
    let dispatch = |index: i32| {
        eval_i32(&format!(
            r#"(local $r i32)
               (block $default
                 (block $one
                   (block $zero
                     (br_table $zero $one $default (i32.const {index})))
                   (local.set $r (i32.const 100))
                   (br $default))
                 (local.set $r (i32.const 200))
                 (br $default))
               (local.get $r)"#
        ))
    };
    assert_eq!(dispatch(0), 100, "index 0 selects the innermost label");
    assert_eq!(dispatch(1), 200, "index 1 selects the middle label");
    assert_eq!(
        dispatch(7),
        0,
        "an index past the table takes the default and skips both assignments"
    );
}

#[test]
fn calls_nest_and_return() {
    let module = canonical(
        r#"(module
             (import "cairn" "output" (func $output (param i32 i32)))
             (memory (export "memory") 1 4)
             (func $double (param $x i32) (result i32)
               (i32.mul (local.get $x) (i32.const 2)))
             (func $quadruple (param $x i32) (result i32)
               (call $double (call $double (local.get $x))))
             (func (export "cairn_run")
               (i32.store (i32.const 0) (call $quadruple (i32.const 5)))
               (call $output (i32.const 0) (i32.const 4))))"#,
    );
    let trace = run(&module, &[]).unwrap();
    assert_eq!(trace.output, 20i32.to_le_bytes());
}

#[test]
fn recursion_returns_the_right_answer() {
    let module = canonical(
        r#"(module
             (import "cairn" "output" (func $output (param i32 i32)))
             (memory (export "memory") 1 4)
             (func $fact (param $n i32) (result i32)
               (if (result i32) (i32.le_u (local.get $n) (i32.const 1))
                 (then (i32.const 1))
                 (else (i32.mul (local.get $n)
                                (call $fact (i32.sub (local.get $n) (i32.const 1)))))))
             (func (export "cairn_run")
               (i32.store (i32.const 0) (call $fact (i32.const 10)))
               (call $output (i32.const 0) (i32.const 4))))"#,
    );
    let trace = run(&module, &[]).unwrap();
    assert_eq!(trace.output, 3_628_800i32.to_le_bytes());
}

#[test]
fn indirect_calls_dispatch_through_the_table() {
    let module = canonical(
        r#"(module
             (import "cairn" "output" (func $output (param i32 i32)))
             (memory (export "memory") 1 4)
             (type $sig (func (result i32)))
             (table 2 2 funcref)
             (func $a (type $sig) (i32.const 111))
             (func $b (type $sig) (i32.const 222))
             (elem (i32.const 0) $a $b)
             (func (export "cairn_run")
               (i32.store (i32.const 0) (call_indirect (type $sig) (i32.const 1)))
               (call $output (i32.const 0) (i32.const 4))))"#,
    );
    let trace = run(&module, &[]).unwrap();
    assert_eq!(trace.output, 222i32.to_le_bytes());
}

#[test]
fn memory_round_trips_every_width() {
    assert_eq!(
        eval_i32(
            r#"(i32.store8 (i32.const 16) (i32.const 0xff))
               (i32.load8_u (i32.const 16))"#
        ),
        255
    );
    assert_eq!(
        eval_i32(
            r#"(i32.store8 (i32.const 16) (i32.const 0xff))
               (i32.load8_s (i32.const 16))"#
        ),
        -1,
        "the signed and unsigned narrow loads must differ"
    );
    assert_eq!(
        eval_i32(
            r#"(i64.store (i32.const 24) (i64.const 0x1122334455667788))
               (i32.wrap_i64 (i64.load32_u (i32.const 24)))"#
        ),
        0x5566_7788_u32 as i32
    );
}

#[test]
fn the_static_offset_is_added_to_the_base() {
    assert_eq!(
        eval_i32(
            r#"(i32.store offset=8 (i32.const 100) (i32.const 7))
               (i32.load (i32.const 108))"#
        ),
        7
    );
}

#[test]
fn data_segments_are_installed_before_execution() {
    let module = canonical(
        r#"(module
             (import "cairn" "output" (func $output (param i32 i32)))
             (memory (export "memory") 1 4)
             (data (i32.const 0) "cairn")
             (func (export "cairn_run")
               (call $output (i32.const 0) (i32.const 5))))"#,
    );
    let trace = run(&module, &[]).unwrap();
    assert_eq!(trace.output, b"cairn");
}

#[test]
fn input_is_delivered_and_its_true_length_reported() {
    let module = canonical(
        r#"(module
             (import "cairn" "input"  (func $input  (param i32 i32) (result i32)))
             (import "cairn" "output" (func $output (param i32 i32)))
             (memory (export "memory") 1 4)
             (func (export "cairn_run") (local $len i32)
               ;; A zero-length probe reports the size without copying anything.
               (local.set $len (call $input (i32.const 0) (i32.const 0)))
               (drop (call $input (i32.const 64) (local.get $len)))
               (call $output (i32.const 64) (local.get $len))))"#,
    );
    let trace = run(&module, b"hello volunteer").unwrap();
    assert_eq!(trace.output, b"hello volunteer");
}

#[test]
fn memory_grows_within_its_declared_maximum() {
    // Growth must fail on the module's declared ceiling, never on how much memory the
    // host happens to have -- otherwise the same workload would succeed on one
    // volunteer's machine and fail on another's.
    assert_eq!(eval_i32("(memory.size)"), 1);
    assert_eq!(
        eval_i32("(memory.grow (i32.const 2))"),
        1,
        "returns the old size"
    );
    assert_eq!(
        eval_i32("(drop (memory.grow (i32.const 2))) (memory.size)"),
        3
    );
    assert_eq!(
        eval_i32("(memory.grow (i32.const 99))"),
        -1,
        "growth past the declared maximum fails"
    );
}

#[test]
fn bulk_memory_fills_and_copies() {
    assert_eq!(
        eval_i32(
            r#"(memory.fill (i32.const 32) (i32.const 0xab) (i32.const 4))
               (i32.load (i32.const 32))"#
        ),
        0xabab_abab_u32 as i32
    );
    assert_eq!(
        eval_i32(
            r#"(i32.store (i32.const 40) (i32.const 12345))
               (memory.copy (i32.const 48) (i32.const 40) (i32.const 4))
               (i32.load (i32.const 48))"#
        ),
        12345
    );
}

// --- traps -------------------------------------------------------------------------

#[test]
fn traps_propagate_out_of_execution() {
    let cases = [
        ("(unreachable)", Trap::Unreachable),
        (
            "(drop (i32.div_s (i32.const 1) (i32.const 0)))",
            Trap::DivideByZero,
        ),
        (
            "(drop (i32.load (i32.const 1000000)))",
            Trap::MemoryOutOfBounds,
        ),
        (
            "(i32.store (i32.const 1000000) (i32.const 1))",
            Trap::MemoryOutOfBounds,
        ),
    ];
    for (body, expected) in cases {
        let module = canonical(&format!(
            r#"(module
                 (memory (export "memory") 1 4)
                 (func (export "cairn_run") {body}))"#
        ));
        assert_eq!(run(&module, &[]).unwrap_err(), expected, "{body}");
    }
}

#[test]
fn an_address_near_the_top_of_memory_traps_rather_than_wrapping() {
    // base + static offset is computed in 64 bits, so a base near u32::MAX plus a large
    // offset cannot wrap around into a valid-looking address.
    let module = canonical(
        r#"(module
             (memory (export "memory") 1 4)
             (func (export "cairn_run")
               (drop (i32.load offset=4294967295 (i32.const 4294967295)))))"#,
    );
    assert_eq!(run(&module, &[]).unwrap_err(), Trap::MemoryOutOfBounds);
}

#[test]
fn unbounded_recursion_exhausts_the_call_stack_deterministically() {
    // A native stack overflow would depend on the host's stack size. The limit is explicit
    // so the trap happens at the same call depth on every machine.
    let module = canonical(
        r#"(module
             (memory (export "memory") 1 4)
             (func $forever (call $forever))
             (func (export "cairn_run") (call $forever)))"#,
    );
    let image = image::decode(&module).unwrap();
    let mut machine = Machine::new(
        &image,
        Vec::new(),
        Limits {
            max_call_depth: 32,
            ..Limits::default()
        },
    )
    .unwrap();
    assert_eq!(machine.run().unwrap_err(), Trap::CallStackExhausted);
}

#[test]
fn running_out_of_fuel_traps() {
    let module = canonical(
        r#"(module
             (memory (export "memory") 1 4)
             (func (export "cairn_run") (local $i i32)
               (loop $again
                 (local.set $i (i32.add (local.get $i) (i32.const 1)))
                 (br $again))))"#,
    );
    let image = image::decode(&module).unwrap();
    let mut machine = Machine::new(
        &image,
        Vec::new(),
        Limits {
            fuel: 500,
            ..Limits::default()
        },
    )
    .unwrap();
    assert_eq!(machine.run().unwrap_err(), Trap::OutOfFuel);
    assert!(machine.fuel().get() <= 500);
}

// --- the trace ---------------------------------------------------------------------

#[test]
fn snapshots_are_ordered_by_step_index() {
    // Bisection binary-searches this sequence, which is only meaningful if it is ordered.
    let module = canonical(
        r#"(module
             (memory (export "memory") 1 4)
             (func (export "cairn_run") (local $i i32)
               (block $done
                 (loop $again
                   (br_if $done (i32.ge_u (local.get $i) (i32.const 5000)))
                   (local.set $i (i32.add (local.get $i) (i32.const 1)))
                   (br $again)))))"#,
    );
    let image = image::decode(&module).unwrap();
    let mut machine = Machine::new(
        &image,
        Vec::new(),
        Limits {
            // A small interval so a short program still produces several snapshots.
            snapshot_interval_log2: 8,
            ..Limits::default()
        },
    )
    .unwrap();
    let trace = machine.run().unwrap();

    assert!(
        trace.snapshots.len() > 4,
        "expected several snapshots, got {}",
        trace.snapshots.len()
    );
    assert!(
        trace.snapshots.is_sorted_by(|a, b| a.step < b.step),
        "step indices must strictly increase"
    );
    // Fuel is monotonic too, but only weakly: it is charged per basic block, so two
    // snapshots can share a value. That is exactly why the step index, and not fuel, is
    // what bisection addresses states by.
    assert!(trace.snapshots.is_sorted_by(|a, b| a.fuel <= b.fuel));
    assert_ne!(trace.initial, trace.final_root);
    assert_eq!(trace.steps, machine.steps());
}

#[test]
fn execution_is_reproducible() {
    // The property everything else rests on: the same module and input produce the same
    // trace, byte for byte.
    let module = canonical(&module_returning_i32(
        r#"(local $i i32) (local $acc i32)
           (block $done
             (loop $again
               (br_if $done (i32.ge_u (local.get $i) (i32.const 100)))
               (local.set $acc (i32.add (local.get $acc) (local.get $i)))
               (local.set $i (i32.add (local.get $i) (i32.const 1)))
               (br $again)))
           (local.get $acc)"#,
    ));
    let first = run(&module, b"seed").unwrap();
    let second = run(&module, b"seed").unwrap();
    assert_eq!(first, second);
}

#[test]
fn different_inputs_reach_different_states() {
    let module = canonical(
        r#"(module
             (import "cairn" "input"  (func $input  (param i32 i32) (result i32)))
             (import "cairn" "output" (func $output (param i32 i32)))
             (memory (export "memory") 1 4)
             (func (export "cairn_run")
               (drop (call $input (i32.const 0) (i32.const 8)))
               (call $output (i32.const 0) (i32.const 8))))"#,
    );
    let a = run(&module, b"aaaaaaaa").unwrap();
    let b = run(&module, b"bbbbbbbb").unwrap();
    assert_ne!(a.final_root, b.final_root);
    assert_ne!(a.output, b.output);
}

#[test]
fn stepping_and_running_agree() {
    // `run` is a loop over `step`, so a divergence here would mean two implementations of
    // what an instruction does -- exactly what building the loop on the step avoids.
    let module = canonical(&module_returning_i32(
        "(i32.add (i32.const 1) (i32.const 2))",
    ));
    let image = image::decode(&module).unwrap();

    let mut streamed = Machine::new(&image, Vec::new(), Limits::default()).unwrap();
    let expected = streamed.run().unwrap();

    let mut stepped = Machine::new(&image, Vec::new(), Limits::default()).unwrap();
    let initial = stepped.commit().root();
    let mut snapshots = Vec::new();
    loop {
        match stepped.step().unwrap() {
            Progress::Continued => {}
            Progress::Snapshot { at } => {
                let step = stepped.steps();
                snapshots.push(Snapshot {
                    step,
                    fuel: at,
                    root: stepped.commit().root(),
                });
            }
            Progress::Finished => break,
        }
    }

    assert_eq!(initial, expected.initial);
    assert_eq!(snapshots, expected.snapshots);
    assert_eq!(stepped.commit().root(), expected.final_root);
    assert_eq!(stepped.steps(), expected.steps);
    assert_eq!(stepped.fuel(), expected.fuel);
    assert_eq!(stepped.output(), expected.output);
}

#[test]
fn the_state_root_moves_with_every_kind_of_state() {
    // Memory, globals and the operand stack must each be visible in the commitment,
    // because a divergence in any of them has to be detectable.
    let module = canonical(
        r#"(module
             (memory (export "memory") 1 4)
             (global $g (mut i32) (i32.const 0))
             (func (export "cairn_run")
               (i32.store (i32.const 0) (i32.const 1))
               (global.set $g (i32.const 2))))"#,
    );
    let image = image::decode(&module).unwrap();
    let mut machine = Machine::new(&image, Vec::new(), Limits::default()).unwrap();

    let mut seen = vec![machine.commit().root()];
    while !matches!(machine.step().unwrap(), Progress::Finished) {
        seen.push(machine.commit().root());
    }

    let unique: std::collections::BTreeSet<_> = seen.iter().collect();
    assert!(
        unique.len() > 3,
        "the state root barely moved across {} steps",
        seen.len()
    );
}

#[test]
fn memory_growth_alone_changes_the_state_root() {
    // Grown-but-blank pages hold the same bytes as before, so only the page count tells
    // the two states apart. See state::hash_memory.
    let module = canonical(
        r#"(module
             (memory (export "memory") 1 4)
             (func (export "cairn_run") (drop (memory.grow (i32.const 1)))))"#,
    );
    let image = image::decode(&module).unwrap();
    let mut machine = Machine::new(&image, Vec::new(), Limits::default()).unwrap();

    let before = machine.commit().root();
    while !matches!(machine.step().unwrap(), Progress::Finished) {}
    assert_ne!(machine.commit().root(), before);
}
