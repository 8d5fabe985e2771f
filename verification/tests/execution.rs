//! What holds of every execution, on a few of them.
use cairn_runtime::canon::{Canonicalization, Config, instrument};
use cairn_runtime::dispute::{
    AdjudicationError, Claimant, Judgment, Party, Replay, Step, Verdict, adjudicate, judge, resolve,
};
use cairn_runtime::engine::image::{Image, decode};
use cairn_runtime::engine::machine::{Limits, Machine, Progress, Witness, WitnessError};
use cairn_runtime::engine::numeric::{Trap, apply};
use cairn_runtime::engine::operator::Operator;
use cairn_runtime::merkle::{
    PAGE_SIZE, PageTree, PartialError, PartialTree, hash_leaf, hash_node, verify,
};
use cairn_runtime::state::{Value, hash_output, hash_values};
use cairn_runtime::validate::{self, validate_submitted};
use cairn_runtime::wire;

fn source(text: &str) -> Vec<u8> {
    let source = wat::parse_str(text).expect("it assembles");
    validate_submitted(&source, validate::Limits::default()).expect("it is admitted");
    source
}

fn image_of(text: &str) -> Image {
    decode(&instrument(&source(text), Config::default()).unwrap()).unwrap()
}

/// The trap that the body of the entry point ends in.
fn trap_of(declarations: &str, body: &str) -> Trap {
    let image = image_of(&format!(
        r#"(module {declarations}
             (memory (export "memory") 1 2)
             (func (export "cairn_run") {body}))"#
    ));
    let mut machine = match Machine::new(&image, vec![], Limits::default()) {
        Ok(machine) => machine,
        Err(trap) => return trap,
    };
    machine.run().expect_err("it traps")
}

const FLOATS: &str = r#"
    (module
      (import "cairn" "input" (func $input (param i32 i32) (result i32)))
      (import "cairn" "output" (func $output (param i32 i32)))
      (memory (export "memory") 2 4)
      (global $g (mut f64) (f64.const 1))
      (func (export "cairn_run") (local $i i32)
        (drop (call $input (i32.const 0) (i32.const 8)))
        (block $done
          (loop $again
            (br_if $done (i32.ge_u (local.get $i) (i32.const 20)))
            (global.set $g (f64.div (global.get $g) (f64.sub (f64.load (i32.const 0)) (f64.const 3))))
            (local.set $i (i32.add (local.get $i) (i32.const 1)))
            (br $again)))
        (memory.fill (i32.const 65530) (i32.const 7) (i32.const 20))
        (f64.store (i32.const 16) (global.get $g))
        (call $output (i32.const 16) (i32.const 8))))
"#;

fn three() -> Vec<u8> {
    3.0f64.to_bits().to_le_bytes().to_vec()
}

#[test]
fn metering_and_canonicalization_do_not_change_the_answer() {
    let source = source(FLOATS);
    let mut outputs = Vec::new();
    for meter_fuel in [false, true] {
        for canonicalize in [
            Canonicalization::Never,
            Canonicalization::AtEscapes,
            Canonicalization::Everywhere,
        ] {
            let out = instrument(&source, Config { meter_fuel, canonicalize }).unwrap();
            let image = decode(&out).unwrap();
            let mut machine = Machine::new(&image, vec![0; 8], Limits::default()).unwrap();
            outputs.push(machine.run().unwrap().output);
        }
    }
    for output in &outputs {
        assert_eq!(*output, outputs[0]);
    }
    // One divided by minus three, twenty times.
    let mut expected = 1.0f64;
    for _ in 0..20 {
        expected /= -3.0;
    }
    assert_eq!(outputs[0], expected.to_bits().to_le_bytes());
}

/// Runs that end with an answer, with a trap of their own, and for want of fuel.
const ENDINGS: &str = r#"
    (module
      (import "cairn" "input" (func $input (param i32 i32) (result i32)))
      (import "cairn" "output" (func $output (param i32 i32)))
      (memory (export "memory") 1 1)
      (global $g (mut f32) (f32.const 0))
      (func $quotient (param $a f32) (result f32)
        (f32.div (local.get $a) (f32.load (i32.const 0))))
      (func (export "cairn_run")
        (drop (call $input (i32.const 0) (i32.const 4)))
        (global.set $g (call $quotient (f32.const 0)))
        (if (f32.gt (f32.load (i32.const 0)) (f32.const 100))
          (then (unreachable))
          (else
            (loop $again
              (br_if $again (f32.lt (f32.load (i32.const 0)) (f32.const -100))))))
        (f32.store (i32.const 8) (f32.add (global.get $g) (f32.const 1)))
        (call $output (i32.const 4) (i32.const 8))))
"#;

#[test]
fn both_ways_of_canonicalizing_end_alike() {
    let source = source(ENDINGS);
    let images: Vec<_> = [Canonicalization::AtEscapes, Canonicalization::Everywhere]
        .into_iter()
        .map(|canonicalize| {
            let out = instrument(&source, Config { meter_fuel: true, canonicalize }).unwrap();
            decode(&out).unwrap()
        })
        .collect();
    let limits = Limits { fuel: 10_000, ..Limits::default() };
    let mut seen = Vec::new();
    for number in [2.0f32, 0.0, f32::NAN, 101.0, -101.0] {
        let input = number.to_bits().to_le_bytes().to_vec();
        let ends: Vec<_> = images
            .iter()
            .map(|image| {
                let mut machine = Machine::new(image, input.clone(), limits).unwrap();
                machine.run().map(|trace| (trace.output, trace.fuel.get()))
            })
            .collect();
        assert_eq!(ends[0], ends[1], "{number}");
        seen.push(ends[0].clone().map(|(output, _)| output));
    }
    // Zero divided by two, and one more; and then twice not a number, and two traps.
    assert_eq!(seen[0].clone().unwrap()[4..], 1.0f32.to_bits().to_le_bytes());
    assert_eq!(seen[1].clone().unwrap()[4..], 0x7fc0_0000u32.to_le_bytes());
    assert_eq!(seen[2].clone().unwrap()[4..], 0x7fc0_0000u32.to_le_bytes());
    assert_eq!(seen[3], Err(Trap::Unreachable));
    assert_eq!(seen[4], Err(Trap::OutOfFuel));
}

#[test]
fn the_fuel_spent_is_the_number_of_instructions_of_the_original() {
    // A straight line: two constants, a store and the end.
    let image = image_of(
        r#"(module (memory (export "memory") 1 1)
             (func (export "cairn_run") (i32.store (i32.const 0) (i32.const 5))))"#,
    );
    let mut machine = Machine::new(&image, vec![], Limits::default()).unwrap();
    let trace = machine.run().unwrap();
    assert_eq!(trace.fuel.get(), 4);
    // The charge itself is two more instructions that are executed.
    assert_eq!(trace.steps, 6);
}

#[test]
fn an_infinite_result_stays_and_a_nan_becomes_canonical() {
    let image = image_of(FLOATS);
    let mut machine = Machine::new(&image, three(), Limits::default()).unwrap();
    assert_eq!(machine.run().unwrap().output, f64::INFINITY.to_bits().to_le_bytes());
    // A payload that comes in through memory does not go out through a global.
    let mut machine = Machine::new(
        &image,
        0xfff8_0000_dead_beefu64.to_le_bytes().to_vec(),
        Limits::default(),
    )
    .unwrap();
    assert_eq!(machine.run().unwrap().output, 0x7ff8_0000_0000_0000u64.to_le_bytes());
}

#[test]
fn payloads_are_not_seen_by_arithmetic() {
    let nans = [0x7fc0_0000u32, 0x7f80_0001, 0xffff_ffff];
    for op in [Operator::F32Add, Operator::F32Lt, Operator::F32Eq, Operator::F32Min] {
        let mut results = Vec::new();
        for nan in nans {
            let mut stack = vec![Value::F32(nan), Value::F32(1.0f32.to_bits())];
            assert_eq!(apply(&op, &mut stack), Ok(true));
            results.push(stack);
        }
        assert!(results.iter().all(|r| *r == results[0]), "{op:?}");
    }
    for nan in nans {
        let mut stack = vec![Value::F32(nan)];
        assert_eq!(apply(&Operator::I32TruncF32S, &mut stack), Err(Trap::BadConversion));
    }
}

#[test]
fn every_trap_of_an_indirect_call() {
    let table = "(type $t (func)) (type $u (func (param i32))) (table 2 2 funcref)
                 (func $f (type $u)) (elem (i32.const 0) $f)";
    assert_eq!(
        trap_of(table, "(call_indirect (type $t) (i32.const 2))"),
        Trap::TableOutOfBounds
    );
    assert_eq!(
        trap_of(table, "(call_indirect (type $t) (i32.const 1))"),
        Trap::UninitializedElement
    );
    assert_eq!(
        trap_of(table, "(call_indirect (type $t) (i32.const 0))"),
        Trap::SignatureMismatch
    );
}

#[test]
fn a_dropped_segment_is_empty() {
    let data = r#"(data $d "abcdef")"#;
    assert_eq!(
        trap_of(
            data,
            "(data.drop $d) (memory.init $d (i32.const 0) (i32.const 0) (i32.const 1)) unreachable"
        ),
        Trap::MemoryOutOfBounds
    );
    // Nothing of it can still be copied.
    assert_eq!(
        trap_of(
            data,
            "(data.drop $d) (memory.init $d (i32.const 0) (i32.const 0) (i32.const 0)) unreachable"
        ),
        Trap::Unreachable
    );
}

#[test]
fn segments_that_do_not_fit_trap_before_anything_runs() {
    assert_eq!(
        trap_of(r#"(data (i32.const 65535) "ab")"#, "unreachable"),
        Trap::MemoryOutOfBounds
    );
    assert_eq!(
        trap_of("(table 1 1 funcref) (func $f) (elem (i32.const 1) $f)", "unreachable"),
        Trap::TableOutOfBounds
    );
}

#[test]
fn an_instruction_without_a_meaning_here_is_unsupported() {
    let mut image = image_of(
        r#"(module (memory (export "memory") 1 1) (func (export "cairn_run")))"#,
    );
    image.functions[0].ops[0] = Operator::RefNull { text: "RefNull { hty: func }".to_owned() };
    let mut machine = Machine::new(&image, vec![], Limits::default()).unwrap();
    assert_eq!(
        machine.step(),
        Err(Trap::Unsupported { operator: "RefNull { hty: func }".to_owned() })
    );
    image.functions[0].ops[0] = Operator::I32Eqz;
    let mut machine = Machine::new(&image, vec![], Limits::default()).unwrap();
    assert_eq!(machine.step(), Err(Trap::StackUnderflow));
    image.functions[0].ops[0] = Operator::I64Const { value: 1 };
    image.functions[0].ops[1] = Operator::I32Eqz;
    let mut machine = Machine::new(&image, vec![], Limits::default()).unwrap();
    assert_eq!(machine.step(), Ok(Progress::Continued));
    assert_eq!(machine.step(), Err(Trap::TypeMismatch));
}

fn machine_at<'a>(image: &'a Image, input: &[u8], steps: u64) -> Machine<'a> {
    let mut machine = Machine::new(image, input.to_vec(), Limits::default()).unwrap();
    for _ in 0..steps {
        let _ = machine.step().unwrap();
    }
    machine
}

#[test]
fn a_machine_rebuilt_from_every_page_runs_to_the_same_end() {
    let image = image_of(FLOATS);
    let input = three();
    let total = machine_at(&image, &input, 0).run().unwrap().steps;
    for at in [0, total / 3, total / 2, total - 1] {
        let mut machine = machine_at(&image, &input, at);
        let witness = machine.witness(&[0, 1]);
        let mut rebuilt =
            Machine::restore(&image, &witness, input.clone(), Limits::default()).unwrap();
        assert_eq!(rebuilt.commit().root(), machine.commit().root());
        let (a, b) = (machine.run().unwrap(), rebuilt.run().unwrap());
        assert_eq!(a.final_root, b.final_root);
        assert_eq!(a.steps, b.steps);
    }
}

#[test]
fn an_ordinary_instruction_needs_two_pages_at_most() {
    let image = image_of(FLOATS);
    let input = three();
    let total = machine_at(&image, &input, 0).run().unwrap().steps;
    for at in 0..total {
        let witness = machine_at(&image, &input, at).witness_for_next_step();
        assert!(witness.pages.len() <= 2, "step {at}");
    }
}

#[test]
fn a_witness_commits_to_the_state_it_was_taken_from() {
    let image = image_of(FLOATS);
    for at in [0, 7, 40] {
        let mut machine = machine_at(&image, &three(), at);
        let root = machine.commit().root();
        assert_eq!(machine.witness_for_next_step().commitment().root(), root);
        assert_eq!(machine.commit().root(), root);
        let sent = wire::encode(&machine.witness_for_next_step()).unwrap();
        assert_eq!(wire::decode(&sent).unwrap().commitment().root(), root);
    }
}

#[test]
fn the_root_binds_what_a_witness_says() {
    let image = image_of(FLOATS);
    let honest = || machine_at(&image, &three(), 12).witness_for_next_step();
    let root = honest().commitment().root();
    let changed: Vec<fn(&mut Witness)> = vec![
        |w| w.output[0] ^= 1,
        |w| w.globals[0] = Value::F64(0),
        |w| w.operand_stack.push(Value::I32(0)),
        |w| w.frames[0].locals[0] = Value::I32(-1),
        |w| w.frames[0].instruction += 1,
        |w| w.memory_pages += 1,
        |w| w.memory_root[31] ^= 1,
        |w| w.dropped_data.push(true),
        |w| w.fuel = cairn_runtime::fuel::Fuel::new(0),
    ];
    for (i, change) in changed.into_iter().enumerate() {
        let mut witness = honest();
        change(&mut witness);
        assert_ne!(witness.commitment().root(), root, "change {i}");
    }
    // How far a construct reaches, how large memory may grow and how many instructions have
    // run are not part of the state.
    let mut witness = honest();
    witness.steps += 1;
    witness.memory_max_pages += 1;
    assert_eq!(witness.commitment().root(), root);
}

#[test]
fn every_fault_of_a_witness_is_named() {
    let image = image_of(FLOATS);
    let good = || machine_at(&image, &three(), 5).witness(&[0]);
    let restored = |w: &Witness, limits: Limits| {
        Machine::restore(&image, w, three(), limits).err()
    };
    assert_eq!(restored(&good(), Limits::default()), None);
    let mut witness = good();
    witness.pages[0].bytes.pop();
    assert_eq!(
        restored(&witness, Limits::default()),
        Some(WitnessError::BadPageSize { page: 0, got: PAGE_SIZE - 1 })
    );
    let mut witness = good();
    witness.pages[0].bytes[9] ^= 1;
    assert_eq!(
        restored(&witness, Limits::default()),
        Some(WitnessError::BadPageProof { page: 0 })
    );
    let mut witness = good();
    witness.frames.clear();
    assert_eq!(restored(&witness, Limits::default()), Some(WitnessError::NoFrames));
    // What no root covers is for the adjudicator to check.
    let mut witness = machine_at(&image, &three(), 30).witness(&[]);
    witness.memory_max_pages += 1;
    witness.frames[0].labels[0].end += 1;
    assert_eq!(restored(&witness, Limits::default()), None);
    let limits = Limits { snapshot_interval_log2: 64, ..Limits::default() };
    assert_eq!(restored(&good(), limits), Some(WitnessError::BadLimits));
}

#[test]
fn a_finished_machine_and_its_witness_have_one_root() {
    let image = image_of(FLOATS);
    let mut machine = machine_at(&image, &three(), 0);
    let trace = machine.run().unwrap();
    assert_eq!(machine.witness(&[]).commitment().root(), machine.commit().root());
    assert_eq!(machine.commit().root(), trace.final_root);
}

/// What a function without parameters answers with.
fn answer_of(declarations: &str, body: &str) -> Vec<u8> {
    let image = image_of(&format!(
        r#"(module
             (import "cairn" "output" (func $output (param i32 i32)))
             (memory (export "memory") 1 2)
             {declarations}
             (func (export "cairn_run") {body}
               (call $output (i32.const 8) (i32.const 8))))"#
    ));
    let mut machine = Machine::new(&image, vec![], Limits::default()).unwrap();
    machine.run().unwrap().output
}

#[test]
fn a_table_of_branches_branches_as_its_entry_says() {
    for (index, expected) in [(0, 10u8), (1, 20), (2, 30), (7, 30), (-1, 30)] {
        let body = format!(
            "(i32.store8 (i32.const 8)
               (block $c (result i32)
                 (drop (block $b (result i32)
                   (drop (block $a (result i32)
                     (br_table $a $b $c (i32.const 30) (i32.const {index}))))
                   (br $c (i32.const 10))))
                 (i32.const 20)))"
        );
        assert_eq!(answer_of("", &body)[0], expected, "{index}");
    }
}

#[test]
fn a_load_gives_back_what_a_store_wrote() {
    for (store, load, value, expected) in [
        ("i64.store", "i64.load", -2i64, -2i64),
        ("i64.store32", "i64.load32_s", -2, -2),
        ("i64.store32", "i64.load32_u", -2, 0xffff_fffe),
        ("i64.store16", "i64.load16_s", 0x1_8001, -0x7fff),
        ("i64.store16", "i64.load16_u", 0x1_8001, 0x8001),
        ("i64.store8", "i64.load8_s", 0x180, -0x80),
        ("i64.store8", "i64.load8_u", 0x180, 0x80),
    ] {
        let body = format!(
            "({store} (i32.const 65000) (i64.const {value}))
             (i64.store (i32.const 8) ({load} (i32.const 65000)))"
        );
        assert_eq!(answer_of("", &body), expected.to_le_bytes(), "{store} {load}");
    }
    let body = "(f64.store (i32.const 3) (f64.const -1.5))
                (f64.store (i32.const 8) (f64.load (i32.const 3)))";
    assert_eq!(answer_of("", body), (-1.5f64).to_bits().to_le_bytes());
}

#[test]
fn a_metered_run_computes_what_a_plain_one_does() {
    let source = source(FLOATS);
    let canonicalize = Canonicalization::Everywhere;
    let built = |meter_fuel| {
        decode(&instrument(&source, Config { meter_fuel, canonicalize }).unwrap()).unwrap()
    };
    let (plain, metered) = (built(false), built(true));
    let end = |image: &Image, limits: Limits| {
        let mut machine = Machine::new(image, vec![0; 8], limits).unwrap();
        machine.run().map(|trace| (trace.output, trace.steps, trace.fuel.get()))
    };
    let (answer, steps, fuel) = end(&plain, Limits::default()).unwrap();
    assert_eq!(fuel, 0);
    let (same, more, spent) = end(&metered, Limits::default()).unwrap();
    assert_eq!(same, answer);
    assert!(more > steps);
    // Just enough fuel will do, and one less stops the metered one alone.
    let exact = Limits { fuel: spent, ..Limits::default() };
    assert_eq!(end(&metered, exact).unwrap().0, answer);
    let short = Limits { fuel: spent - 1, ..Limits::default() };
    assert_eq!(end(&metered, short), Err(Trap::OutOfFuel));
    assert_eq!(end(&plain, short).unwrap().0, answer);
}

#[test]
fn a_metered_run_traps_where_a_plain_one_does() {
    let source = source(
        r#"(module (memory (export "memory") 1 1)
             (func (export "cairn_run") (local $i i32)
               (local.set $i (i32.const 3))
               (loop $again
                 (local.set $i (i32.sub (local.get $i) (i32.const 1)))
                 (drop (i32.div_u (i32.const 6) (local.get $i)))
                 (br $again))))"#,
    );
    for meter_fuel in [false, true] {
        let config = Config { meter_fuel, canonicalize: Canonicalization::Never };
        let image = decode(&instrument(&source, config).unwrap()).unwrap();
        let mut machine = Machine::new(&image, vec![], Limits::default()).unwrap();
        assert_eq!(machine.run(), Err(Trap::DivideByZero), "{meter_fuel}");
    }
}

#[test]
fn a_judgment_depends_on_the_claims_alone() {
    let (a, b, c) = (Some([1u8; 32]), Some([2u8; 32]), None);
    assert_eq!(judge(&a, &a, &b), Judgment::Guilty { liar: Party::Second });
    assert_eq!(judge(&a, &b, &a), Judgment::Guilty { liar: Party::First });
    assert_eq!(judge(&a, &b, &c), Judgment::BothWrong { actual: a });
    assert_eq!(judge(&c, &a, &b), Judgment::BothWrong { actual: None });
    assert_eq!(judge(&c, &c, &b), Judgment::Guilty { liar: Party::Second });
    assert_eq!(judge(&a, &a, &a), Judgment::Inconsistent);
}

#[test]
fn no_witness_changes_the_judgment() {
    let image = image_of(FLOATS);
    let input = three();
    let at = 30;
    let truth = machine_at(&image, &input, at + 1).commit().root();
    let verdict = Verdict {
        divergence: Step::new(at),
        agreed_root: Some(machine_at(&image, &input, at).commit().root()),
        first_claim: Some([9; 32]),
        second_claim: Some(truth),
        rounds: 1,
    };
    for pages in [&[][..], &[0], &[1, 0], &[0, 1]] {
        let witness = machine_at(&image, &input, at).witness(pages);
        assert_eq!(
            adjudicate(&image, &verdict, &witness, &input, Limits::default()),
            Ok(Judgment::Guilty { liar: Party::First })
        );
    }
}

#[test]
fn a_witness_with_another_ceiling_decides_nothing() {
    let image = image_of(
        r#"(module (memory (export "memory") 1 2)
             (func (export "cairn_run")
               (drop (memory.grow (i32.const 1)))
               (block (nop))))"#,
    );
    // The step before the one that leaves two pages.
    let mut at = 0;
    while machine_at(&image, &[], at + 1).witness(&[]).memory_pages == 1 {
        at += 1;
    }
    let truth = machine_at(&image, &[], at + 1).commit().root();
    let honest = machine_at(&image, &[], at).witness_for_next_step();
    // What the instruction would leave if there were no room.
    let mut forged = honest.clone();
    forged.memory_max_pages = forged.memory_pages;
    let mut other = Machine::restore(&image, &forged, vec![], Limits::default()).unwrap();
    let _ = other.step().unwrap();
    let lie = other.commit().root();
    assert_ne!(lie, truth);
    assert_eq!(forged.commitment().root(), honest.commitment().root());
    let verdict = Verdict {
        divergence: Step::new(at),
        agreed_root: Some(honest.commitment().root()),
        first_claim: Some(truth),
        second_claim: Some(lie),
        rounds: 1,
    };
    assert_eq!(
        adjudicate(&image, &verdict, &honest, &[], Limits::default()),
        Ok(Judgment::Guilty { liar: Party::Second })
    );
    assert_eq!(
        adjudicate(&image, &verdict, &forged, &[], Limits::default()),
        Err(AdjudicationError::WitnessDoesNotMatchAgreedState)
    );
}

#[test]
fn a_witness_with_another_end_of_a_construct_decides_nothing() {
    let image = image_of(FLOATS);
    let input = three();
    let at = 30;
    let honest = machine_at(&image, &input, at).witness_for_next_step();
    let verdict = Verdict {
        divergence: Step::new(at),
        agreed_root: Some(honest.commitment().root()),
        first_claim: Some([9; 32]),
        second_claim: Some(machine_at(&image, &input, at + 1).commit().root()),
        rounds: 1,
    };
    assert_eq!(
        adjudicate(&image, &verdict, &honest, &input, Limits::default()),
        Ok(Judgment::Guilty { liar: Party::First })
    );
    let labels = honest.frames[0].labels.len();
    // A block and a loop in it.
    assert_eq!(labels, 2);
    assert_eq!(
        honest.frames[0].labels.iter().map(|l| l.is_loop).collect::<Vec<_>>(),
        vec![false, true]
    );
    for label in 0..labels {
        let mut forged = honest.clone();
        forged.frames[0].labels[label].end += 1;
        assert_eq!(forged.commitment().root(), honest.commitment().root());
        assert_eq!(
            adjudicate(&image, &verdict, &forged, &input, Limits::default()),
            Err(AdjudicationError::WitnessDoesNotMatchAgreedState),
            "label {label}"
        );
    }
}

#[test]
fn a_witness_proves_whatever_pages_it_carries() {
    let image = image_of(FLOATS);
    for pages in [&[][..], &[0], &[1, 0], &[0, 0, 7]] {
        let mut machine = machine_at(&image, &three(), 40);
        let (root, steps) = (machine.commit().root(), machine.steps());
        let witness = machine.witness(pages);
        assert_eq!(witness.commitment().root(), root);
        assert_eq!((machine.commit().root(), machine.steps()), (root, steps));
        // A page that there is not is left out.
        let there = pages.iter().filter(|p| **p < 2).count();
        assert_eq!(witness.pages.len(), there);
        for page in &witness.pages {
            assert!(verify(&witness.memory_root, page.index as usize, &page.bytes, &page.path));
        }
    }
}

/// Arithmetic on a NaN that comes in, with each way out for its bits.
const PAYLOADS: &str = r#"
    (module
      (import "cairn" "input" (func $input (param i32 i32) (result i32)))
      (import "cairn" "output" (func $output (param i32 i32)))
      (memory (export "memory") 1 1)
      (global $g (mut f32) (f32.const 0))
      (func $kept (param $a f32) (result f32) (local $b f32)
        (local.set $b (local.get $a))
        (select (local.get $b) (f32.const 1) (i32.const 1)))
      (func (export "cairn_run") (local $nan f32)
        (drop (call $input (i32.const 0) (i32.const 4)))
        (local.set $nan (call $kept (f32.load (i32.const 0))))
        (f32.store (i32.const 8) (local.get $nan))
        (i32.store (i32.const 12) (i32.reinterpret_f32 (f32.neg (local.get $nan))))
        (f32.store (i32.const 16) (f32.copysign (f32.const 2) (local.get $nan)))
        (global.set $g (local.get $nan))
        (f32.store (i32.const 20) (global.get $g))
        (i32.store (i32.const 24) (f32.lt (local.get $nan) (f32.const 1)))
        (f32.store (i32.const 28) (f32.min (local.get $nan) (f32.const 1)))
        (call $output (i32.const 8) (i32.const 24))))
"#;

#[test]
fn payloads_do_not_reach_the_output() {
    let source = source(PAYLOADS);
    for canonicalize in [Canonicalization::AtEscapes, Canonicalization::Everywhere] {
        let image =
            decode(&instrument(&source, Config { meter_fuel: true, canonicalize }).unwrap()).unwrap();
        let mut seen = Vec::new();
        for nan in [0x7fc0_0000u32, 0xffc0_0000, 0x7f80_0001, 0xffff_ffff] {
            let mut machine =
                Machine::new(&image, nan.to_le_bytes().to_vec(), Limits::default()).unwrap();
            seen.push(machine.run().unwrap().output);
        }
        let canonical = 0x7fc0_0000u32.to_le_bytes();
        let expected: Vec<u8> = [
            canonical,
            canonical,
            2.0f32.to_bits().to_le_bytes(),
            canonical,
            0u32.to_le_bytes(),
            canonical,
        ]
        .concat();
        for output in seen {
            assert_eq!(output, expected, "{canonicalize:?}");
        }
    }
    // Without canonicalization they do.
    let bare = Config { meter_fuel: true, canonicalize: Canonicalization::Never };
    let image = decode(&instrument(&source, bare).unwrap()).unwrap();
    let mut machine =
        Machine::new(&image, 0xffff_ffffu32.to_le_bytes().to_vec(), Limits::default()).unwrap();
    assert_eq!(machine.run().unwrap().output[..4], 0xffff_ffffu32.to_le_bytes());
}

#[test]
fn the_party_that_ran_the_unit_is_never_guilty() {
    let image = image_of(FLOATS);
    let (assigned, other) = (three(), vec![1u8; 8]);
    let length = Step::new(machine_at(&image, &assigned, 0).run().unwrap().steps);
    let mut honest = Replay::new(&image, assigned.clone(), Limits::default());
    let mut cheat = Replay::with_checkpoint_budget(&image, other, Limits::default(), 0);
    let verdict = resolve(&mut honest, &mut cheat, length).unwrap();
    assert_eq!(cheat.checkpoints(), 0);
    let at = verdict.divergence;
    let witness = machine_at(&image, &assigned, at.get()).witness_for_next_step();
    assert_eq!(
        adjudicate(&image, &verdict, &witness, &assigned, Limits::default()),
        Ok(Judgment::Guilty { liar: Party::Second })
    );
    // They agreed on everything before.
    for step in 0..=at.get() {
        let step = Step::new(step);
        assert_eq!(honest.root_at(step), cheat.root_at(step));
    }
}

#[test]
fn a_revealed_part_of_a_tree_has_the_trees_root() {
    let mut tree = PageTree::new(5);
    let mut part = PartialTree::new(5);
    assert_eq!(part.root(), None);
    for i in 0..5usize {
        tree.set_page(i, &vec![i as u8 + 1; PAGE_SIZE]).unwrap();
    }
    let path = tree.page_proof(3).unwrap();
    part.insert(3, &vec![4; PAGE_SIZE], &path).unwrap();
    assert_eq!(part.root(), Some(tree.root()));
    // Writing a page that was supplied goes on agreeing.
    tree.set_page(3, &vec![99; PAGE_SIZE]).unwrap();
    part.set_page(3, &vec![99; PAGE_SIZE]).unwrap();
    assert_eq!(part.root(), Some(tree.root()));
    assert_eq!(
        part.set_page(9, &vec![0; PAGE_SIZE]),
        Err(PartialError::OutOfRange { index: 9, pages: 5 })
    );
    assert_eq!(part.set_page(3, &[0]), Err(PartialError::WrongSize { got: 1 }));
}

#[test]
fn hashes_are_blake3_with_a_domain_in_front() {
    let page = vec![7u8; PAGE_SIZE];
    // Neither is the hash of its bare bytes, and the two do not meet.
    assert_ne!(hash_leaf(&page), *blake3::hash(&page).as_bytes());
    let (a, b) = ([1u8; 32], [2u8; 32]);
    assert_ne!(hash_node(&a, &b), hash_node(&b, &a));
    assert_ne!(hash_output(&[]), hash_values(&[]));
    let mut framed = vec![0u8];
    framed.extend(&page);
    assert_eq!(hash_leaf(&page), *blake3::hash(&framed).as_bytes());
    let mut framed = vec![1u8];
    framed.extend(a);
    framed.extend(b);
    assert_eq!(hash_node(&a, &b), *blake3::hash(&framed).as_bytes());
}

#[test]
fn what_was_decoded_can_be_encoded() {
    let image = image_of(FLOATS);
    let mut witness = machine_at(&image, &three(), 12).witness(&[0]);
    witness.dropped_data = vec![true];
    witness.dropped_elements = vec![];
    let sent = wire::encode(&witness).unwrap();
    // The flag stands before an empty list and two numbers of eight bytes.
    let mut odd = sent.clone();
    let at = odd.len() - 21;
    assert_eq!(odd[at], 1);
    odd[at] = 7;
    let received = wire::decode(&odd).unwrap();
    assert_eq!(received, witness);
    assert_eq!(wire::encode(&received).unwrap(), sent);
}
