//! Witnesses on a wire.
use cairn_runtime::canon::{self, Config};
use cairn_runtime::engine::image;
use cairn_runtime::engine::machine::{
    FrameWitness, LabelWitness, Limits, Machine, PageWitness, Progress, Witness,
};
use cairn_runtime::fuel::Fuel;
use cairn_runtime::merkle::PAGE_SIZE;
use cairn_runtime::state::Value;
use cairn_runtime::wire::{MAGIC, VERSION, WireError, decode, encode};

/// A workload that writes to memory, so its witnesses carry pages and proofs rather than
/// only small state. A round trip over the easy shape would prove very little.
const STORING: &str = r#"
    (module
      (import "cairn" "input"  (func $input  (param i32 i32) (result i32)))
      (import "cairn" "output" (func $output (param i32 i32)))
      (memory (export "memory") 4 8)
      (global $g (mut i64) (i64.const 7))
      (func (export "cairn_run") (local $i i32) (local $len i32)
        (local.set $len (call $input (i32.const 0) (i32.const 0)))
        (drop (call $input (i32.const 0) (local.get $len)))
        (block $done
          (loop $again
            (br_if $done (i32.ge_u (local.get $i) (i32.const 900)))
            (i32.store (local.get $i) (local.get $i))
            (global.set $g (i64.add (global.get $g) (i64.const 1)))
            (local.set $i (i32.add (local.get $i) (i32.const 4)))
            (br $again)))
        (call $output (i32.const 0) (i32.const 8))))
"#;

fn canonical(text: &str) -> Vec<u8> {
    let source = wat::parse_str(text).expect("module should assemble");
    cairn_runtime::validate::validate_submitted(&source, cairn_runtime::validate::Limits::default())
        .expect("module should be admissible");
    canon::instrument(&source, Config::dispute_path()).expect("instrumentation should succeed")
}

#[test]
fn every_witness_of_a_real_execution_survives_the_round_trip() {
    // Not one witness — every witness, at every step, including the ones carrying pages and
    // the ones carrying none. A format that round-trips the first instruction and loses a
    // proof sibling at the two-hundredth would pass a smaller test.
    let module = canonical(STORING);
    let image = image::decode(&module).unwrap();
    let mut machine = Machine::new(&image, b"round trip".to_vec(), Limits::default()).unwrap();

    let mut carried_pages = 0;
    let mut carried_none = 0;
    for step in 0..4_000u64 {
        let witness = machine.witness_for_next_step();
        if witness.pages.is_empty() {
            carried_none += 1;
        } else {
            carried_pages += 1;
        }

        let bytes = encode(&witness).unwrap();
        let back = decode(&bytes).unwrap_or_else(|e| panic!("step {step}: {e:?}"));
        assert_eq!(back, witness, "witness at step {step} did not round-trip");

        // The property that actually matters downstream: a decoded witness must commit to
        // the same root, or adjudication would refuse a witness that arrived intact.
        assert_eq!(
            back.commitment().root(),
            witness.commitment().root(),
            "step {step}: the decoded witness commits differently"
        );

        if matches!(machine.step().unwrap(), Progress::Finished) {
            break;
        }
    }
    assert!(carried_pages > 0, "no witness carried a page");
    assert!(carried_none > 0, "every witness carried a page");
}

/// A witness with something in every field, built by hand so the test does not depend on
/// which shapes a particular workload happens to produce.
fn populated() -> Witness {
    Witness {
        output: cairn_runtime::state::hash_output(b"an answer"),
        globals: vec![
            Value::I32(-1),
            Value::I64(i64::MIN),
            Value::F32(0x7fc0_0000),
        ],
        operand_stack: vec![Value::F64(u64::MAX), Value::I32(0)],
        frames: vec![
            FrameWitness {
                function: 3,
                instruction: 11,
                locals: vec![Value::I64(-9)],
                stack_base: 1,
                arity: 2,
                labels: vec![LabelWitness {
                    branch_target: 4,
                    arity: 1,
                    stack_height: 3,
                    end: 90,
                    is_loop: true,
                }],
            },
            FrameWitness {
                function: 0,
                instruction: 0,
                locals: Vec::new(),
                stack_base: 0,
                arity: 0,
                labels: Vec::new(),
            },
        ],
        memory_pages: 2,
        memory_max_pages: 8,
        memory_root: [9; 32],
        pages: vec![PageWitness {
            index: 1,
            bytes: vec![0xab; PAGE_SIZE],
            path: vec![[1; 32], [2; 32]],
        }],
        dropped_data: vec![true, false, true],
        dropped_elements: vec![false],
        fuel: Fuel::new(123_456),
        steps: 78_910,
    }
}

#[test]
fn a_hand_built_witness_round_trips_field_for_field() {
    let witness = populated();
    assert_eq!(decode(&encode(&witness).unwrap()).unwrap(), witness);
}

#[test]
fn truncating_anywhere_is_an_error_and_never_a_panic() {
    // Every prefix of a valid encoding. A decoder that reads one field past the end is the
    // ordinary way this kind of code fails, and it fails on exactly one of these.
    let bytes = encode(&populated()).unwrap();
    for cut in 0..bytes.len() {
        let prefix = &bytes[..cut];
        assert!(
            decode(prefix).is_err(),
            "a {cut}-byte prefix decoded as a whole witness"
        );
    }
    assert!(decode(&bytes).is_ok(), "the whole thing must still decode");
}

#[test]
fn flipping_any_single_byte_is_an_error_or_a_different_witness_but_never_a_panic() {
    // The point is the "never a panic". Most corruptions produce a witness that is
    // well-formed and wrong — which is fine, because adjudication checks the commitment —
    // and the rest must be clean errors.
    let bytes = encode(&populated()).unwrap();
    // The page body is 64 KiB of identical filler; walking all of it would add a minute to
    // the suite and test the same branch 65,000 times. Header, counts and trailer are where
    // the parsing decisions are.
    let interesting: Vec<usize> = (0..64)
        .chain(bytes.len().saturating_sub(400)..bytes.len())
        .collect();
    for at in interesting {
        for mask in [0x01u8, 0x80, 0xff] {
            let mut corrupted = bytes.clone();
            corrupted[at] ^= mask;
            // Must return, either way.
            let _ = decode(&corrupted);
        }
    }
}

#[test]
fn a_count_larger_than_the_input_is_refused_before_anything_is_allocated() {
    // The attack this decoder exists to survive: five bytes claiming four billion entries.
    // Left unchecked, `Vec::with_capacity` turns that into tens of gigabytes.
    let mut bytes = Vec::new();
    bytes.extend_from_slice(&MAGIC);
    bytes.push(VERSION);
    bytes.extend_from_slice(&[0; 32]); // output digest
    bytes.extend_from_slice(&u32::MAX.to_le_bytes()); // globals

    match decode(&bytes) {
        Err(WireError::ImplausibleCount { claimed, .. }) => {
            assert_eq!(claimed, u64::from(u32::MAX));
        }
        other => panic!("expected the count to be refused, got {other:?}"),
    }
}

#[test]
fn every_count_in_the_format_is_bounded_the_same_way() {
    // Not just the first one. A single unchecked prefix anywhere is the whole hole, so this
    // walks the encoding and overwrites each 4-byte count in turn with u32::MAX.
    let witness = populated();
    let good = encode(&witness).unwrap();

    // Offsets of the length prefixes, derived rather than hard-coded, by encoding witnesses
    // that differ only in one collection's length and finding where the bytes first differ.
    let mut probes = Vec::new();
    let mut with_extra_global = witness.clone();
    with_extra_global.globals.push(Value::I32(1));
    probes.push(with_extra_global);
    let mut with_extra_stack = witness.clone();
    with_extra_stack.operand_stack.push(Value::I32(1));
    probes.push(with_extra_stack);
    let mut with_extra_frame = witness.clone();
    with_extra_frame.frames.push(FrameWitness {
        function: 0,
        instruction: 0,
        locals: Vec::new(),
        stack_base: 0,
        arity: 0,
        labels: Vec::new(),
    });
    probes.push(with_extra_frame);
    let mut with_extra_flag = witness.clone();
    with_extra_flag.dropped_data.push(false);
    probes.push(with_extra_flag);

    for probe in probes {
        let other = encode(&probe).unwrap();
        let at = good
            .iter()
            .zip(other.iter())
            .position(|(a, b)| a != b)
            .expect("the encodings must differ somewhere");
        let mut hostile = good.clone();
        hostile[at..at + 4].copy_from_slice(&u32::MAX.to_le_bytes());
        assert!(
            matches!(decode(&hostile), Err(WireError::ImplausibleCount { .. })),
            "an unbounded count at byte {at} was not refused"
        );
    }
}

#[test]
fn random_bytes_never_decode_and_never_panic() {
    // Not a fuzzer — `runtime/tests/admission.rs` is that. This is the cheap always-on
    // version: a deterministic pseudo-random sweep that runs on every `cargo test`.
    let mut state = 0x243f_6a88_85a3_08d3u64;
    let mut next = move || {
        state ^= state << 13;
        state ^= state >> 7;
        state ^= state << 17;
        state
    };

    for case in 0..2_000u32 {
        let len = (next() % 512) as usize;
        let mut bytes: Vec<u8> = (0..len).map(|_| (next() & 0xff) as u8).collect();
        // Half the cases wear the right header, so they get past the cheap rejection and
        // exercise the counts underneath.
        if case % 2 == 0 && bytes.len() >= 5 {
            bytes[..4].copy_from_slice(&MAGIC);
            bytes[4] = VERSION;
        }
        let _ = decode(&bytes);
    }
}

#[test]
fn trailing_bytes_are_refused_rather_than_ignored() {
    let mut bytes = encode(&populated()).unwrap();
    bytes.push(0);
    assert_eq!(
        decode(&bytes).unwrap_err(),
        WireError::TrailingBytes { extra: 1 }
    );
}

#[test]
fn the_header_is_checked_before_anything_else() {
    assert_eq!(
        decode(b"").unwrap_err(),
        WireError::Truncated { reading: "magic" }
    );
    assert_eq!(decode(b"nope").unwrap_err(), WireError::NotAWitness);

    let mut wrong_version = encode(&populated()).unwrap();
    wrong_version[4] = 99;
    assert_eq!(
        decode(&wrong_version).unwrap_err(),
        WireError::UnsupportedVersion { found: 99 }
    );

    // Version 1 is refused rather than read. It had no output digest, so a permissive
    // decoder would produce a witness that reconstructs a *different* root — which reaches
    // adjudication as "this witness does not match the agreed state" and looks like the
    // party lied. A version check is what makes that an upgrade notice instead.
    let mut version_one = encode(&populated()).unwrap();
    version_one[4] = 1;
    assert_eq!(
        decode(&version_one).unwrap_err(),
        WireError::UnsupportedVersion { found: 1 }
    );
}

#[test]
fn an_unknown_value_tag_is_refused() {
    let mut bytes = Vec::new();
    bytes.extend_from_slice(&MAGIC);
    bytes.push(VERSION);
    bytes.extend_from_slice(&[0; 32]); // output digest
    bytes.extend_from_slice(&1u32.to_le_bytes()); // one global
    bytes.push(0x7f); // no such type
    bytes.extend_from_slice(&0u64.to_le_bytes());
    assert_eq!(
        decode(&bytes).unwrap_err(),
        WireError::UnknownValueTag { tag: 0x7f }
    );
}

#[test]
fn a_page_of_the_wrong_length_cannot_be_encoded() {
    let mut witness = populated();
    witness.pages[0].bytes.truncate(10);
    assert_eq!(
        encode(&witness).unwrap_err(),
        WireError::WrongPageLength { found: 10 }
    );
}

#[test]
fn wire_every_error_renders_a_message() {
    let samples = [
        WireError::NotAWitness,
        WireError::UnsupportedVersion { found: 2 },
        WireError::Truncated { reading: "magic" },
        WireError::ImplausibleCount {
            reading: "pages",
            claimed: 9,
            remaining: 1,
        },
        WireError::UnknownValueTag { tag: 0x40 },
        WireError::WrongPageLength { found: 3 },
        WireError::TrailingBytes { extra: 7 },
        WireError::TooLargeToEncode { writing: "frames" },
    ];
    for sample in samples {
        assert!(
            !sample.to_string().is_empty(),
            "empty message for {sample:?}"
        );
    }
}
