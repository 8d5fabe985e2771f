//! Which modules are admitted.
use cairn_runtime::validate::{
    ENTRY_POINT, Limits, MEMORY_EXPORT, ModuleFacts, Rejection, declared_memory_pages,
    validate_submitted,
};

/// Assemble WebAssembly text into a binary. Panics on malformed test input, which is a
/// bug in the test rather than a case under test.
fn wasm(text: &str) -> Vec<u8> {
    wat::parse_str(text).expect("test module should assemble")
}

/// A module that satisfies every structural rule, used as the base for negative cases.
const VALID: &str = r#"
    (module
      (import "cairn" "input"  (func $input  (param i32 i32) (result i32)))
      (import "cairn" "output" (func $output (param i32 i32)))
      (memory (export "memory") 1 16)
      (func (export "cairn_run")
        (drop (call $input (i32.const 0) (i32.const 0)))
        (call $output (i32.const 0) (i32.const 0))
      )
    )
"#;

fn check(text: &str) -> Result<ModuleFacts, Rejection> {
    validate_submitted(&wasm(text), Limits::default())
}

#[test]
fn accepts_a_well_formed_module() {
    let facts = check(VALID).expect("the reference module must validate");
    assert_eq!(
        facts,
        ModuleFacts {
            memory_pages_min: 1,
            memory_pages_max: 16,
            imports_input: true,
            imports_output: true,
        }
    );
}

#[test]
fn the_declared_ceiling_survives_instrumentation() {
    // The claim `declared_memory_pages` is built on, and the reason a volunteer may read it
    // from the canonical bytes it was actually sent rather than from a submission it never
    // sees. If instrumentation ever grew a reason to touch the memory section — a scratch
    // page for metering, say — a volunteer would silently budget for the wrong workload,
    // and this is where that shows up.
    let submitted = wasm(VALID);
    let facts = validate_submitted(&submitted, Limits::default()).expect("must validate");
    assert_eq!(
        declared_memory_pages(&submitted),
        Some(facts.memory_pages_max)
    );

    for config in [
        cairn_runtime::canon::Config::honest_path(),
        cairn_runtime::canon::Config::dispute_path(),
    ] {
        let canonical = cairn_runtime::canon::instrument(&submitted, config).expect("must instrument");
        assert_eq!(
            declared_memory_pages(&canonical),
            Some(facts.memory_pages_max),
            "instrumentation changed the declared memory ceiling"
        );
    }
}

#[test]
fn a_module_with_nothing_to_read_reports_nothing_rather_than_a_guess() {
    // Both of these were refused at registration, so a volunteer only meets them if the
    // coordinator served something it never admitted. `None` is what makes the caller
    // assume the worst the network permits; a default here would hide that.
    assert_eq!(declared_memory_pages(&[]), None);
    assert_eq!(
        declared_memory_pages(&wasm(r#"(module (memory 1) (func (export "cairn_run")))"#)),
        None,
        "a memory with no declared maximum has no ceiling to report"
    );
}

#[test]
fn accepts_a_module_that_imports_nothing() {
    // A workload with its input compiled in is unusual but not invalid.
    let facts = check(
        r#"(module
             (memory (export "memory") 2 4)
             (func (export "cairn_run")))"#,
    )
    .unwrap();
    assert!(!facts.imports_input);
    assert!(!facts.imports_output);
    assert_eq!(facts.memory_pages_min, 2);
}

#[test]
fn accepts_floating_point() {
    // The workloads Cairn exists for are almost entirely floating point. NaN divergence
    // is handled by canonicalization in the instrumentation pass, not by banning floats.
    check(
        r#"(module
             (memory (export "memory") 1 1)
             (func (export "cairn_run") (result f64)
               (f64.sqrt (f64.mul (f64.const 1.5) (f64.const 2.0)))))"#,
    )
    .expect("floating point must be admitted");
}

#[test]
fn accepts_bulk_memory_and_sign_extension() {
    // Both are emitted by default by current LLVM. Rejecting them would exclude
    // essentially every real compiler output.
    check(
        r#"(module
             (memory (export "memory") 1 4)
             (func (export "cairn_run")
               (memory.fill (i32.const 0) (i32.const 0) (i32.const 16))
               (drop (i32.extend8_s (i32.const 1)))))"#,
    )
    .expect("bulk memory and sign extension must be admitted");
}

// --- Nondeterminism: rejected by the feature gate -----------------------------------
//
// These are caught by wasmparser's validator under `admitted_features`, so they surface
// as `Invalid` with a message naming the proposal. The assertions check that they are
// refused rather than which variant is produced, because which layer catches them is an
// implementation detail that may change.

#[test]
fn rejects_threads() {
    let err = check(
        r#"(module
             (memory (export "memory") 1 1 shared)
             (func (export "cairn_run")))"#,
    )
    .unwrap_err();
    assert!(matches!(err, Rejection::Invalid { .. }), "got {err:?}");
}

#[test]
fn rejects_atomics() {
    let err = check(
        r#"(module
             (memory (export "memory") 1 1)
             (func (export "cairn_run")
               (drop (i32.atomic.load (i32.const 0)))))"#,
    )
    .unwrap_err();
    assert!(matches!(err, Rejection::Invalid { .. }), "got {err:?}");
}

#[test]
fn rejects_simd() {
    // Deterministic in principle, but not implemented by the interpreter. The allowlist
    // and the interpreter's coverage move together.
    let err = check(
        r#"(module
             (memory (export "memory") 1 1)
             (func (export "cairn_run")
               (drop (v128.const i32x4 1 2 3 4))))"#,
    )
    .unwrap_err();
    assert!(matches!(err, Rejection::Invalid { .. }), "got {err:?}");
}

/// A LEB128 unsigned integer, appended.
fn leb(out: &mut Vec<u8>, mut value: u32) {
    loop {
        let byte = (value & 0x7f) as u8;
        value >>= 7;
        out.push(if value == 0 { byte } else { byte | 0x80 });
        if value == 0 {
            return;
        }
    }
}

/// A section: its id, its payload's length, its payload.
fn section(out: &mut Vec<u8>, id: u8, payload: &[u8]) {
    out.push(id);
    leb(out, payload.len() as u32);
    out.extend_from_slice(payload);
}

#[test]
fn accepts_the_call_indirect_every_current_toolchain_emits() {
    let mut types = vec![1u8, 0x60, 0x00, 0x00]; // one type: () -> ()
    let functions = vec![2u8, 0x00, 0x00]; // two functions, both of type 0
    let tables = vec![1u8, 0x70, 0x01, 0x01, 0x01]; // one funcref table, 1..=1
    let memories = vec![1u8, 0x01, 0x01, 0x01]; // one memory, 1..=1
    let mut exports = vec![2u8];
    exports.extend_from_slice(b"\x06memory\x02\x00");
    exports.extend_from_slice(b"\x09cairn_run\x00\x01");
    let elements = vec![1u8, 0x00, 0x41, 0x00, 0x0b, 0x01, 0x00]; // table[0] = func 0

    let target = [0x00u8, 0x0b]; // no locals, end
    let caller = [
        0x00, // no locals
        0x41, 0x00, // i32.const 0
        0x11, 0x00, // call_indirect, type 0
        0x80, 0x80, 0x80, 0x80, 0x00, // table 0, the way a compiler spells it
        0x0b, // end
    ];
    let mut code = vec![2u8];
    for body in [&target[..], &caller[..]] {
        leb(&mut code, body.len() as u32);
        code.extend_from_slice(body);
    }

    let mut module = b"\0asm\x01\0\0\0".to_vec();
    section(&mut module, 1, &types);
    section(&mut module, 3, &functions);
    section(&mut module, 4, &tables);
    section(&mut module, 5, &memories);
    section(&mut module, 7, &exports);
    section(&mut module, 9, &elements);
    section(&mut module, 10, &code);

    validate_submitted(&module, Limits::default())
        .expect("the padded form is what every real workload arrives in");

    // And the single-byte form still works, so this admits more rather than something else.
    types.clear();
    let mut narrow = b"\0asm\x01\0\0\0".to_vec();
    section(&mut narrow, 1, &[1u8, 0x60, 0x00, 0x00]);
    section(&mut narrow, 3, &functions);
    section(&mut narrow, 4, &tables);
    section(&mut narrow, 5, &memories);
    section(&mut narrow, 7, &exports);
    section(&mut narrow, 9, &elements);
    let mut narrow_code = vec![2u8];
    let short_caller = [0x00u8, 0x41, 0x00, 0x11, 0x00, 0x00, 0x0b];
    for body in [&target[..], &short_caller[..]] {
        leb(&mut narrow_code, body.len() as u32);
        narrow_code.extend_from_slice(body);
    }
    section(&mut narrow, 10, &narrow_code);
    validate_submitted(&narrow, Limits::default())
        .expect("the spelling the specification requires must still be admitted");
}

#[test]
fn rejects_a_reference_reaching_a_value_position() {
    for source in [
        r#"(module (memory (export "memory") 1 1)
             (func (export "cairn_run"))
             (func (param funcref)))"#,
        r#"(module (memory (export "memory") 1 1)
             (func (export "cairn_run"))
             (func (result funcref) (ref.null func)))"#,
        r#"(module (memory (export "memory") 1 1)
             (global (mut funcref) (ref.null func))
             (func (export "cairn_run")))"#,
        r#"(module (memory (export "memory") 1 1)
             (func (export "cairn_run") (local funcref)))"#,
    ] {
        let err = check(source).unwrap_err();
        assert!(
            matches!(err, Rejection::ReferenceValue { .. }),
            "got {err:?} for {source}"
        );
    }
}

#[test]
fn rejects_every_instruction_that_could_change_the_table() {
    // `StateCommitment` does not cover the table, and the reason it does not need to is
    // that nothing can change it once its element segments are applied. These instructions
    // are what would make that false, so refusing them is what keeps the commitment honest.
    //
    // Refused on submission rather than left to trap in the interpreter. Every other engine
    // runs them, so a module carrying one completes for a volunteer and traps for the
    // referee — and the referee convicts the volunteer.
    for body in [
        "(drop (table.get (i32.const 0)))",
        "(table.set (i32.const 0) (ref.null func))",
        "(drop (table.size))",
        "(drop (table.grow (ref.null func) (i32.const 1)))",
        "(table.fill (i32.const 0) (ref.null func) (i32.const 1))",
        "(drop (ref.func $target))",
        "(drop (ref.is_null (ref.null func)))",
    ] {
        let source = format!(
            r#"(module
                 (memory (export "memory") 1 1)
                 (table 4 4 funcref)
                 (func $target)
                 (elem declare func $target)
                 (func (export "cairn_run") {body}))"#
        );
        let err = check(&source).unwrap_err();
        assert!(
            matches!(
                err,
                Rejection::ReferenceInstruction { .. } | Rejection::ReferenceValue { .. }
            ),
            "got {err:?} for {body}"
        );
    }
}

#[test]
fn rejects_a_second_table() {
    // Multiple tables arrive with the proposal. A second one would be indexed correctly by
    // every engine except Cairn's, whose `call_indirect` resolves against a single table and
    // ignores the instruction's table index — a consensus divergence, not a missing feature.
    //
    // `NonFunctionTable` has no test beside this one because it cannot currently be reached:
    // the only non-function element type is `externref`, and this `wasmparser` puts that
    // behind the GC feature. It is kept for the reason `Rejection` states — the structural
    // pass has to stay correct if the allowlist widens again, and a rule that quietly leaned
    // on the feature gate would fail open at exactly that moment.
    let err = check(
        r#"(module
             (memory (export "memory") 1 1)
             (table 1 1 funcref)
             (table 1 1 funcref)
             (func (export "cairn_run")))"#,
    )
    .unwrap_err();
    assert!(matches!(err, Rejection::MultipleTables), "got {err:?}");
}

#[test]
fn rejects_memory64_and_custom_page_sizes() {
    // Both would break the assumption that the memory commitment is over 64 KiB pages.
    assert!(check(
        r#"(module
             (memory (export "memory") i64 1 1)
             (func (export "cairn_run")))"#,
    )
    .is_err());

    assert!(check(
        r#"(module
             (memory (export "memory") 1 1 (pagesize 1))
             (func (export "cairn_run")))"#,
    )
    .is_err());
}

// --- Cairn's own structural rules ---------------------------------------------------

#[test]
fn validate_rejects_a_module_with_no_memory() {
    assert_eq!(
        check(r#"(module (func (export "cairn_run")))"#).unwrap_err(),
        Rejection::NoMemory
    );
}

#[test]
fn rejects_unbounded_memory() {
    // Without a declared maximum the memory's size depends on the host, and so would the
    // point at which growth fails.
    assert_eq!(
        check(
            r#"(module
                 (memory (export "memory") 1)
                 (func (export "cairn_run")))"#,
        )
        .unwrap_err(),
        Rejection::UnboundedMemory
    );
}

#[test]
fn rejects_oversized_memory() {
    let limit = Limits::default().max_memory_pages;
    let text = format!(
        r#"(module
             (memory (export "memory") 1 {})
             (func (export "cairn_run")))"#,
        limit + 1
    );
    assert_eq!(
        validate_submitted(&wasm(&text), Limits::default()).unwrap_err(),
        Rejection::MemoryTooLarge {
            pages: u64::from(limit) + 1,
            limit,
        }
    );
}

#[test]
fn rejects_an_imported_memory() {
    let err = check(
        r#"(module
             (import "cairn" "memory" (memory 1 1))
             (func (export "cairn_run")))"#,
    )
    .unwrap_err();
    assert_eq!(err, Rejection::ImportedMemory);
}

#[test]
fn rejects_a_start_section() {
    // A start function would run before the entry point and therefore outside the fuel
    // meter, making part of the execution invisible to the trace.
    assert_eq!(
        check(
            r#"(module
                 (memory (export "memory") 1 1)
                 (func $init)
                 (start $init)
                 (func (export "cairn_run")))"#,
        )
        .unwrap_err(),
        Rejection::StartSection
    );
}

#[test]
fn rejects_imports_from_other_modules() {
    assert_eq!(
        check(
            r#"(module
                 (import "wasi_snapshot_preview1" "clock_time_get"
                   (func (param i32 i64 i32) (result i32)))
                 (memory (export "memory") 1 1)
                 (func (export "cairn_run")))"#,
        )
        .unwrap_err(),
        Rejection::ForeignImport {
            module: "wasi_snapshot_preview1".to_owned(),
            name: "clock_time_get".to_owned(),
        }
    );
}

#[test]
fn rejects_importing_the_metering_hook() {
    // A workload that could call `charge` directly could lie about how much it had
    // executed, which is the one thing the fuel meter exists to prevent.
    assert_eq!(
        check(
            r#"(module
                 (import "cairn" "charge" (func (param i32)))
                 (memory (export "memory") 1 1)
                 (func (export "cairn_run")))"#,
        )
        .unwrap_err(),
        Rejection::ReservedImport {
            name: "charge".to_owned()
        }
    );
}

#[test]
fn rejects_exporting_the_fuel_counter() {
    // The other half of the same rule. A workload that owned this name could publish a
    // number of its own choosing as the count of its own execution — and under the global
    // metering encoding it could write to it as well.
    //
    // Both kinds are refused, because the name is what identifies the counter to whoever
    // ran the module; a function called `cairn_fuel` would be just as misleading.
    assert_eq!(
        check(
            r#"(module
                 (memory (export "memory") 1 1)
                 (global $g (mut i64) (i64.const 0))
                 (export "cairn_fuel" (global $g))
                 (func (export "cairn_run")))"#,
        )
        .unwrap_err(),
        Rejection::ReservedExport {
            name: "cairn_fuel".to_owned()
        }
    );

    assert_eq!(
        check(
            r#"(module
                 (memory (export "memory") 1 1)
                 (func $f (result i64) (i64.const 0))
                 (export "cairn_fuel" (func $f))
                 (func (export "cairn_run")))"#,
        )
        .unwrap_err(),
        Rejection::ReservedExport {
            name: "cairn_fuel".to_owned()
        }
    );
}

#[test]
fn rejects_unknown_host_functions() {
    assert_eq!(
        check(
            r#"(module
                 (import "cairn" "random" (func (result i32)))
                 (memory (export "memory") 1 1)
                 (func (export "cairn_run")))"#,
        )
        .unwrap_err(),
        Rejection::UnknownHostFunction {
            name: "random".to_owned()
        }
    );
}

#[test]
fn rejects_a_host_function_with_the_wrong_signature() {
    let err = check(
        r#"(module
             (import "cairn" "input" (func (param i32) (result i64)))
             (memory (export "memory") 1 1)
             (func (export "cairn_run")))"#,
    )
    .unwrap_err();
    match err {
        Rejection::HostSignatureMismatch { name, declared } => {
            assert_eq!(name, "input");
            assert_eq!(declared, "(i32) -> (i64)");
        }
        other => panic!("expected a signature mismatch, got {other:?}"),
    }
}

#[test]
fn rejects_a_missing_entry_point() {
    assert_eq!(
        check(
            r#"(module
                 (memory (export "memory") 1 1)
                 (func (export "not_the_entry_point")))"#,
        )
        .unwrap_err(),
        Rejection::MissingExport {
            name: ENTRY_POINT.to_owned()
        }
    );
}

#[test]
fn rejects_an_unexported_memory() {
    // The host reads results out of linear memory, so it must be reachable.
    assert_eq!(
        check(
            r#"(module
                 (memory 1 1)
                 (func (export "cairn_run")))"#,
        )
        .unwrap_err(),
        Rejection::MissingExport {
            name: MEMORY_EXPORT.to_owned()
        }
    );
}

#[test]
fn rejects_an_entry_point_that_is_not_a_function() {
    // Exporting a global under the entry point's name must not satisfy the requirement.
    assert_eq!(
        check(
            r#"(module
                 (memory (export "memory") 1 1)
                 (global (export "cairn_run") i32 (i32.const 0)))"#,
        )
        .unwrap_err(),
        Rejection::MissingExport {
            name: ENTRY_POINT.to_owned()
        }
    );
}

#[test]
fn rejects_an_oversized_module() {
    let bytes = wasm(VALID);
    let limits = Limits {
        max_module_bytes: bytes.len() - 1,
        ..Limits::default()
    };
    assert_eq!(
        validate_submitted(&bytes, limits).unwrap_err(),
        Rejection::TooLarge {
            bytes: bytes.len(),
            limit: bytes.len() - 1,
        }
    );
}

#[test]
fn rejects_a_non_module() {
    assert!(matches!(
        validate_submitted(b"not wasm at all", Limits::default()).unwrap_err(),
        Rejection::Invalid { .. }
    ));
}

#[test]
fn every_rejection_renders_a_message() {
    // Workload authors read these. An empty or panicking Display would be worse than a
    // vague one.
    let samples = [
        Rejection::TooLarge { bytes: 1, limit: 0 },
        Rejection::Invalid {
            detail: "detail".to_owned(),
        },
        Rejection::NoMemory,
        Rejection::MultipleMemories,
        Rejection::SharedMemory,
        Rejection::Memory64,
        Rejection::CustomPageSize,
        Rejection::UnboundedMemory,
        Rejection::MemoryTooLarge { pages: 1, limit: 0 },
        Rejection::ImportedMemory,
        Rejection::StartSection,
        Rejection::ForeignImport {
            module: "m".to_owned(),
            name: "n".to_owned(),
        },
        Rejection::ReservedImport {
            name: "charge".to_owned(),
        },
        Rejection::UnknownHostFunction {
            name: "n".to_owned(),
        },
        Rejection::HostSignatureMismatch {
            name: "input".to_owned(),
            declared: "() -> ()".to_owned(),
        },
        Rejection::NonFunctionHostImport {
            name: "n".to_owned(),
        },
        Rejection::MissingExport {
            name: "e".to_owned(),
        },
    ];
    for sample in samples {
        assert!(
            !sample.to_string().is_empty(),
            "empty message for {sample:?}"
        );
    }
}
