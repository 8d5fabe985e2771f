//! Instrumentation.
use cairn_runtime::canon::{Canonicalization, Config, Error, instrument};
use cairn_runtime::validate::{Limits, validate_submitted};
use wasmparser::{Operator, Payload, WasmFeatures};

fn wasm(text: &str) -> Vec<u8> {
    wat::parse_str(text).expect("test module should assemble")
}

fn canon(text: &str) -> Vec<u8> {
    instrument(&wasm(text), Config::default()).expect("instrumentation should succeed")
}

/// What a submitted module may use.
fn admitted() -> WasmFeatures {
    WasmFeatures::MUTABLE_GLOBAL
        | WasmFeatures::SIGN_EXTENSION
        | WasmFeatures::SATURATING_FLOAT_TO_INT
        | WasmFeatures::MULTI_VALUE
        | WasmFeatures::BULK_MEMORY
        | WasmFeatures::FLOATS
        | WasmFeatures::REFERENCE_TYPES
}

/// Validate an instrumented module. The admitted feature set is unchanged by
/// instrumentation — the pass must not smuggle in anything a submission may not use.
fn assert_valid(module: &[u8]) {
    wasmparser::Validator::new_with_features(admitted())
        .validate_all(module)
        .expect("instrumented module must still validate");
}

/// Operator names of the nth function body, for asserting on injection sites.
fn operators(module: &[u8], body_index: usize) -> Vec<String> {
    let mut bodies = Vec::new();
    for payload in wasmparser::Parser::new(0).parse_all(module) {
        if let Payload::CodeSectionEntry(body) = payload.unwrap() {
            let ops: Vec<String> = body
                .get_operators_reader()
                .unwrap()
                .into_iter()
                .map(|op| {
                    let text = format!("{:?}", op.unwrap());
                    text.split([' ', '('])
                        .next()
                        .unwrap_or_default()
                        .trim_end_matches('{')
                        .trim()
                        .to_owned()
                })
                .collect();
            bodies.push(ops);
        }
    }
    bodies.into_iter().nth(body_index).expect("body exists")
}

/// Imports of a module, as `module::name` strings in index order.
fn imports(module: &[u8]) -> Vec<String> {
    let mut out = Vec::new();
    for payload in wasmparser::Parser::new(0).parse_all(module) {
        if let Payload::ImportSection(reader) = payload.unwrap() {
            for import in reader.into_imports() {
                let import = import.unwrap();
                out.push(format!("{}::{}", import.module, import.name));
            }
        }
    }
    out
}

const WITH_IMPORTS: &str = r#"
    (module
      (import "cairn" "input"  (func $input  (param i32 i32) (result i32)))
      (import "cairn" "output" (func $output (param i32 i32)))
      (memory (export "memory") 1 4)
      (func $helper (result i32) (i32.const 7))
      (func (export "cairn_run")
        (drop (call $helper))
        (drop (call $input (i32.const 0) (i32.const 0)))
        (call $output (i32.const 0) (i32.const 0)))
    )
"#;

#[test]
fn output_validates_for_a_range_of_shapes() {
    let cases = [
        WITH_IMPORTS,
        // No imports at all — the pass must create an import section.
        r#"(module (memory (export "memory") 1 1) (func (export "cairn_run")))"#,
        // Loops, branches and nested blocks.
        r#"(module
             (memory (export "memory") 1 1)
             (func (export "cairn_run") (local $i i32)
               (block $out
                 (loop $again
                   (br_if $out (i32.ge_u (local.get $i) (i32.const 10)))
                   (local.set $i (i32.add (local.get $i) (i32.const 1)))
                   (br $again)))))"#,
        // if/else with a result, and floating point throughout.
        r#"(module
             (memory (export "memory") 1 1)
             (func (export "cairn_run") (param $x f64) (result f64)
               (if (result f64) (f64.lt (local.get $x) (f64.const 0))
                 (then (f64.sqrt (f64.neg (local.get $x))))
                 (else (f64.div (f64.const 1) (local.get $x))))))"#,
        // Indirect calls through a table.
        r#"(module
             (memory (export "memory") 1 1)
             (type $sig (func (result i32)))
             (table 2 2 funcref)
             (func $a (type $sig) (i32.const 1))
             (func $b (type $sig) (i32.const 2))
             (elem (i32.const 0) $a $b)
             (func (export "cairn_run")
               (drop (call_indirect (type $sig) (i32.const 1)))))"#,
        // Unreachable code after a branch.
        r#"(module
             (memory (export "memory") 1 1)
             (func (export "cairn_run") (result i32)
               (return (i32.const 1))
               (unreachable)))"#,
    ];

    for (i, case) in cases.iter().enumerate() {
        let out = instrument(&wasm(case), Config::default())
            .unwrap_or_else(|e| panic!("case {i} failed to instrument: {e:?}"));
        assert_valid(&out);
    }
}

#[test]
fn appends_the_charge_import_last() {
    assert_eq!(
        imports(&canon(WITH_IMPORTS)),
        vec!["cairn::input", "cairn::output", "cairn::charge"]
    );
}

#[test]
fn creates_an_import_section_when_there_was_none() {
    let out = canon(r#"(module (memory (export "memory") 1 1) (func (export "cairn_run")))"#);
    assert_eq!(imports(&out), vec!["cairn::charge"]);
    assert_valid(&out);
}

#[test]
fn defined_function_indices_shift_but_imported_ones_do_not() {
    let out = canon(WITH_IMPORTS);
    let mut calls = Vec::new();
    for payload in wasmparser::Parser::new(0).parse_all(&out) {
        if let Payload::CodeSectionEntry(body) = payload.unwrap() {
            for op in body.get_operators_reader().unwrap() {
                if let Operator::Call { function_index } = op.unwrap() {
                    calls.push(function_index);
                }
            }
        }
    }
    // charge (2) appears in both bodies; the workload's own calls are 3, 0, 1.
    assert!(
        calls.contains(&3),
        "call to $helper must shift 2 -> 3: {calls:?}"
    );
    assert!(
        calls.contains(&0),
        "call to imported input must stay 0: {calls:?}"
    );
    assert!(
        calls.contains(&1),
        "call to imported output must stay 1: {calls:?}"
    );
    assert!(calls.contains(&2), "charge must be called: {calls:?}");
}

#[test]
fn charges_inside_the_loop_body_not_only_before_it() {
    // If the charge sat before `loop`, an iterating loop would be free after the first
    // pass and an infinite loop would never exhaust its fuel.
    let ops = operators(
        &canon(
            r#"(module
                 (memory (export "memory") 1 1)
                 (func (export "cairn_run") (local $i i32)
                   (loop $again
                     (local.set $i (i32.add (local.get $i) (i32.const 1)))
                     (br_if $again (i32.lt_u (local.get $i) (i32.const 10))))))"#,
        ),
        0,
    );

    let loop_at = ops.iter().position(|o| o == "Loop").expect("loop present");
    let after_loop = ops.get(loop_at + 1..).unwrap_or_default();
    assert_eq!(
        after_loop.first().map(String::as_str),
        Some("I32Const"),
        "a charge must be the first thing inside the loop body: {ops:?}"
    );
    assert_eq!(after_loop.get(1).map(String::as_str), Some("Call"));
}

#[test]
fn canonicalizes_after_arithmetic_but_not_after_sign_operations() {
    // f64.abs and f64.neg are pure sign-bit manipulation and fully specified, so
    // canonicalizing after them would be wasted instructions on every workload.
    let arith = operators(
        &canon(
            r#"(module (memory (export "memory") 1 1)
                 (func (export "cairn_run") (result f64)
                   (f64.mul (f64.const 1) (f64.const 2))))"#,
        ),
        0,
    );
    let mul_at = arith.iter().position(|o| o == "F64Mul").unwrap();
    assert_eq!(
        arith.get(mul_at + 1).map(String::as_str),
        Some("LocalTee"),
        "arithmetic must be followed by canonicalization: {arith:?}"
    );

    let sign = operators(
        &canon(
            r#"(module (memory (export "memory") 1 1)
                 (func (export "cairn_run") (result f64)
                   (f64.abs (f64.const -1))))"#,
        ),
        0,
    );
    let abs_at = sign.iter().position(|o| o == "F64Abs").unwrap();
    assert_ne!(
        sign.get(abs_at + 1).map(String::as_str),
        Some("LocalTee"),
        "f64.abs is bit-exact and must not be canonicalized: {sign:?}"
    );
}

#[test]
fn canonicalization_covers_both_widths() {
    let ops = operators(
        &canon(
            r#"(module (memory (export "memory") 1 1)
                 (func (export "cairn_run") (result f32)
                   (f32.demote_f64 (f64.sqrt (f64.const 2)))))"#,
        ),
        0,
    );
    assert!(ops.contains(&"F64Ne".to_owned()), "f64 path: {ops:?}");
    assert!(ops.contains(&"F32Ne".to_owned()), "f32 path: {ops:?}");
}

#[test]
fn drops_custom_sections() {
    let source = r#"(module
         (@custom "producers" "clang-19")
         (@custom "a-compiler-fingerprint" "build 12345")
         (memory (export "memory") 1 1)
         (func (export "cairn_run")))"#;
    let original = wat::parse_str(source).unwrap();

    let count = |m: &[u8]| {
        wasmparser::Parser::new(0)
            .parse_all(m)
            .filter(|p| matches!(p, Ok(Payload::CustomSection(_))))
            .count()
    };

    // Guard against a vacuous assertion: if the input carried none, dropping them would
    // prove nothing.
    assert_eq!(count(&original), 2, "test input must carry custom sections");

    let out = instrument(&original, Config::default()).unwrap();
    assert_eq!(
        count(&out),
        0,
        "instrumented module must carry no custom sections"
    );
    assert_valid(&out);
}

#[test]
fn compiler_fingerprints_do_not_change_the_canonical_binary() {
    // The reason for dropping them: two builds of the same workload differing only in
    // producer metadata must instrument to identical bytes, because that hash is part of
    // a work unit's identity.
    let body = r#"(memory (export "memory") 1 1) (func (export "cairn_run"))"#;
    let a = wat::parse_str(format!(
        r#"(module (@custom "producers" "clang-19") {body})"#
    ))
    .unwrap();
    let b = wat::parse_str(format!(
        r#"(module (@custom "producers" "clang-20") {body})"#
    ))
    .unwrap();

    assert_ne!(a, b, "inputs must actually differ");
    assert_eq!(
        instrument(&a, Config::default()).unwrap(),
        instrument(&b, Config::default()).unwrap()
    );
}

#[test]
fn config_flags_switch_their_passes_off() {
    let bare = instrument(
        &wasm(WITH_IMPORTS),
        Config {
            meter_fuel: false,
            canonicalize: Canonicalization::Never,
        },
    )
    .unwrap();
    assert_valid(&bare);

    // The charge import is still appended — index remapping depends on it — but nothing
    // calls it.
    assert_eq!(imports(&bare).len(), 3);
    let ops = operators(&bare, 1);
    assert!(!ops.contains(&"LocalTee".to_owned()), "{ops:?}");

    let metered = instrument(
        &wasm(WITH_IMPORTS),
        Config {
            meter_fuel: true,
            canonicalize: Canonicalization::Never,
        },
    )
    .unwrap();
    assert!(metered.len() > bare.len(), "metering must add instructions");
}

#[test]
fn instrumentation_is_deterministic() {
    // The canonical binary's hash is part of a work unit's identity. Two runs of the pass
    // over the same input must be byte-identical, or two coordinators would disagree
    // about what they had dispatched.
    let source = wasm(WITH_IMPORTS);
    let a = instrument(&source, Config::default()).unwrap();
    let b = instrument(&source, Config::default()).unwrap();
    assert_eq!(a, b);
}

#[test]
fn a_workload_cannot_be_left_unmetered() {
    // Every function body must begin with a charge, including helpers that the entry
    // point calls. An unmetered function would be free compute.
    let out = canon(WITH_IMPORTS);
    for body in 0..2 {
        let ops = operators(&out, body);
        assert_eq!(
            ops.first().map(String::as_str),
            Some("I32Const"),
            "body {body} must open with a charge: {ops:?}"
        );
        assert_eq!(ops.get(1).map(String::as_str), Some("Call"));
    }
}

#[test]
fn rejects_a_module_it_cannot_parse() {
    assert!(matches!(
        instrument(b"not wasm", Config::default()).unwrap_err(),
        Error::Parse { .. }
    ));
}

#[test]
fn canon_every_error_renders_a_message() {
    let samples = [
        Error::Parse {
            detail: "d".to_owned(),
        },
        Error::NoTypeSection,
        Error::BodyWithoutSignature { index: 0 },
        Error::NotAFunctionType { type_index: 0 },
        Error::LocalIndexOverflow,
    ];
    for sample in samples {
        assert!(
            !sample.to_string().is_empty(),
            "empty message for {sample:?}"
        );
    }
}

#[test]
fn a_section_of_unknown_kind_is_copied() {
    let mut module = wasm(r#"(module (memory (export "memory") 1 1) (func (export "cairn_run")))"#);
    module.extend([42u8, 3, 7, 8, 9]);
    let out = instrument(&module, Config::default()).unwrap();
    let found: Vec<(u8, Vec<u8>)> = wasmparser::Parser::new(0)
        .parse_all(&out)
        .filter_map(|payload| match payload.unwrap() {
            Payload::UnknownSection { id, contents, .. } => Some((id, contents.to_vec())),
            _ => None,
        })
        .collect();
    assert_eq!(found, vec![(42, vec![7, 8, 9])]);
    assert!(out.ends_with(&[42, 3, 7, 8, 9]));
}

/// The functions that an initializer refers to.
fn references(init: wasmparser::ConstExpr) -> Vec<u32> {
    init.get_operators_reader()
        .into_iter()
        .filter_map(|op| match op.unwrap() {
            Operator::RefFunc { function_index } => Some(function_index),
            _ => None,
        })
        .collect()
}

#[test]
fn references_in_initializers_are_remapped() {
    let out = canon(
        r#"(module
             (import "cairn" "output" (func $output (param i32 i32)))
             (memory (export "memory") 1 1)
             (table 1 1 funcref (ref.func $second))
             (global funcref (ref.func $first))
             (global i32 (i32.const 300))
             (global funcref (ref.func $output))
             (func $first)
             (func $second (export "cairn_run")))"#,
    );
    let mut seen = Vec::new();
    for payload in wasmparser::Parser::new(0).parse_all(&out) {
        match payload.unwrap() {
            Payload::TableSection(reader) => {
                for table in reader {
                    if let wasmparser::TableInit::Expr(init) = table.unwrap().init {
                        seen.push(references(init));
                    }
                }
            }
            Payload::GlobalSection(reader) => {
                for global in reader {
                    seen.push(references(global.unwrap().init_expr));
                }
            }
            _ => {}
        }
    }
    // `charge` is appended to the one import, so that the defined functions are 2 and 3.
    assert_eq!(seen, vec![vec![3], vec![2], vec![], vec![0]]);
}

#[test]
fn a_reference_in_the_offset_of_data_is_remapped() {
    // No offset of a valid module refers to a function, but instrumentation comes before
    // validation and treats every initializer alike.
    let mut module = wasm(r#"(module (memory (export "memory") 1 1) (func (export "cairn_run")))"#);
    module.extend([11u8, 7, 1, 0, 0xd2, 0, 0x0b, 1, 0x55]);
    let out = instrument(&module, Config::default()).unwrap();
    assert!(out.ends_with(&[11, 7, 1, 0, 0xd2, 1, 0x0b, 1, 0x55]));
}

#[test]
fn what_is_copied_reads_back() {
    let out = canon(
        r#"(module
             (memory (export "memory") 1 4)
             (table (export "t") 2 3 funcref)
             (global (export "g") i64 (i64.const -5))
             (data (i32.const 8) "abc")
             (func (export "cairn_run")))"#,
    );
    let mut seen = Vec::new();
    for payload in wasmparser::Parser::new(0).parse_all(&out) {
        match payload.unwrap() {
            Payload::MemorySection(reader) => {
                for memory in reader {
                    let memory = memory.unwrap();
                    seen.push(format!("memory {} {:?}", memory.initial, memory.maximum));
                }
            }
            Payload::TableSection(reader) => {
                for table in reader {
                    let ty = table.unwrap().ty;
                    seen.push(format!("table {} {:?}", ty.initial, ty.maximum));
                }
            }
            Payload::ExportSection(reader) => {
                for export in reader {
                    let export = export.unwrap();
                    seen.push(format!("{} {:?} {}", export.name, export.kind, export.index));
                }
            }
            Payload::DataSection(reader) => {
                for data in reader {
                    seen.push(format!("{:?}", data.unwrap().data));
                }
            }
            _ => {}
        }
    }
    assert_eq!(
        seen,
        vec![
            "table 2 Some(3)",
            "memory 1 Some(4)",
            "memory Memory 0",
            "t Table 0",
            "g Global 0",
            "cairn_run Func 1",
            "[97, 98, 99]",
        ]
    );
}
