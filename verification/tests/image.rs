//! Decoding an instrumented module.
use cairn_runtime::canon::{self, Canonicalization, Config};
use cairn_runtime::engine::image::{
    Control, DataSegment, ElementSegment, GlobalSpec, HostFunction, ImageError,
    MAX_LOCALS_PER_FUNCTION, MemorySpec, TableSpec, decode,
};
use cairn_runtime::engine::operator::Operator;
use cairn_runtime::state::Value;
use cairn_runtime::validate::{ENTRY_POINT, HOST_CHARGE, HOST_MODULE};
use cairn_runtime::wasm::ValType;
use wasm_encoder as enc;

// Indices in these tests are positions in operator sequences the test itself writes out,
// so a panic on a bad index is the correct failure and reads better than `.get()`.

/// Assemble, then instrument, exactly as a coordinator would.
fn canonical(text: &str, config: Config) -> Vec<u8> {
    let source = wat::parse_str(text).expect("test module should assemble");
    canon::instrument(&source, config).expect("instrumentation should succeed")
}

/// Instrument with both passes off, so operator positions are predictable in tests that
/// assert on them.
fn bare(text: &str) -> Vec<u8> {
    canonical(
        text,
        Config {
            meter_fuel: false,
            canonicalize: Canonicalization::Never,
        },
    )
}

const SIMPLE: &str = r#"
    (module
      (import "cairn" "input"  (func $input  (param i32 i32) (result i32)))
      (import "cairn" "output" (func $output (param i32 i32)))
      (memory (export "memory") 2 16)
      (global $counter (mut i32) (i32.const 41))
      (data (i32.const 8) "hello")
      (func $helper (result i32) (global.get $counter))
      (func (export "cairn_run")
        (drop (call $helper))
        (call $output (i32.const 0) (i32.const 5)))
    )
"#;

#[test]
fn decodes_the_shape_of_a_module() {
    let module = bare(SIMPLE);
    let image = decode(&module).expect("instrumented module must decode");

    // Imports: input, output, charge — charge appended last by the pass.
    assert_eq!(
        image.host_imports,
        vec![
            HostFunction::Input,
            HostFunction::Output,
            HostFunction::Charge
        ]
    );
    assert_eq!(image.charge, 2);

    // Defined functions shift by one: $helper is 3, cairn_run is 4.
    assert_eq!(image.functions.len(), 2);
    assert_eq!(image.entry, 4);

    assert_eq!(
        image.memory,
        MemorySpec {
            initial_pages: 2,
            maximum_pages: 16
        }
    );
    assert_eq!(
        image.globals,
        vec![GlobalSpec {
            mutable: true,
            init: Value::I32(41)
        }]
    );
    assert_eq!(
        image.data,
        vec![DataSegment::Active {
            offset: 8,
            bytes: b"hello".to_vec()
        }]
    );
}

#[test]
fn accessors_agree_with_the_index_space() {
    let module = bare(SIMPLE);
    let image = decode(&module).unwrap();

    assert_eq!(image.host_function(0), Some(HostFunction::Input));
    assert_eq!(image.host_function(2), Some(HostFunction::Charge));
    assert!(image.function(0).is_none(), "index 0 is an import");

    assert!(image.function(3).is_some(), "index 3 is $helper");
    assert!(image.function(image.entry).is_some());
    assert!(image.host_function(image.entry).is_none());
    assert!(image.function(99).is_none());

    // charge is (i32) -> ()
    let sig = image
        .signature(image.charge)
        .expect("charge has a signature");
    assert_eq!(sig.params(), &[ValType::I32]);
    assert!(sig.results().is_empty());
}

#[test]
fn resolves_a_block_to_its_end() {
    // ops: Block, Br, End, End
    let module = bare(
        r#"(module (memory (export "memory") 1 1)
             (func (export "cairn_run") (block (br 0))))"#,
    );
    let image = decode(&module).unwrap();
    let f = image.function(image.entry).unwrap();

    assert!(matches!(f.ops.first(), Some(Operator::Block { .. })));
    assert_eq!(
        f.control[0],
        Some(Control {
            end: 2,
            otherwise: None
        })
    );
    // The function's own trailing `end` closes no explicit block.
    assert_eq!(f.control[3], None);
}

#[test]
fn resolves_an_if_to_both_its_else_and_its_end() {
    // ops: I32Const, If, I32Const, Else, I32Const, End, End
    let module = bare(
        r#"(module (memory (export "memory") 1 1)
             (func (export "cairn_run") (result i32)
               (if (result i32) (i32.const 1)
                 (then (i32.const 2))
                 (else (i32.const 3)))))"#,
    );
    let image = decode(&module).unwrap();
    let f = image.function(image.entry).unwrap();

    assert!(matches!(f.ops.get(1), Some(Operator::If { .. })));
    assert_eq!(
        f.control[1],
        Some(Control {
            end: 5,
            otherwise: Some(3)
        })
    );
}

#[test]
fn resolves_nested_control_independently() {
    // A loop inside a block: each must point at its own end, not the outer one.
    let module = bare(
        r#"(module (memory (export "memory") 1 1)
             (func (export "cairn_run")
               (block
                 (loop
                   (br 1)))))"#,
    );
    let image = decode(&module).unwrap();
    let f = image.function(image.entry).unwrap();

    // ops: Block, Loop, Br, End(loop), End(block), End(function)
    let block = f.control[0].expect("block annotated");
    let loop_ = f.control[1].expect("loop annotated");
    assert_eq!(loop_.end, 3);
    assert_eq!(block.end, 4);
    assert!(
        block.end > loop_.end,
        "outer block must close after inner loop"
    );
}

#[test]
fn an_if_without_an_else_has_no_otherwise() {
    let module = bare(
        r#"(module (memory (export "memory") 1 1)
             (func (export "cairn_run")
               (if (i32.const 1) (then (nop)))))"#,
    );
    let image = decode(&module).unwrap();
    let f = image.function(image.entry).unwrap();
    let if_ = f.control[1].expect("if annotated");
    assert_eq!(if_.otherwise, None);
}

#[test]
fn control_resolution_covers_instructions_the_pass_injected() {
    // NaN canonicalization emits its own `if (result fN) ... else ... end` after every
    // arithmetic operation, so an instrumented module contains structured control the
    // workload author never wrote. The interpreter has to execute those too, which means
    // they must be annotated exactly like the workload's own.
    //
    // The function below has two float operations, so instrumentation adds two `if`s on
    // top of the block, loop and if it declares.
    let source = r#"(module (memory (export "memory") 1 4)
             (func (export "cairn_run") (param $n i32) (result f64) (local $acc f64)
               (block $done
                 (loop $again
                   (br_if $done (i32.eqz (local.get $n)))
                   (if (i32.eq (i32.rem_u (local.get $n) (i32.const 2)) (i32.const 0))
                     (then (local.set $acc (f64.add (local.get $acc) (f64.const 1))))
                     (else (local.set $acc (f64.sub (local.get $acc) (f64.const 0.5)))))
                   (local.set $n (i32.sub (local.get $n) (i32.const 1)))
                   (br $again)))
               (local.get $acc)))"#;

    // The images borrow their module bytes, so both buffers must outlive them.
    let plain = bare(source);
    let full = canonical(source, Config::default());

    let count_control = |module: &[u8]| {
        let image = decode(module).unwrap();
        image
            .function(image.entry)
            .unwrap()
            .control
            .iter()
            .flatten()
            .count()
    };

    let authored = count_control(&plain);
    assert_eq!(authored, 3, "block, loop and if as written");

    let total = count_control(&full);
    assert_eq!(
        total,
        authored + 2,
        "one extra `if` per canonicalized float operation"
    );
}

#[test]
fn every_structured_instruction_gets_an_end() {
    // No annotation may be left at the u32::MAX sentinel, which would mean an opener was
    // never closed and a branch to it would jump into nothing.
    let module = canonical(
        r#"(module (memory (export "memory") 1 4)
             (func (export "cairn_run") (param $n i32) (result f64) (local $acc f64)
               (block $done
                 (loop $again
                   (br_if $done (i32.eqz (local.get $n)))
                   (if (i32.eq (i32.rem_u (local.get $n) (i32.const 2)) (i32.const 0))
                     (then (local.set $acc (f64.add (local.get $acc) (f64.const 1))))
                     (else (local.set $acc (f64.sub (local.get $acc) (f64.const 0.5)))))
                   (local.set $n (i32.sub (local.get $n) (i32.const 1)))
                   (br $again)))
               (local.get $acc)))"#,
        Config::default(),
    );
    let image = decode(&module).unwrap();
    let f = image.function(image.entry).unwrap();

    let annotated: Vec<&Control> = f.control.iter().flatten().collect();
    assert!(!annotated.is_empty(), "the function has structured control");
    for c in annotated {
        assert_ne!(c.end, u32::MAX, "an opener was never closed: {c:?}");
    }
}

#[test]
fn locals_are_expanded_one_entry_each() {
    let module = bare(
        r#"(module (memory (export "memory") 1 1)
             (func (export "cairn_run") (param i32)
               (local i64 i64 i64) (local f32)
               (nop)))"#,
    );
    let image = decode(&module).unwrap();
    let f = image.function(image.entry).unwrap();

    // Parameters are excluded; the interpreter concatenates them at call time.
    assert_eq!(
        f.local_types,
        vec![ValType::I64, ValType::I64, ValType::I64, ValType::F32]
    );
}

#[test]
fn canonicalization_allocates_scratch_locals_only_where_they_are_used() {
    let scratch_of = |body: &str| {
        let module = canonical(
            &format!(
                r#"(module (memory (export "memory") 1 1)
                     (func (export "cairn_run") {body}))"#
            ),
            Config::default(),
        );
        let image = decode(&module).unwrap();
        image.function(image.entry).unwrap().local_types.clone()
    };

    assert_eq!(
        scratch_of("(result f64) (f64.sqrt (f64.const 2))"),
        vec![ValType::F64],
        "an f64-only function needs one f64 slot"
    );
    assert_eq!(
        scratch_of("(result f32) (f32.sqrt (f32.const 2))"),
        vec![ValType::F32],
        "an f32-only function needs one f32 slot"
    );
    assert_eq!(
        scratch_of("(result f64) (f64.add (f64.promote_f32 (f32.mul (f32.const 1) (f32.const 2))) (f64.const 1))"),
        vec![ValType::F32, ValType::F64],
        "a function using both widths needs both"
    );
    assert_eq!(
        scratch_of("(result i32) (i32.add (i32.const 1) (i32.const 2))"),
        Vec::<ValType>::new(),
        "an integer-only function gets no scratch at all"
    );
    assert_eq!(
        scratch_of("(result f64) (f64.abs (f64.const -2))"),
        Vec::<ValType>::new(),
        "abs is bit-exact, so it is not canonicalized and needs no scratch"
    );
}

#[test]
fn rejects_a_module_that_was_never_instrumented() {
    // Decoding a raw submission would silently produce an unmetered execution.
    let raw = wat::parse_str(
        r#"(module (memory (export "memory") 1 1) (func (export "cairn_run")))"#,
    )
    .unwrap();
    assert_eq!(decode(&raw).unwrap_err(), ImageError::NotInstrumented);
}

#[test]
fn image_rejects_a_module_with_no_memory() {
    // Built by hand: validate would refuse this, but decode must not assume it ran.
    let module = wat::parse_str(
        r#"(module (import "cairn" "charge" (func (param i32)))
             (func (export "cairn_run")))"#,
    )
    .unwrap();
    assert_eq!(decode(&module).unwrap_err(), ImageError::BadMemory);
}

#[test]
fn rejects_a_module_with_no_entry_point() {
    let module = wat::parse_str(
        r#"(module (import "cairn" "charge" (func (param i32)))
             (memory (export "memory") 1 1)
             (func (export "something_else")))"#,
    )
    .unwrap();
    assert_eq!(decode(&module).unwrap_err(), ImageError::NoEntryPoint);
}

#[test]
fn rejects_a_foreign_import() {
    let module = wat::parse_str(
        r#"(module
             (import "cairn" "charge" (func (param i32)))
             (import "env" "gettimeofday" (func (result i64)))
             (memory (export "memory") 1 1)
             (func (export "cairn_run")))"#,
    )
    .unwrap();
    assert_eq!(
        decode(&module).unwrap_err(),
        ImageError::UnsupportedImport {
            module: "env".to_owned(),
            name: "gettimeofday".to_owned()
        }
    );
}

/// Build a minimal instrumented module whose entry point declares `locals` locals.
///
/// Written with `wasm-encoder` rather than as text because the point is the *run-length
/// encoding*: a declaration of a hundred thousand locals is a handful of bytes on the
/// wire, and writing them out in WebAssembly text would not exercise that.
fn module_with_local_count(locals: u32) -> Vec<u8> {
    let mut types = enc::TypeSection::new();
    types.ty().function([enc::ValType::I32], []); // charge
    types.ty().function([], []); // cairn_run

    let mut imports = enc::ImportSection::new();
    imports.import(HOST_MODULE, HOST_CHARGE, enc::EntityType::Function(0));

    let mut funcs = enc::FunctionSection::new();
    funcs.function(1);

    let mut memories = enc::MemorySection::new();
    memories.memory(enc::MemoryType {
        minimum: 1,
        maximum: Some(1),
        memory64: false,
        shared: false,
        page_size_log2: None,
    });

    let mut exports = enc::ExportSection::new();
    exports.export(ENTRY_POINT, enc::ExportKind::Func, 1);
    exports.export("memory", enc::ExportKind::Memory, 0);

    let mut code = enc::CodeSection::new();
    let mut body = enc::Function::new([(locals, enc::ValType::I64)]);
    body.instruction(&enc::Instruction::End);
    code.function(&body);

    let mut module = enc::Module::new();
    module.section(&types);
    module.section(&imports);
    module.section(&funcs);
    module.section(&memories);
    module.section(&exports);
    module.section(&code);
    module.finish()
}

#[test]
fn rejects_an_absurd_local_declaration() {
    // Locals are run-length encoded, so a few bytes can ask for billions of them. The
    // interpreter indexes locals directly and therefore expands the declaration, so
    // decoding has to bound it — otherwise a malicious workload exhausts memory before it
    // executes a single instruction.
    let ok = module_with_local_count(MAX_LOCALS_PER_FUNCTION);
    let image = decode(&ok).expect("the limit itself must be accepted");
    assert_eq!(
        image.function(image.entry).unwrap().local_types.len(),
        MAX_LOCALS_PER_FUNCTION as usize
    );

    let too_many = module_with_local_count(MAX_LOCALS_PER_FUNCTION + 1);
    assert_eq!(
        decode(&too_many).unwrap_err(),
        ImageError::TooManyLocals {
            function: 0,
            declared: u64::from(MAX_LOCALS_PER_FUNCTION) + 1,
        }
    );
}

#[test]
fn keeps_element_segments_for_indirect_calls() {
    let module = bare(
        r#"(module
             (memory (export "memory") 1 1)
             (type $sig (func (result i32)))
             (table 2 4 funcref)
             (func $a (type $sig) (i32.const 1))
             (func $b (type $sig) (i32.const 2))
             (elem (i32.const 0) $a $b)
             (func (export "cairn_run")
               (drop (call_indirect (type $sig) (i32.const 0)))))"#,
    );
    let image = decode(&module).unwrap();

    assert_eq!(
        image.table,
        Some(TableSpec {
            initial: 2,
            maximum: Some(4)
        })
    );
    // Element function indices are remapped by the pass along with everything else:
    // $a and $b were 0 and 1, and become 1 and 2 behind the charge import.
    assert_eq!(
        image.elements,
        vec![ElementSegment::Active {
            offset: 0,
            functions: vec![1, 2]
        }]
    );
}

#[test]
fn image_every_error_renders_a_message() {
    let samples = [
        ImageError::Parse {
            detail: "d".to_owned(),
        },
        ImageError::UnsupportedImport {
            module: "m".to_owned(),
            name: "n".to_owned(),
        },
        ImageError::BadMemory,
        ImageError::NoEntryPoint,
        ImageError::NotInstrumented,
        ImageError::UnsupportedInitializer,
        ImageError::TooManyLocals {
            function: 0,
            declared: 1,
        },
        ImageError::UnbalancedControl { function: 0 },
        ImageError::BodyWithoutSignature { index: 0 },
    ];
    for sample in samples {
        assert!(
            !sample.to_string().is_empty(),
            "empty message for {sample:?}"
        );
    }
}
