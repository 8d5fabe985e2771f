//! What comes of reading and writing binaries.
use cairn_runtime::canon::{Config, instrument};
use cairn_runtime::engine::image;
use cairn_runtime::engine::operator::{BlockType, Operator};
use cairn_runtime::module::{self, Mode, Part};
use cairn_runtime::validate::{Limits, declared_memory_pages, validate_submitted};
use cairn_runtime::wasm::{
    ExternalKind, ImportType, MemoryType, PartKind, Span, TableType, ValType,
    read_operators,
};
use wasmparser::{Parser, Payload};

fn assembled(text: &str) -> Vec<u8> {
    wat::parse_str(text).expect("it assembles")
}

/// The instructions that a body holds, which the fixture's only function has.
fn body_of(text: &str) -> Vec<Operator> {
    let found = module::read(&assembled(&format!("(module (memory 1) (table 1 funcref) {text})")));
    assert_eq!(found.error, None);
    for part in found.parts {
        if let Part::Code(body) = part {
            return body.code.expect("its code begins").ops;
        }
    }
    panic!("there is no body");
}

#[test]
fn every_plain_numeric_instruction_is_read_under_its_name() {
    // Comparisons, arithmetic, conversions and the sign extensions are single bytes.
    for code in 0x45u8..=0xc4 {
        let bytes = [code];
        let listing = read_operators(&bytes, 0);
        assert!(listing.complete);
        let theirs = wasmparser::OperatorsReader::new(wasmparser::BinaryReader::new(&bytes, 0))
            .read()
            .unwrap();
        assert_eq!(format!("{:?}", listing.ops[0]), format!("{theirs:?}"), "{code:#x}");
    }
    for code in 0u8..=7 {
        let bytes = [0xfc, code];
        let listing = read_operators(&bytes, 0);
        let theirs = wasmparser::OperatorsReader::new(wasmparser::BinaryReader::new(&bytes, 0))
            .read()
            .unwrap();
        assert_eq!(format!("{:?}", listing.ops[0]), format!("{theirs:?}"), "{code:#x}");
    }
}

#[test]
fn instructions_carry_their_immediates() {
    assert_eq!(
        body_of("(func (i32.const -7) (i64.const 9) (f32.const 1) (f64.const 2) drop drop drop drop)"),
        vec![
            Operator::I32Const { value: -7 },
            Operator::I64Const { value: 9 },
            Operator::F32Const { value: 1.0f32.to_bits() },
            Operator::F64Const { value: 2.0f64.to_bits() },
            Operator::Drop,
            Operator::Drop,
            Operator::Drop,
            Operator::Drop,
            Operator::End,
        ]
    );
    assert_eq!(
        body_of("(func (param i32) (br_table 0 0 0 (local.get 0)))"),
        vec![
            Operator::LocalGet { local_index: 0 },
            Operator::BrTable { targets: vec![0, 0], default: 0 },
            Operator::End,
        ]
    );
    assert_eq!(
        body_of("(func (block (loop (br 1))) (if (i32.const 1) (then nop) (else unreachable)))"),
        vec![
            Operator::Block { blockty: BlockType::Empty },
            Operator::Loop { blockty: BlockType::Empty },
            Operator::Br { relative_depth: 1 },
            Operator::End,
            Operator::End,
            Operator::I32Const { value: 1 },
            Operator::If { blockty: BlockType::Empty },
            Operator::Nop,
            Operator::Else,
            Operator::Unreachable,
            Operator::End,
            Operator::End,
        ]
    );
}

#[test]
fn memory_instructions_carry_their_offsets() {
    let text = "(func
        (drop (i32.load offset=1 (i32.const 0))) (drop (i64.load offset=2 (i32.const 0)))
        (drop (f32.load offset=3 (i32.const 0))) (drop (f64.load offset=4 (i32.const 0)))
        (drop (i32.load8_s offset=5 (i32.const 0))) (drop (i64.load32_u offset=6 (i32.const 0)))
        (i32.store offset=7 (i32.const 0) (i32.const 0))
        (i64.store16 offset=8 (i32.const 0) (i64.const 0))
        (f64.store offset=9 (i32.const 0) (f64.const 0))
        (memory.fill (i32.const 0) (i32.const 0) (i32.const 0))
        (memory.copy (i32.const 0) (i32.const 0) (i32.const 0))
        (drop (memory.grow (memory.size))))";
    let found: Vec<Operator> = body_of(text)
        .into_iter()
        .filter(|op| {
            !matches!(
                op,
                Operator::I32Const { .. }
                    | Operator::I64Const { .. }
                    | Operator::F64Const { .. }
                    | Operator::Drop
            )
        })
        .collect();
    assert_eq!(
        found,
        vec![
            Operator::I32Load { offset: 1 },
            Operator::I64Load { offset: 2 },
            Operator::F32Load { offset: 3 },
            Operator::F64Load { offset: 4 },
            Operator::I32Load8S { offset: 5 },
            Operator::I64Load32U { offset: 6 },
            Operator::I32Store { offset: 7 },
            Operator::I64Store16 { offset: 8 },
            Operator::F64Store { offset: 9 },
            Operator::MemoryFill,
            Operator::MemoryCopy,
            Operator::MemorySize,
            Operator::MemoryGrow,
            Operator::End,
        ]
    );
}

#[test]
fn an_instruction_of_no_interest_is_rendered() {
    // `v128.const` has no case of its own.
    let mut bytes = vec![0xfd, 0x0c];
    bytes.extend([0u8; 16]);
    let listing = read_operators(&bytes, 0);
    match &listing.ops[0] {
        Operator::Other { text } => assert!(text.starts_with("V128Const"), "{text}"),
        op => panic!("{op:?}"),
    }
}

#[test]
fn an_incomplete_run_of_instructions_says_where_it_ends() {
    let listing = read_operators(&[0x01, 0x41], 0);
    assert_eq!(listing.ops, vec![Operator::Nop]);
    assert!(!listing.complete);
    assert!(listing.error.contains("unexpected end"), "{}", listing.error);
}

const EVERYTHING: &str = r#"
    (module
      (type $pair (func (param i32 f64) (result i64)))
      (import "cairn" "input" (func (param i32 i32) (result i32)))
      (import "other" "g" (global f32))
      (func $f (type $pair) (local i32 i32 f32) (i64.const 5))
      (table 3 9 funcref)
      (memory 2 5)
      (global (mut i64) (i64.const -1))
      (export "run" (func $f))
      (export "mem" (memory 0))
      (elem (i32.const 1) func $f $f)
      (elem declare funcref (ref.func $f))
      (data (i32.const 8) "abc")
      (data "passive"))
"#;

#[test]
fn a_module_is_read_part_by_part() {
    let found = module::read(&assembled(EVERYTHING));
    assert_eq!(found.error, None);
    let mut seen: Vec<&str> = Vec::new();
    for part in &found.parts {
        match part {
            Part::Types(types, error) => {
                seen.push("types");
                assert_eq!(*error, None);
                assert_eq!(
                    types[0],
                    Some((vec!["I32".to_owned(), "F64".to_owned()], vec!["I64".to_owned()]))
                );
            }
            Part::Imports(imports, error) => {
                seen.push("imports");
                assert_eq!(*error, None);
                assert_eq!(imports[0].module, "cairn");
                assert_eq!(imports[0].name, "input");
                assert_eq!(imports[0].ty, ImportType::Func(1));
                assert_eq!(imports[1].ty, ImportType::Global("F32".to_owned()));
            }
            Part::Functions(types, _) => {
                seen.push("functions");
                assert_eq!(*types, vec![0]);
            }
            Part::Tables(tables, _) => {
                seen.push("tables");
                let table = TableType { holds_functions: true, initial: 3, maximum: Some(9) };
                assert_eq!(*tables, vec![table]);
            }
            Part::Memories(memories, _) => {
                seen.push("memories");
                let memory = MemoryType {
                    memory64: false,
                    shared: false,
                    initial: 2,
                    maximum: Some(5),
                    page_size_log2: None,
                };
                assert_eq!(*memories, vec![memory]);
            }
            Part::Globals(globals, _) => {
                seen.push("globals");
                assert_eq!(globals[0].content, "I64");
                assert!(globals[0].mutable);
                assert_eq!(
                    globals[0].init.ops,
                    vec![Operator::I64Const { value: -1 }, Operator::End]
                );
            }
            Part::Exports(exports, _) => {
                seen.push("exports");
                assert_eq!(exports[0].name, "run");
                assert_eq!(exports[0].kind, ExternalKind::Func);
                assert_eq!(exports[0].index, 1);
                assert_eq!(exports[1].kind, ExternalKind::Memory);
            }
            Part::Elements(elements, _) => {
                seen.push("elements");
                match &elements[0].mode {
                    Mode::Active(offset) => assert_eq!(
                        offset.ops,
                        vec![Operator::I32Const { value: 1 }, Operator::End]
                    ),
                    mode => panic!("{mode:?}"),
                }
                assert_eq!(elements[0].functions, Some((vec![1, 1], None)));
                assert_eq!(elements[1].mode, Mode::Declared);
                assert_eq!(elements[1].functions, None);
            }
            Part::Code(body) => {
                seen.push("code");
                let runs = vec![(2, "I32".to_owned()), (1, "F32".to_owned())];
                assert_eq!(body.locals, (runs, None));
                let code = body.code.as_ref().unwrap();
                assert!(code.complete);
                assert_eq!(code.ops, vec![Operator::I64Const { value: 5 }, Operator::End]);
            }
            Part::Data(segments, _) => {
                seen.push("data");
                assert_eq!(segments[0].bytes, b"abc");
                assert_eq!(
                    segments[0].offset.as_ref().unwrap().ops[0],
                    Operator::I32Const { value: 8 }
                );
                assert_eq!(segments[1].bytes, b"passive");
                assert_eq!(segments[1].offset, None);
            }
            Part::Start(_) | Part::Other => {}
        }
    }
    assert_eq!(
        seen,
        vec![
            "types", "imports", "functions", "tables", "memories", "globals", "exports", "elements",
            "code", "data"
        ]
    );
}

#[test]
fn a_broken_module_is_read_as_far_as_it_goes() {
    let mut bytes = assembled("(module (type (func)) (memory 1 1))");
    bytes.push(0x0a);
    let found = module::read(&bytes);
    assert!(found.error.is_some());
    assert!(found.parts.iter().any(|p| matches!(p, Part::Memories(..))));
    let nothing = module::read(b"not a module");
    assert!(nothing.error.is_some());
    assert_eq!(nothing.parts, vec![]);
}

#[test]
fn one_part_can_be_read_alone() {
    // A memory section of one memory, one to four pages.
    let section = [0x01u8, 0x01, 0x01, 0x04];
    match module::read_part(&section, PartKind::Memories, Span { start: 0, end: 4 }) {
        Part::Memories(memories, None) => {
            assert_eq!((memories[0].initial, memories[0].maximum), (1, Some(4)));
        }
        part => panic!("{part:?}"),
    }
    assert_eq!(
        module::read_part(&section, PartKind::Start(7), Span { start: 0, end: 4 }),
        Part::Start(7)
    );
}

#[test]
fn value_types_go_by_their_rendering() {
    assert_eq!(ValType::named(&"I32".to_owned()), ValType::I32);
    assert_eq!(ValType::named(&"F64".to_owned()), ValType::F64);
    assert!(matches!(ValType::named(&"Ref(funcref)".to_owned()), ValType::Ref { .. }));
}

/// A section of a module by its number.
fn section(bytes: &[u8], id: u8) -> Option<Vec<u8>> {
    for payload in Parser::new(0).parse_all(bytes) {
        if let Some((found, range)) = payload.unwrap().as_section() {
            if found == id {
                return Some(bytes[range.start as usize..range.end as usize].to_vec());
            }
        }
    }
    None
}

const WORKLOAD: &str = r#"
    (module
      (import "cairn" "output" (func $output (param i32 i32)))
      (table 2 2 funcref)
      (memory (export "memory") 1 3)
      (global $g (mut f64) (f64.const 0))
      (func $helper (result i32) (i32.const 7))
      (func (export "cairn_run")
        (global.set $g (f64.div (f64.const 0) (f64.const 0)))
        (i32.store (i32.const 0) (call $helper))
        (call $output (i32.const 0) (i32.const 4)))
      (elem (i32.const 0) $helper)
      (data (i32.const 16) "xyz")
      (data "quiet"))
"#;

#[test]
fn sections_that_name_no_function_are_copied() {
    let source = assembled(WORKLOAD);
    let out = instrument(&source, Config::default()).unwrap();
    // Tables, memories, globals, the data count and the data.
    for id in [4u8, 5, 6, 11, 12] {
        assert_eq!(section(&out, id), section(&source, id), "section {id}");
    }
}

#[test]
fn tags_are_copied_too() {
    let source = assembled(
        r#"(module (type (func (param i32))) (tag (type 0))
             (memory (export "memory") 1 1) (func (export "cairn_run")))"#,
    );
    let out = instrument(&source, Config::default()).unwrap();
    assert!(section(&source, 13).is_some());
    assert_eq!(section(&out, 13), section(&source, 13));
}

#[test]
fn functions_are_renumbered_wherever_they_are_named() {
    let out = instrument(&assembled(WORKLOAD), Config::default()).unwrap();
    let mut calls = Vec::new();
    for part in module::read(&out).parts {
        match part {
            Part::Exports(exports, _) => {
                // The helper moves from 1 to 2 and the entry point from 2 to 3.
                assert_eq!((exports[0].kind, exports[0].index), (ExternalKind::Memory, 0));
                assert_eq!((exports[1].kind, exports[1].index), (ExternalKind::Func, 3));
            }
            Part::Elements(elements, _) => {
                assert_eq!(elements[0].functions, Some((vec![2], None)));
            }
            Part::Imports(imports, _) => {
                let last = imports.last().unwrap();
                assert_eq!((last.module.as_str(), last.name.as_str()), ("cairn", "charge"));
                assert_eq!(last.ty, ImportType::Func(3));
            }
            Part::Types(types, _) => {
                assert_eq!(types[3], Some((vec!["I32".to_owned()], vec![])));
            }
            Part::Code(body) => {
                for op in body.code.unwrap().ops {
                    if let Operator::Call { function_index } = op {
                        calls.push(function_index);
                    }
                }
            }
            _ => {}
        }
    }
    assert_eq!(calls, vec![1, 1, 2, 0]);
}

#[test]
fn element_segments_of_every_kind_survive() {
    let source = assembled(
        r#"(module
             (memory (export "memory") 1 1)
             (table $a 4 4 funcref)
             (func $f) (func (export "cairn_run"))
             (elem (i32.const 1) $f)
             (elem func $f)
             (elem declare func $f)
             (elem (i32.const 2) funcref (ref.func $f) (ref.null func))
             (elem funcref (ref.func $f)))"#,
    );
    let out = instrument(&source, Config::default()).unwrap();
    let mut found = 0;
    for part in module::read(&out).parts {
        if let Part::Elements(elements, error) = part {
            assert_eq!(error, None);
            found = elements.len();
            assert!(matches!(elements[0].mode, Mode::Active(_)));
            assert_eq!(elements[0].functions, Some((vec![1], None)));
            assert_eq!(elements[1].mode, Mode::Passive);
            assert_eq!(elements[1].functions, Some((vec![1], None)));
            assert_eq!(elements[2].mode, Mode::Declared);
            assert_eq!(elements[3].functions, None);
            assert_eq!(elements[4].mode, Mode::Passive);
        }
    }
    assert_eq!(found, 5);
    // The expressions name the function where it is now.
    let mut named = Vec::new();
    for payload in Parser::new(0).parse_all(&out) {
        if let Payload::ElementSection(reader) = payload.unwrap() {
            for element in reader {
                if let wasmparser::ElementItems::Expressions(_, list) = element.unwrap().items {
                    for e in list {
                        for op in e.unwrap().get_operators_reader() {
                            named.push(format!("{:?}", op.unwrap()));
                        }
                    }
                }
            }
        }
    }
    assert!(named.iter().any(|op| op == "RefFunc { function_index: 1 }"), "{named:?}");
    assert!(!named.iter().any(|op| op == "RefFunc { function_index: 0 }"), "{named:?}");
}

#[test]
fn a_start_section_is_renumbered() {
    let source = assembled(
        r#"(module (memory (export "memory") 1 1) (func $s) (func (export "cairn_run")) (start $s))"#,
    );
    let out = instrument(&source, Config::default()).unwrap();
    assert!(module::read(&out).parts.contains(&Part::Start(1)));
}

#[test]
fn scratch_locals_stand_behind_the_declared_ones() {
    let source = assembled(
        r#"(module (memory (export "memory") 1 1)
             (func (export "cairn_run") (param f32) (local i64 i64)
               (f32.store (i32.const 0) (local.get 0))
               (f64.store (i32.const 0) (f64.const 1))))"#,
    );
    let out = instrument(&source, Config::default()).unwrap();
    for part in module::read(&out).parts {
        if let Part::Code(body) = part {
            let runs: Vec<(u32, String)> =
                vec![(2, "I64".into()), (1, "F32".into()), (1, "F64".into())];
            assert_eq!(body.locals.0, runs);
            let code = body.code.unwrap().ops;
            assert!(code.contains(&Operator::LocalTee { local_index: 3 }));
            assert!(code.contains(&Operator::LocalTee { local_index: 4 }));
        }
    }
}

#[test]
fn the_declared_ceiling_is_the_accepted_one() {
    let source = assembled(WORKLOAD);
    let facts = validate_submitted(&source, Limits::default()).unwrap();
    assert_eq!(facts.memory_pages_max, 3);
    assert_eq!(declared_memory_pages(&source), Some(facts.memory_pages_max));
    let out = instrument(&source, Config::default()).unwrap();
    assert_eq!(declared_memory_pages(&out), Some(3));
    assert_eq!(image::decode(&out).unwrap().memory.maximum_pages, 3);
}

#[test]
fn custom_sections_leave_the_canonical_binary_alone() {
    let text = r#"(module
        (import "cairn" "output" (func $output (param i32 i32)))
        (memory (export "memory") 1 2)
        (table 2 funcref)
        (global $g (mut f64) (f64.const 2))
        (elem (i32.const 0) $f)
        (data (i32.const 0) "abc")
        (func $f)
        (func (export "cairn_run") (global.set $g (f64.sqrt (global.get $g)))))"#;
    let bare = assembled(text);
    let custom = |name: &str, fill: usize| {
        let mut section = vec![0u8, (1 + name.len() + fill) as u8, name.len() as u8];
        section.extend(name.as_bytes());
        section.extend(vec![7u8; fill]);
        section
    };
    // In front of everything, in the middle and at the end.
    let mut dressed = bare[..8].to_vec();
    dressed.extend(custom("first", 3));
    let mut from = 8;
    for payload in Parser::new(0).parse_all(&bare) {
        if let Some((_, range)) = payload.unwrap().as_section() {
            dressed.extend(&bare[from..range.end as usize]);
            dressed.extend(custom("between", 40));
            from = range.end as usize;
        }
    }
    assert_eq!(from, bare.len());
    assert!(dressed.len() > bare.len() + 200);
    for config in [Config::default(), Config::honest_path()] {
        assert_eq!(instrument(&dressed, config), instrument(&bare, config));
    }
}

#[test]
fn the_charge_and_its_type_come_behind_what_was_there() {
    let text = r#"(module
        (type (func (param i64) (result f32)))
        (import "cairn" "input" (func (param i32 i32) (result i32)))
        (import "cairn" "output" (func (param i32 i32)))
        (memory (export "memory") 1 2)
        (func (export "cairn_run")))"#;
    let given = module::read(&assembled(text));
    let out = module::read(&instrument(&assembled(text), Config::default()).unwrap());
    assert_eq!(out.error, None);
    let types = |m: &module::Module| match &m.parts[1] {
        Part::Types(types, None) => types.clone(),
        other => panic!("{other:?}"),
    };
    let imports = |m: &module::Module| match &m.parts[2] {
        Part::Imports(imports, None) => imports
            .iter()
            .map(|i| (i.module.clone(), i.name.clone(), i.ty.clone()))
            .collect::<Vec<_>>(),
        other => panic!("{other:?}"),
    };
    let mut expected = types(&given);
    expected.push(Some((vec!["I32".to_string()], vec![])));
    assert_eq!(types(&out), expected);
    let mut expected = imports(&given);
    let index = types(&given).len() as u32;
    expected.push(("cairn".to_string(), "charge".to_string(), ImportType::Func(index)));
    assert_eq!(imports(&out), expected);
}
