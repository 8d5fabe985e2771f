//! The rules on modules, applied to modules that are written down part by part.
use cairn_runtime::canon::{
    self, Canonicalization, Config, FloatWidth, Instrumenter, Survey, charges, escape_site,
    export_indices, function_index, nan_producing, rewrite_code, rewrite_instructions, shift_all,
    survey, write_segment,
};
use cairn_runtime::engine::image::{
    Control, HostFunction, ImageError, MemorySpec, TableSpec, assemble, resolve_control,
};
use cairn_runtime::engine::numeric::Kind;
use cairn_runtime::engine::operator::{BlockType, Operator};
use cairn_runtime::module::{Body, Element, Global, Import, Mode, Module, Part, Segment};
use cairn_runtime::state::Value;
use cairn_runtime::validate::{Limits, ModuleFacts, Rejection, first_ceiling, inspect};
use cairn_runtime::wasm::{
    ElementKind, Export, ExternalKind, ImportType, Listing, MemoryType, Span, TableType, ValType,
};

fn listing(ops: Vec<Operator>) -> Listing {
    Listing { ops, complete: true, error: "unexpected end-of-file".to_owned() }
}

fn constant(op: Operator) -> Listing {
    listing(vec![op, Operator::End])
}

fn body(ops: Vec<Operator>) -> Body {
    Body { locals: (vec![], None), code: Ok(listing(ops)) }
}

fn memory(initial: u64, maximum: Option<u64>) -> MemoryType {
    MemoryType { memory64: false, shared: false, initial, maximum, page_size_log2: None }
}

fn export(name: &str, kind: ExternalKind, index: u32) -> Export {
    Export { name: name.to_owned(), kind, index }
}

fn import(module: &str, name: &str, ty: ImportType) -> Import {
    Import { module: module.to_owned(), name: name.to_owned(), ty }
}

fn names(list: &[&str]) -> Vec<String> {
    list.iter().map(|s| (*s).to_owned()).collect()
}

fn function_types() -> Part {
    Part::Types(
        vec![
            Some((vec![], vec![])),
            Some((names(&["I32", "I32"]), names(&["I32"]))),
            Some((names(&["I32", "I32"]), vec![])),
            Some((names(&["I32"]), vec![])),
        ],
        None,
    )
}

/// A module that every rule admits.
fn plain() -> Vec<Part> {
    vec![
        function_types(),
        Part::Imports(
            vec![
                import("cairn", "input", ImportType::Func(1)),
                import("cairn", "output", ImportType::Func(2)),
            ],
            None,
        ),
        Part::Functions(vec![0], None),
        Part::Memories(vec![memory(1, Some(4))], None),
        Part::Exports(
            vec![
                export("memory", ExternalKind::Memory, 0),
                export("cairn_run", ExternalKind::Func, 2),
            ],
            None,
        ),
        Part::Code(body(vec![Operator::Nop, Operator::End])),
    ]
}

fn inspected(parts: Vec<Part>) -> Result<ModuleFacts, Rejection> {
    inspect(&Module { parts, error: None }, Limits::default())
}

/// The plain module with one more part.
fn with(part: Part) -> Result<ModuleFacts, Rejection> {
    let mut parts = plain();
    parts.push(part);
    inspected(parts)
}

/// The plain module with another memory.
fn with_memory(m: MemoryType) -> Result<ModuleFacts, Rejection> {
    let mut parts = plain();
    parts[3] = Part::Memories(vec![m], None);
    inspected(parts)
}

/// The plain module with other imports.
fn with_import(i: Import) -> Result<ModuleFacts, Rejection> {
    let mut parts = plain();
    parts[1] = Part::Imports(vec![i], None);
    inspected(parts)
}

#[test]
fn a_plain_module_is_admitted() {
    assert_eq!(
        inspected(plain()),
        Ok(ModuleFacts {
            memory_pages_min: 1,
            memory_pages_max: 4,
            imports_input: true,
            imports_output: true,
        })
    );
}

#[test]
fn every_rule_on_memories_has_its_rejection() {
    let mut parts = plain();
    parts[3] = Part::Memories(vec![], None);
    assert_eq!(inspected(parts), Err(Rejection::NoMemory));
    assert_eq!(
        with(Part::Memories(vec![memory(1, Some(1))], None)),
        Err(Rejection::MultipleMemories)
    );
    assert_eq!(
        with_memory(MemoryType { shared: true, ..memory(1, Some(1)) }),
        Err(Rejection::SharedMemory)
    );
    assert_eq!(
        with_memory(MemoryType { memory64: true, ..memory(1, Some(1)) }),
        Err(Rejection::Memory64)
    );
    assert_eq!(
        with_memory(MemoryType { page_size_log2: Some(0), ..memory(1, Some(1)) }),
        Err(Rejection::CustomPageSize)
    );
    assert_eq!(with_memory(memory(1, None)), Err(Rejection::UnboundedMemory));
    let limit = Limits::default().max_memory_pages;
    let pages = u64::from(limit) + 1;
    assert_eq!(
        with_memory(memory(1, Some(pages))),
        Err(Rejection::MemoryTooLarge { pages, limit })
    );
    assert!(with_memory(memory(1, Some(u64::from(limit)))).is_ok());
}

#[test]
fn every_rule_on_imports_has_its_rejection() {
    assert_eq!(
        with_import(import("env", "f", ImportType::Func(0))),
        Err(Rejection::ForeignImport { module: "env".to_owned(), name: "f".to_owned() })
    );
    assert_eq!(
        with_import(import("cairn", "charge", ImportType::Func(3))),
        Err(Rejection::ReservedImport { name: "charge".to_owned() })
    );
    assert_eq!(
        with_import(import("cairn", "input", ImportType::Memory)),
        Err(Rejection::ImportedMemory)
    );
    assert_eq!(
        with_import(import("cairn", "input", ImportType::Table)),
        Err(Rejection::NonFunctionHostImport { name: "input".to_owned() })
    );
    assert_eq!(
        with_import(import("cairn", "clock", ImportType::Func(0))),
        Err(Rejection::UnknownHostFunction { name: "clock".to_owned() })
    );
    assert_eq!(
        with_import(import("cairn", "output", ImportType::Func(1))),
        Err(Rejection::HostSignatureMismatch {
            name: "output".to_owned(),
            declared: "(i32, i32) -> (i32)".to_owned(),
        })
    );
    assert_eq!(
        with_import(import("cairn", "output", ImportType::Func(9))),
        Err(Rejection::Invalid {
            detail: "import refers to undeclared type index 9".to_owned(),
        })
    );
}

#[test]
fn every_rule_on_exports_has_its_rejection() {
    let without = |name: &str| {
        let mut parts = plain();
        let kept = [
            export("memory", ExternalKind::Memory, 0),
            export("cairn_run", ExternalKind::Func, 2),
        ];
        parts[4] = Part::Exports(kept.into_iter().filter(|e| e.name != name).collect(), None);
        inspected(parts)
    };
    for name in ["memory", "cairn_run"] {
        assert_eq!(without(name), Err(Rejection::MissingExport { name: name.to_owned() }));
    }
    assert_eq!(
        with(Part::Exports(vec![export("cairn_fuel", ExternalKind::Global, 0)], None)),
        Err(Rejection::ReservedExport { name: "cairn_fuel".to_owned() })
    );
}

#[test]
fn every_rule_on_references_has_its_rejection() {
    assert_eq!(
        with(Part::Types(vec![Some((names(&["Ref(funcref)"]), vec![]))], None)),
        Err(Rejection::ReferenceValue { at: "function type 4 (Ref(funcref))".to_owned() })
    );
    let global = Global {
        content: "Ref(externref)".to_owned(),
        mutable: false,
        init: listing(vec![]),
    };
    assert_eq!(
        with(Part::Globals(vec![global], None)),
        Err(Rejection::ReferenceValue { at: "global 0".to_owned() })
    );
    let local = Body {
        locals: (vec![(1, "Ref(funcref)".to_owned())], None),
        code: Ok(listing(vec![Operator::End])),
    };
    assert_eq!(
        with(Part::Code(local)),
        Err(Rejection::ReferenceValue { at: "a local (Ref(funcref))".to_owned() })
    );
    let get = Operator::TableGet { text: "TableGet { table: 0 }".to_owned() };
    assert_eq!(
        with(Part::Code(body(vec![get]))),
        Err(Rejection::ReferenceInstruction { operator: "TableGet { table: 0 }".to_owned() })
    );
    let select = |reference| Operator::TypedSelect { reference, text: "TypedSelect".to_owned() };
    assert!(with(Part::Code(body(vec![select(false)]))).is_ok());
    assert!(with(Part::Code(body(vec![select(true)]))).is_err());
}

#[test]
fn every_rule_on_tables_has_its_rejection() {
    let table = TableType { holds_functions: true, initial: 1, maximum: None };
    assert!(with(Part::Tables(vec![table], None)).is_ok());
    assert_eq!(with(Part::Tables(vec![table, table], None)), Err(Rejection::MultipleTables));
    assert_eq!(
        with(Part::Tables(vec![TableType { holds_functions: false, ..table }], None)),
        Err(Rejection::NonFunctionTable)
    );
}

#[test]
fn a_start_section_and_every_reading_error_are_rejected() {
    assert_eq!(with(Part::Start(0)), Err(Rejection::StartSection));
    let failed = Err(Rejection::Invalid { detail: "cut short".to_owned() });
    let cut = || Some("cut short".to_owned());
    assert_eq!(with(Part::Types(vec![], cut())), failed);
    assert_eq!(with(Part::Imports(vec![], cut())), failed);
    assert_eq!(with(Part::Memories(vec![], cut())), failed);
    assert_eq!(with(Part::Tables(vec![], cut())), failed);
    assert_eq!(with(Part::Globals(vec![], cut())), failed);
    assert_eq!(with(Part::Exports(vec![], cut())), failed);
    assert_eq!(
        with(Part::Code(Body { locals: (vec![], cut()), code: Ok(listing(vec![])) })),
        failed
    );
    assert_eq!(
        with(Part::Code(Body { locals: (vec![], None), code: Err("cut short".to_owned()) })),
        failed
    );
    assert_eq!(inspect(&Module { parts: plain(), error: cut() }, Limits::default()), failed);
}

#[test]
fn the_first_memory_gives_the_ceiling() {
    assert_eq!(first_ceiling(&vec![]), None);
    assert_eq!(first_ceiling(&vec![memory(1, None)]), None);
    assert_eq!(first_ceiling(&vec![memory(1, Some(7)), memory(1, Some(9))]), Some(7));
    assert_eq!(first_ceiling(&vec![memory(1, Some(u64::from(u32::MAX) + 1))]), None);
}

/// The plain module as instrumentation leaves it.
fn metered() -> Vec<Part> {
    let mut parts = plain();
    parts[1] = Part::Imports(
        vec![
            import("cairn", "output", ImportType::Func(2)),
            import("cairn", "charge", ImportType::Func(3)),
        ],
        None,
    );
    parts
}

fn assembled(parts: Vec<Part>) -> Result<cairn_runtime::engine::image::Image, ImageError> {
    assemble(Module { parts, error: None })
}

/// The metered module with another part in a place.
fn replacing(at: usize, part: Part) -> Result<cairn_runtime::engine::image::Image, ImageError> {
    let mut parts = metered();
    parts[at] = part;
    assembled(parts)
}

#[test]
fn a_metered_module_becomes_an_image() {
    let mut parts = metered();
    parts.push(Part::Tables(
        vec![TableType { holds_functions: true, initial: 2, maximum: Some(3) }],
        None,
    ));
    parts.push(Part::Globals(
        vec![Global {
            content: "I64".to_owned(),
            mutable: true,
            init: constant(Operator::I64Const { value: 5 }),
        }],
        None,
    ));
    parts.push(Part::Elements(
        vec![Element {
            mode: Mode::Active(constant(Operator::I32Const { value: 1 })),
            functions: Some((vec![2], None)),
        }],
        None,
    ));
    parts.push(Part::Data(
        vec![Segment {
            offset: Some(constant(Operator::I32Const { value: -1 })),
            bytes: vec![1, 2],
        }],
        None,
    ));
    let image = assembled(parts).unwrap();
    assert_eq!(image.host_imports, vec![HostFunction::Output, HostFunction::Charge]);
    assert_eq!(image.charge, 1);
    assert_eq!(image.entry, 2);
    assert_eq!(image.func_types, vec![2, 3, 0]);
    assert_eq!(image.memory, MemorySpec { initial_pages: 1, maximum_pages: 4 });
    assert_eq!(image.table, Some(TableSpec { initial: 2, maximum: Some(3) }));
    assert_eq!(image.globals[0].init, Value::I64(5));
    assert!(image.globals[0].mutable);
    assert_eq!(
        image.elements,
        vec![cairn_runtime::engine::image::ElementSegment::Active {
            offset: 1,
            functions: vec![2],
        }]
    );
    assert_eq!(
        image.data,
        vec![cairn_runtime::engine::image::DataSegment::Active {
            offset: u32::MAX,
            bytes: vec![1, 2],
        }]
    );
    assert_eq!(image.function(2).unwrap().ops, vec![Operator::Nop, Operator::End]);
    assert!(image.function(1).is_none());
    assert_eq!(image.signature(0).unwrap().params(), &[ValType::I32, ValType::I32]);
}

#[test]
fn every_image_error_has_its_module() {
    let parse = |r: Result<cairn_runtime::engine::image::Image, ImageError>| {
        assert_eq!(r.err(), Some(ImageError::Parse { detail: "cut".to_owned() }));
    };
    let cut = || Some("cut".to_owned());
    parse(replacing(0, Part::Types(vec![], cut())));
    parse(replacing(2, Part::Functions(vec![], cut())));
    parse(assemble(Module { parts: metered(), error: cut() }));
    assert_eq!(
        replacing(1, Part::Imports(vec![import("env", "f", ImportType::Func(0))], None)).err(),
        Some(ImageError::UnsupportedImport { module: "env".to_owned(), name: "f".to_owned() })
    );
    assert_eq!(
        replacing(3, Part::Memories(vec![memory(1, None)], None)).err(),
        Some(ImageError::BadMemory)
    );
    assert_eq!(replacing(3, Part::Other).err(), Some(ImageError::BadMemory));
    assert_eq!(replacing(4, Part::Other).err(), Some(ImageError::NoEntryPoint));
    assert_eq!(replacing(1, Part::Other).err(), Some(ImageError::NotInstrumented));
    let global = |init: Listing| {
        let mut parts = metered();
        parts.push(Part::Globals(
            vec![Global { content: "I32".to_owned(), mutable: false, init }],
            None,
        ));
        assembled(parts).err()
    };
    assert_eq!(
        global(constant(Operator::GlobalGet { global_index: 0 })),
        Some(ImageError::UnsupportedInitializer)
    );
    assert_eq!(
        global(listing(vec![Operator::I32Const { value: 1 }])),
        Some(ImageError::Parse { detail: "unexpected end-of-file".to_owned() })
    );
    assert_eq!(
        replacing(
            5,
            Part::Code(Body {
                locals: (vec![(50_000, "I32".to_owned()), (1, "I64".to_owned())], None),
                code: Ok(listing(vec![Operator::End])),
            })
        )
        .err(),
        Some(ImageError::TooManyLocals { function: 0, declared: 50_001 })
    );
    assert_eq!(
        replacing(5, Part::Code(body(vec![Operator::Else, Operator::End]))).err(),
        Some(ImageError::UnbalancedControl { function: 0 })
    );
    let mut parts = metered();
    parts.push(Part::Code(body(vec![Operator::End])));
    assert_eq!(assembled(parts).err(), Some(ImageError::BodyWithoutSignature { index: 1 }));
}

#[test]
fn constructs_nest_and_point_forward() {
    let block = || Operator::Block { blockty: BlockType::Empty };
    let ops = vec![
        block(),
        Operator::If { blockty: BlockType::Empty },
        Operator::Nop,
        Operator::Else,
        block(),
        Operator::End,
        Operator::End,
        Operator::End,
        Operator::End,
    ];
    let control = resolve_control(&ops, 0).unwrap();
    assert_eq!(control[0], Some(Control { end: 7, otherwise: None }));
    assert_eq!(control[1], Some(Control { end: 6, otherwise: Some(3) }));
    assert_eq!(control[4], Some(Control { end: 5, otherwise: None }));
    for at in [2, 3, 5, 6, 7, 8] {
        assert_eq!(control[at], None);
    }
    assert_eq!(
        resolve_control(&vec![block()], 3),
        Err(ImageError::UnbalancedControl { function: 3 })
    );
}

fn straight() -> Vec<Operator> {
    vec![
        Operator::LocalGet { local_index: 0 },
        Operator::BrIf { relative_depth: 0 },
        Operator::Nop,
        Operator::Nop,
        Operator::F32Add,
        Operator::End,
    ]
}

#[test]
fn charges_pay_for_each_instruction_once_and_first() {
    let config = Config::dispute_path();
    let amounts = charges(config, &straight());
    assert_eq!(amounts, vec![2, 0, 4, 0, 0, 0]);
    assert_eq!(amounts.iter().sum::<u32>() as usize, straight().len());
    let unmetered = Config { meter_fuel: false, ..config };
    assert_eq!(charges(unmetered, &straight()), vec![0; 6]);
    assert_eq!(charges(config, &vec![]), Vec::<u32>::new());
}

/// One byte for each instruction, its position.
fn positions(n: u8) -> Vec<Vec<u8>> {
    (0..n).map(|i| vec![i]).collect()
}

#[test]
fn instructions_are_kept_in_order_between_what_is_added() {
    let widths = vec![];
    let pass = Instrumenter {
        config: Config { meter_fuel: true, canonicalize: Canonicalization::Everywhere },
        imported_funcs: 5,
        global_widths: &widths,
        scratch_f32: 1,
        scratch_f64: 2,
    };
    let fix = [
        0x22, 1, 0x20, 1, 0x5c, 0x04, 0x7d, 0x43, 0, 0, 0xc0, 0x7f, 0x05, 0x20, 1, 0x0b,
    ];
    let mut expected = vec![0x41, 2, 0x10, 5, 0, 1, 0x41, 4, 0x10, 5, 2, 3, 4];
    expected.extend(fix);
    expected.push(5);
    assert_eq!(pass.emit(&straight(), &positions(6)), expected);

    // At escapes alone, the result of an addition is left as it is.
    let quiet = Instrumenter { config: Config::honest_path(), ..pass };
    assert_eq!(quiet.emit(&straight(), &positions(6)), vec![0, 1, 2, 3, 4, 5]);
}

#[test]
fn an_operand_is_fixed_before_it_escapes() {
    let widths = vec![Some(FloatWidth::F64), None];
    let pass = Instrumenter {
        config: Config { meter_fuel: false, canonicalize: Canonicalization::AtEscapes },
        imported_funcs: 0,
        global_widths: &widths,
        scratch_f32: 7,
        scratch_f64: 8,
    };
    let set = |global_index| vec![Operator::GlobalSet { global_index }];
    let fixed = pass.emit(&set(0), &positions(1));
    assert_eq!(fixed[..5], [0x22, 8, 0x20, 8, 0x62]);
    assert_eq!(fixed[7..16], [0x44, 0, 0, 0, 0, 0, 0, 0xf8, 0x7f]);
    assert_eq!(fixed.last(), Some(&0));
    assert_eq!(pass.emit(&set(1), &positions(1)), vec![0]);
    let never = Instrumenter {
        config: Config { meter_fuel: false, canonicalize: Canonicalization::Never },
        ..pass
    };
    assert_eq!(never.emit(&set(0), &positions(1)), vec![0]);
    assert_eq!(escape_site(&Operator::F32Copysign, &widths), Some(FloatWidth::F32));
    assert_eq!(escape_site(&Operator::F32Add, &widths), None);
    assert_eq!(nan_producing(&Operator::F64Sqrt), Some(FloatWidth::F64));
    assert_eq!(nan_producing(&Operator::F64Neg), None);
}

#[test]
fn functions_stay_apart_and_leave_the_charge_its_index() {
    let imported = 3;
    let moved: Vec<u32> = (0..8).map(|f| function_index(f, imported)).collect();
    assert_eq!(moved, vec![0, 1, 2, 4, 5, 6, 7, 8]);
    assert_eq!(shift_all(&vec![7, 0, 3], imported), vec![8, 0, 4]);
    assert_eq!(function_index(u32::MAX, imported), u32::MAX);
    let exports = vec![
        export("f", ExternalKind::Func, 3),
        export("m", ExternalKind::Memory, 3),
        export("g", ExternalKind::Func, 2),
    ];
    assert_eq!(export_indices(&exports, imported), vec![4, 3, 2]);
}

#[test]
fn calls_are_renumbered_where_nothing_is_added() {
    let code = listing(vec![
        Operator::Call { function_index: 200 },
        Operator::RefFunc { function_index: 0, text: String::new() },
        Operator::End,
    ]);
    assert_eq!(
        rewrite_instructions(&code, &Ok(positions(3)), 1),
        Ok(vec![0x10, 0xc9, 0x01, 0xd2, 0, 2])
    );
    let failed = canon::Error::Parse { detail: "no".to_owned() };
    assert_eq!(rewrite_instructions(&code, &Err("no".to_owned()), 1), Err(failed));
    let cut = Listing { complete: false, ..listing(vec![]) };
    assert_eq!(
        rewrite_instructions(&cut, &Ok(vec![]), 1),
        Err(canon::Error::Parse { detail: "unexpected end-of-file".to_owned() })
    );
}

#[test]
fn element_segments_have_six_forms() {
    let active = |table_index| ElementKind::Active {
        table_index,
        offset: Span { start: 0, end: 0 },
    };
    let (offset, items) = (vec![0x41, 0, 0x0b], vec![1, 9]);
    let (funcref, other) = (vec![0x70], vec![0x6f]);
    let written = |kind, expressions, ty: &Vec<u8>| {
        write_segment(kind, &offset, expressions, ty, &items)
    };
    assert_eq!(written(active(None), false, &funcref), vec![0, 0x41, 0, 0x0b, 1, 9]);
    assert_eq!(written(active(None), true, &funcref), vec![4, 0x41, 0, 0x0b, 1, 9]);
    assert_eq!(
        written(active(None), true, &other),
        vec![6, 0, 0x41, 0, 0x0b, 0x6f, 1, 9]
    );
    assert_eq!(
        written(active(Some(2)), false, &funcref),
        vec![2, 2, 0x41, 0, 0x0b, 0, 1, 9]
    );
    assert_eq!(written(ElementKind::Passive, false, &funcref), vec![1, 0, 1, 9]);
    assert_eq!(written(ElementKind::Passive, true, &funcref), vec![5, 0x70, 1, 9]);
    assert_eq!(written(ElementKind::Declared, false, &funcref), vec![3, 0, 1, 9]);
    assert_eq!(written(ElementKind::Declared, true, &other), vec![7, 0x6f, 1, 9]);
}

#[test]
fn a_survey_counts_what_instrumentation_needs() {
    let mut parts = plain();
    parts.push(Part::Imports(
        vec![import("x", "g", ImportType::Global("F64".to_owned()))],
        None,
    ));
    parts.push(Part::Globals(
        vec![Global { content: "F32".to_owned(), mutable: false, init: listing(vec![]) }],
        None,
    ));
    let found = survey(&Module { parts, error: None }).unwrap();
    assert_eq!(
        found,
        Survey {
            imported_funcs: 2,
            type_params: vec![Some(0), Some(2), Some(2), Some(1)],
            function_types: vec![0],
            global_widths: vec![Some(FloatWidth::F64), Some(FloatWidth::F32)],
            had_type_section: true,
            had_import_section: true,
        }
    );
    assert_eq!(
        survey(&Module { parts: vec![], error: None }),
        Err(canon::Error::NoTypeSection)
    );
    assert_eq!(
        survey(&Module { parts: plain(), error: Some("cut".to_owned()) }),
        Err(canon::Error::Parse { detail: "cut".to_owned() })
    );
}

#[test]
fn every_instrumentation_error_has_its_body() {
    let facts = || Survey {
        imported_funcs: 0,
        type_params: vec![Some(2), None],
        function_types: vec![0, 1, 9],
        global_widths: vec![],
        had_type_section: true,
        had_import_section: false,
    };
    let add = || vec![Operator::F32Add, Operator::End];
    let rewritten = |index, b: &Body, written: Result<Vec<Vec<u8>>, String>| {
        rewrite_code(
            &facts(),
            Config { meter_fuel: false, canonicalize: Canonicalization::Everywhere },
            index,
            b,
            &written,
        )
    };
    // Two parameters, so the scratch local is the third.
    let (more, code) = rewritten(0, &body(add()), Ok(positions(2))).unwrap();
    assert_eq!(more, vec![Kind::F32]);
    assert_eq!(code[..3], [0, 0x22, 2]);
    assert_eq!(
        rewritten(3, &body(add()), Ok(positions(2))),
        Err(canon::Error::BodyWithoutSignature { index: 3 })
    );
    assert_eq!(
        rewritten(1, &body(add()), Ok(positions(2))),
        Err(canon::Error::NotAFunctionType { type_index: 1 })
    );
    assert_eq!(
        rewritten(2, &body(add()), Ok(positions(2))),
        Err(canon::Error::NotAFunctionType { type_index: 9 })
    );
    let declaring = |n: u32| Body {
        locals: (vec![(n, "I32".to_owned())], None),
        code: Ok(listing(add())),
    };
    assert_eq!(
        rewritten(0, &declaring(u32::MAX - 1), Ok(positions(2))),
        Err(canon::Error::LocalIndexOverflow)
    );
    assert_eq!(
        rewritten(0, &declaring(u32::MAX - 2), Ok(positions(2))),
        Err(canon::Error::LocalIndexOverflow)
    );
    assert!(rewritten(0, &declaring(u32::MAX - 3), Ok(positions(2))).is_ok());
    assert_eq!(
        rewritten(0, &body(add()), Err("no".to_owned())),
        Err(canon::Error::Parse { detail: "no".to_owned() })
    );
    let lost = Body { locals: (vec![], None), code: Err("lost".to_owned()) };
    assert_eq!(
        rewritten(0, &lost, Ok(vec![])),
        Err(canon::Error::Parse { detail: "lost".to_owned() })
    );
}
