//! Writing WebAssembly binaries.
//!
//! How a section is laid out is `wasm_encoder`'s to decide. This module hands it plain values and
//! takes bytes back. What is rewritten, and how, is decided in [`crate::canon`].
//!
//! A section that is copied is read and written again entry by entry, in the shortest encoding,
//! so it comes out no longer than a small multiple of what went in. The encoder's lengths are 32
//! bits wide, which bounds what it can be handed: see [`MAX_COPIED`].
use crate::bytes::le_bytes;
use crate::engine::image::declared_locals;
use crate::engine::numeric::Kind;
use crate::wasm::{
    DataView, ExportView, ExternalKind, GlobalTypeView, ImportTypeView, Span, code_start_in, data_in,
    element_items_in, exports_in, globals_in, import_names_in, import_types_in, locals_in,
    memories_in, operators_in, read_to, tables_in, types_in,
};
use vstd::prelude::*;
use wasm_encoder::reencode::{Reencode, RoundtripReencoder, utils};
use wasm_encoder::Instruction::{
    Call, Else, End, F32Const, F32Ne, F64Const, F64Ne, I32Const, If, LocalGet, LocalTee, RefFunc,
    ReturnCall,
};
use wasm_encoder::ValType::{F32, F64, I32, I64};
use wasm_encoder::{BlockType as Block, Encode, Section, ValType as Encoded};
use wasmparser::{BinaryReader, ElementItems as Listed, OperatorsReader};

verus! {

/// The most bytes of a section that can be copied: sixteen times as many still fit a 32-bit
/// length.
pub const MAX_COPIED: usize = 0x0800_0000;

/// The most bytes of a section whose functions have been renumbered that can be copied: six times
/// as many, since an instruction that names a function takes at most six bytes. Five times as many
/// still fit a 32-bit length.
pub const MAX_RENUMBERED: usize = 0x3000_0000;

/// An unsigned number in LEB128: seven bits a byte, low ones first, the top bit set on all but
/// the last.
pub open spec fn leb(n: nat) -> Seq<u8>
    decreases n,
{
    if n < 128 {
        seq![n as u8]
    } else {
        seq![(n % 128 + 128) as u8] + leb(n / 128)
    }
}

/// How far a number is from needing no more bytes.
pub open spec fn magnitude(n: int) -> nat {
    if n >= 0 {
        n as nat
    } else {
        (-n - 1) as nat
    }
}

/// A signed number in LEB128: the last byte's sixth bit is the sign.
pub open spec fn sleb(n: int) -> Seq<u8>
    decreases magnitude(n),
{
    let (low, rest) = (n % 128, n / 128);
    if (rest == 0 && low < 64) || (rest == -1 && low >= 64) {
        seq![low as u8]
    } else {
        seq![(low + 128) as u8] + sleb(rest)
    }
}

/// Append a number in LEB128.
pub fn put_leb(out: &mut Vec<u8>, n: u64)
    ensures
        final(out)@ == old(out)@ + leb(n as nat),
{
    let mut rest: u64 = n;
    let ghost before = out@;
    assert(out@ + leb(n as nat) =~= before + leb(n as nat));
    while rest >= 128
        invariant
            out@ + leb(rest as nat) == before + leb(n as nat),
        decreases rest,
    {
        let ghost here = out@;
        out.push((rest % 128 + 128) as u8);
        proof {
            assert(leb(rest as nat) == seq![(rest % 128 + 128) as u8] + leb((rest / 128) as nat));
            assert(here + leb(rest as nat) =~= out@ + leb((rest / 128) as nat));
        }
        rest = rest / 128;
    }
    out.push(rest as u8);
    assert(out@ =~= before + leb(n as nat));
}

/// A section: its number, its length and its contents.
pub open spec fn framed(id: u8, payload: Seq<u8>) -> Seq<u8> {
    seq![id] + leb(payload.len()) + payload
}

/// What was written, or why nothing could be.
pub open spec fn unless_faulty<T>(written: Option<T>, fault: Seq<char>) -> Result<T, Seq<char>> {
    match written {
        Some(w) => Ok(w),
        None => Err(fault),
    }
}

/// An instruction that the instrumentation pass writes.
#[derive(Debug, Clone, Copy, PartialEq, Eq, Structural)]
pub enum Injected {
    /// `i32.const`.
    I32Const(i32),
    /// `call`.
    Call(u32),
    /// `return_call`.
    ReturnCall(u32),
    /// `ref.func`.
    RefFunc(u32),
    /// `local.tee`.
    LocalTee(u32),
    /// `local.get`.
    LocalGet(u32),
    /// `f32.ne`.
    F32Ne,
    /// `f64.ne`.
    F64Ne,
    /// `if` that leaves an `f32`.
    IfF32,
    /// `if` that leaves an `f64`.
    IfF64,
    /// `f32.const`, by its bits.
    F32Const(u32),
    /// `f64.const`, by its bits.
    F64Const(u64),
    /// `else`.
    Else,
    /// `end`.
    End,
}

/// The bytes of an instruction.
pub open spec fn injected_bytes(i: Injected) -> Seq<u8> {
    match i {
        Injected::I32Const(n) => seq![0x41u8] + sleb(n as int),
        Injected::Call(f) => seq![0x10u8] + leb(f as nat),
        Injected::ReturnCall(f) => seq![0x12u8] + leb(f as nat),
        Injected::RefFunc(f) => seq![0xd2u8] + leb(f as nat),
        Injected::LocalTee(l) => seq![0x22u8] + leb(l as nat),
        Injected::LocalGet(l) => seq![0x20u8] + leb(l as nat),
        Injected::F32Ne => seq![0x5cu8],
        Injected::F64Ne => seq![0x62u8],
        Injected::IfF32 => seq![0x04u8, 0x7du8],
        Injected::IfF64 => seq![0x04u8, 0x7cu8],
        Injected::F32Const(bits) => seq![0x43u8] + le_bytes(bits as nat, 4),
        Injected::F64Const(bits) => seq![0x44u8] + le_bytes(bits as nat, 8),
        Injected::Else => seq![0x05u8],
        Injected::End => seq![0x0bu8],
    }
}

/// `wasm_encoder::Instruction::encode`, which appends an opcode and its immediates: here, of the
/// instructions the pass writes, each opcode and each immediate as stated.
#[verifier::external_body]
pub(crate) fn encode_instruction(out: &mut Vec<u8>, i: Injected)
    ensures
        final(out)@ == old(out)@ + injected_bytes(i),
{
    match i {
        Injected::I32Const(n) => I32Const(n), Injected::Call(f) => Call(f),
        Injected::ReturnCall(f) => ReturnCall(f), Injected::RefFunc(f) => RefFunc(f),
        Injected::LocalTee(l) => LocalTee(l), Injected::LocalGet(l) => LocalGet(l),
        Injected::F32Ne => F32Ne, Injected::F64Ne => F64Ne,
        Injected::IfF32 => If(Block::Result(F32)), Injected::IfF64 => If(Block::Result(F64)),
        Injected::F32Const(b) => F32Const(wasm_encoder::Ieee32::new(b)),
        Injected::F64Const(b) => F64Const(wasm_encoder::Ieee64::new(b)),
        Injected::Else => Else, Injected::End => End,
    }.encode(out)
}

/// How each instruction of a run of bytes is written, if each can be.
pub uninterp spec fn operators_written(bytes: Seq<u8>) -> Option<Seq<Seq<u8>>>;

/// Why one cannot be, where the bytes begin at an offset of the module.
pub uninterp spec fn operators_written_fault(bytes: Seq<u8>, at: u64) -> Seq<char>;

/// How each instruction of a run of bytes is written, or why one cannot be.
pub open spec fn rewritten_operators(bytes: Seq<u8>, at: u64) -> Result<Seq<Seq<u8>>, Seq<char>> {
    unless_faulty(operators_written(bytes), operators_written_fault(bytes, at))
}

/// `wasm_encoder::reencode::RoundtripReencoder::instruction` on each instruction that
/// `wasmparser::OperatorsReader` reads before it fails, and `Instruction::encode` on what it
/// gives: one run of bytes for each instruction, in order.
#[verifier::external_body]
pub(crate) fn encode_operators(bytes: &[u8], at: u64) -> (r: Result<Vec<Vec<u8>>, String>)
    requires
        at + bytes@.len() <= u64::MAX,
    ensures
        match (r, operators_written(bytes@)) {
            (Ok(a), Some(b)) => a.deep_view() == b,
            (Err(e), None) => e@ == operators_written_fault(bytes@, at),
            _ => false,
        },
        r matches Ok(a) ==> a@.len() == operators_in(bytes@).0.len(),
{
    let mut reader = OperatorsReader::new(BinaryReader::new(bytes, at));
    let mut all: Vec<Vec<u8>> = Vec::new();
    while let Ok(op) = reader.read() {
        let mut out: Vec<u8> = Vec::new();
        RoundtripReencoder.instruction(op).map_err(|e| format!("{e:?}"))?.encode(&mut out);
        all.push(out);
    }
    Ok(all)
}

/// A function body with the locals of another and more behind them, and other code: its contents,
/// if it can be written.
pub uninterp spec fn body_written(
    bytes: Seq<u8>,
    more: Seq<Kind>,
    code: Seq<u8>,
) -> Option<Seq<u8>>;

/// Why it cannot be written, where what is copied begins at an offset of the module.
pub uninterp spec fn body_written_fault(
    bytes: Seq<u8>,
    at: u64,
    more: Seq<Kind>,
    code: Seq<u8>,
) -> Seq<char>;

/// `wasm_encoder::Function`: made with the locals that `wasmparser::FunctionBody` declares and
/// one more of each type given, and with the code given. What `wasmparser::FunctionBody` reads
/// back are those locals, unless they are too many to be counted, and behind them is the code.
#[verifier::external_body]
pub(crate) fn encode_body(bytes: &[u8], at: u64, more: &[Kind], code: &[u8]) -> (r: Result<
    Vec<u8>,
    String,
>)
    requires
        at + bytes@.len() <= u64::MAX,
        bytes@.len() <= MAX_COPIED,
        more@.len() <= MAX_COPIED,
    ensures
        match (r, body_written(bytes@, more@, code@)) {
            (Ok(a), Some(b)) => a@ == b && (code_start_in(b) matches Some(start) && start
                <= b.len() && b.skip(start as int) == code@) && (declared_locals(
                locals_in(bytes@).0,
                locals_in(bytes@).0.len(),
            ) + more@.len() <= u32::MAX ==> locals_in(b) == (
                locals_in(bytes@).0 + more@.map_values(|k: Kind| (1u32, kind_name(k))),
                true,
            )),
            (Err(e), None) => e@ == body_written_fault(bytes@, at, more@, code@),
            _ => false,
        },
{
    let body = wasmparser::FunctionBody::new(BinaryReader::new(bytes, at));
    let mut locals: Vec<(u32, Encoded)> = Vec::new();
    for local in body.get_locals_reader().map_err(|e| e.to_string())? {
        let (count, ty) = local.map_err(|e| e.to_string())?;
        locals.push((count, RoundtripReencoder.val_type(ty).map_err(|e| format!("{e:?}"))?));
    }
    locals.extend(more.iter().map(|k| (1, match k {
        Kind::I32 => I32, Kind::I64 => I64, Kind::F32 => F32, Kind::F64 => F64 })));
    let mut function = wasm_encoder::Function::new(locals);
    function.raw(code.iter().copied());
    Ok(function.into_raw_body())
}

/// A type section with one more function type, which takes what is given and returns nothing: its
/// contents, if it can be written.
pub uninterp spec fn types_written(bytes: Seq<u8>, params: Seq<Kind>) -> Option<Seq<u8>>;

/// Why it cannot be written, where what is copied begins at an offset of the module.
pub uninterp spec fn types_written_fault(bytes: Seq<u8>, at: u64, params: Seq<Kind>) -> Seq<char>;

/// How a type is rendered.
pub open spec fn kind_name(k: Kind) -> Seq<char> {
    match k {
        Kind::I32 => "I32"@,
        Kind::I64 => "I64"@,
        Kind::F32 => "F32"@,
        Kind::F64 => "F64"@,
    }
}

/// `wasm_encoder::reencode::utils::parse_type_section` and one more
/// `wasm_encoder::CoreTypeEncoder::function`, written as a section. What
/// `wasmparser::TypeSectionReader` reads from the contents is what it read, and behind it the
/// type given.
#[verifier::external_body]
pub(crate) fn encode_types(bytes: &[u8], at: u64, params: &[Kind]) -> (r: Result<Vec<u8>, String>)
    requires
        at + bytes@.len() <= u64::MAX,
        bytes@.len() <= MAX_COPIED,
        params@.len() <= 1000,
    ensures
        match (r, types_written(bytes@, params@)) {
            (Ok(a), Some(b)) => a@ == framed(1, b) && types_in(b) == (
                types_in(bytes@).0.push(
                    Some((params@.map_values(|k: Kind| kind_name(k)), Seq::empty())),
                ),
                true,
            ),
            (Err(e), None) => e@ == types_written_fault(bytes@, at, params@),
            _ => false,
        },
{
    let reader = wasmparser::TypeSectionReader::new(BinaryReader::new(bytes, at)).map_err(|e| e.to_string())?;
    let mut section = wasm_encoder::TypeSection::new();
    utils::parse_type_section(&mut RoundtripReencoder, &mut section, reader).map_err(|e| format!("{e:?}"))?;
    let given: Vec<Encoded> = params.iter().map(|k| match k {
        Kind::I32 => I32, Kind::I64 => I64, Kind::F32 => F32, Kind::F64 => F64,
    }).collect();
    section.ty().function(given, []);
    let mut out: Vec<u8> = Vec::new();
    section.append_to(&mut out);
    Ok(out)
}

/// An import section with one more function import: its contents, if it can be written.
pub uninterp spec fn imports_written(
    bytes: Seq<u8>,
    module: Seq<char>,
    name: Seq<char>,
    type_index: u32,
) -> Option<Seq<u8>>;

/// Why it cannot be written, where what is copied begins at an offset of the module.
pub uninterp spec fn imports_written_fault(
    bytes: Seq<u8>,
    at: u64,
    module: Seq<char>,
    name: Seq<char>,
    type_index: u32,
) -> Seq<char>;

/// `wasm_encoder::reencode::utils::parse_import_section` and one more
/// `wasm_encoder::ImportSection::import` of a function, written as a section. What
/// `wasmparser::ImportSectionReader` reads from the contents is what it read, and behind it the
/// import given; from a count of zero and nothing else it reads no import.
#[verifier::external_body]
pub(crate) fn encode_imports(bytes: &[u8], at: u64, module: &str, name: &str, type_index: u32) -> (r:
    Result<Vec<u8>, String>)
    requires
        at + bytes@.len() <= u64::MAX,
        bytes@.len() <= MAX_COPIED,
        module@.len() <= 0x100,
        name@.len() <= 0x100,
    ensures
        match (r, imports_written(bytes@, module@, name@, type_index)) {
            (Ok(a), Some(b)) => a@ == framed(2, b) && import_names_in(b) == (
                import_names_in(bytes@).0.push((module@, name@)),
                true,
            ) && import_types_in(b) == import_types_in(bytes@).push(
                ImportTypeView::Func(type_index),
            ) && (bytes@ == seq![0u8] ==> import_names_in(bytes@).0 == Seq::<
                (Seq<char>, Seq<char>),
            >::empty()),
            (Err(e), None) => e@ == imports_written_fault(bytes@, at, module@, name@, type_index),
            _ => false,
        },
{
    let reader = wasmparser::ImportSectionReader::new(BinaryReader::new(bytes, at)).map_err(|e| e.to_string())?;
    let mut section = wasm_encoder::ImportSection::new();
    utils::parse_import_section(&mut RoundtripReencoder, &mut section, reader).map_err(|e| format!("{e:?}"))?;
    section.import(module, name, wasm_encoder::EntityType::Function(type_index));
    let mut out: Vec<u8> = Vec::new();
    section.append_to(&mut out);
    Ok(out)
}

/// A table section, written again: its contents, if it can be written.
pub uninterp spec fn tables_written(bytes: Seq<u8>) -> Option<Seq<u8>>;

/// Why it cannot be written, where what is copied begins at an offset of the module.
pub uninterp spec fn tables_written_fault(bytes: Seq<u8>, at: u64) -> Seq<char>;

/// `wasm_encoder::reencode::utils::parse_table_section`, written as a section. The tables read from
/// the contents are those read before.
#[verifier::external_body]
pub(crate) fn encode_tables(bytes: &[u8], at: u64) -> (r: Result<Vec<u8>, String>)
    requires
        at + bytes@.len() <= u64::MAX,
        bytes@.len() <= MAX_RENUMBERED,
    ensures
        match (r, tables_written(bytes@)) {
            (Ok(a), Some(b)) => a@ == framed(4, b) && tables_in(b) == (
                tables_in(bytes@).0,
                true,
            ),
            (Err(e), None) => e@ == tables_written_fault(bytes@, at),
            _ => false,
        },
{
    let reader = wasmparser::TableSectionReader::new(BinaryReader::new(bytes, at)).map_err(|e| e.to_string())?;
    let mut section = wasm_encoder::TableSection::new();
    utils::parse_table_section(&mut RoundtripReencoder, &mut section, reader).map_err(|e| format!("{e:?}"))?;
    let mut out: Vec<u8> = Vec::new();
    section.append_to(&mut out);
    Ok(out)
}

/// A memory section, written again: its contents, if it can be written.
pub uninterp spec fn memories_written(bytes: Seq<u8>) -> Option<Seq<u8>>;

/// Why it cannot be written, where what is copied begins at an offset of the module.
pub uninterp spec fn memories_written_fault(bytes: Seq<u8>, at: u64) -> Seq<char>;

/// `wasm_encoder::reencode::utils::parse_memory_section`, written as a section. The memories read from
/// the contents are those read before.
#[verifier::external_body]
pub(crate) fn encode_memories(bytes: &[u8], at: u64) -> (r: Result<Vec<u8>, String>)
    requires
        at + bytes@.len() <= u64::MAX,
        bytes@.len() <= MAX_COPIED,
    ensures
        match (r, memories_written(bytes@)) {
            (Ok(a), Some(b)) => a@ == framed(5, b) && memories_in(b) == (
                memories_in(bytes@).0,
                true,
            ),
            (Err(e), None) => e@ == memories_written_fault(bytes@, at),
            _ => false,
        },
{
    let reader = wasmparser::MemorySectionReader::new(BinaryReader::new(bytes, at)).map_err(|e| e.to_string())?;
    let mut section = wasm_encoder::MemorySection::new();
    utils::parse_memory_section(&mut RoundtripReencoder, &mut section, reader).map_err(|e| format!("{e:?}"))?;
    let mut out: Vec<u8> = Vec::new();
    section.append_to(&mut out);
    Ok(out)
}

/// A tag section, written again: its contents, if it can be written.
pub uninterp spec fn tags_written(bytes: Seq<u8>) -> Option<Seq<u8>>;

/// Why it cannot be written, where what is copied begins at an offset of the module.
pub uninterp spec fn tags_written_fault(bytes: Seq<u8>, at: u64) -> Seq<char>;

/// `wasm_encoder::reencode::utils::parse_tag_section`, written as a section.
#[verifier::external_body]
pub(crate) fn encode_tags(bytes: &[u8], at: u64) -> (r: Result<Vec<u8>, String>)
    requires
        at + bytes@.len() <= u64::MAX,
        bytes@.len() <= MAX_COPIED,
    ensures
        match (r, tags_written(bytes@)) {
            (Ok(a), Some(b)) => a@ == framed(13, b),
            (Err(e), None) => e@ == tags_written_fault(bytes@, at),
            _ => false,
        },
{
    let reader = wasmparser::TagSectionReader::new(BinaryReader::new(bytes, at)).map_err(|e| e.to_string())?;
    let mut section = wasm_encoder::TagSection::new();
    utils::parse_tag_section(&mut RoundtripReencoder, &mut section, reader).map_err(|e| format!("{e:?}"))?;
    let mut out: Vec<u8> = Vec::new();
    section.append_to(&mut out);
    Ok(out)
}

/// Do two lists declare the same globals, wherever their initializers are?
pub open spec fn same_declarations(a: Seq<GlobalTypeView>, b: Seq<GlobalTypeView>) -> bool {
    a.len() == b.len() && forall|i: int|
        0 <= i < a.len() ==> (#[trigger] a[i]).content == b[i].content && a[i].mutable
            == b[i].mutable
}

/// Do two lists hold the same bytes, wherever their offsets are?
pub open spec fn same_contents(a: Seq<DataView>, b: Seq<DataView>) -> bool {
    a.len() == b.len() && forall|i: int|
        0 <= i < a.len() ==> (#[trigger] a[i]).bytes == b[i].bytes && (a[i].offset is Some
            <==> b[i].offset is Some)
}

/// Exports with other indices. A function is written as one, exact or not.
pub open spec fn reindexed(exports: Seq<ExportView>, indices: Seq<u32>) -> Seq<ExportView> {
    Seq::new(
        exports.len(),
        |i: int|
            ExportView {
                name: exports[i].name,
                kind: if exports[i].kind is FuncExact {
                    ExternalKind::Func
                } else {
                    exports[i].kind
                },
                index: indices[i],
            },
    )
}

/// A global section, written again: its contents, if it can be written.
pub uninterp spec fn globals_written(bytes: Seq<u8>) -> Option<Seq<u8>>;

/// Why it cannot be written, where what is copied begins at an offset of the module.
pub uninterp spec fn globals_written_fault(bytes: Seq<u8>, at: u64) -> Seq<char>;

/// `wasm_encoder::reencode::utils::parse_global_section`, written as a section. The types of the
/// globals read from the contents, and whether they can be set, are those read before.
#[verifier::external_body]
pub(crate) fn encode_globals(bytes: &[u8], at: u64) -> (r: Result<Vec<u8>, String>)
    requires
        at + bytes@.len() <= u64::MAX,
        bytes@.len() <= MAX_RENUMBERED,
    ensures
        match (r, globals_written(bytes@)) {
            (Ok(a), Some(b)) => a@ == framed(6, b) && globals_in(b).1 && same_declarations(
                globals_in(bytes@).0,
                globals_in(b).0,
            ),
            (Err(e), None) => e@ == globals_written_fault(bytes@, at),
            _ => false,
        },
{
    let reader = wasmparser::GlobalSectionReader::new(BinaryReader::new(bytes, at)).map_err(|e| e.to_string())?;
    let mut section = wasm_encoder::GlobalSection::new();
    utils::parse_global_section(&mut RoundtripReencoder, &mut section, reader).map_err(|e| format!("{e:?}"))?;
    let mut out: Vec<u8> = Vec::new();
    section.append_to(&mut out);
    Ok(out)
}

/// A data section, written again: its contents, if it can be written.
pub uninterp spec fn data_written(bytes: Seq<u8>) -> Option<Seq<u8>>;

/// Why it cannot be written, where what is copied begins at an offset of the module.
pub uninterp spec fn data_written_fault(bytes: Seq<u8>, at: u64) -> Seq<char>;

/// `wasm_encoder::reencode::utils::parse_data_section`, written as a section. The segments read
/// from the contents have the bytes read before, and an offset if they had one.
#[verifier::external_body]
pub(crate) fn encode_data(bytes: &[u8], at: u64) -> (r: Result<Vec<u8>, String>)
    requires
        at + bytes@.len() <= u64::MAX,
        bytes@.len() <= MAX_RENUMBERED,
    ensures
        match (r, data_written(bytes@)) {
            (Ok(a), Some(b)) => a@ == framed(11, b) && data_in(b).1 && same_contents(
                data_in(bytes@).0,
                data_in(b).0,
            ),
            (Err(e), None) => e@ == data_written_fault(bytes@, at),
            _ => false,
        },
{
    let reader = wasmparser::DataSectionReader::new(BinaryReader::new(bytes, at)).map_err(|e| e.to_string())?;
    let mut section = wasm_encoder::DataSection::new();
    utils::parse_data_section(&mut RoundtripReencoder, &mut section, reader).map_err(|e| format!("{e:?}"))?;
    let mut out: Vec<u8> = Vec::new();
    section.append_to(&mut out);
    Ok(out)
}

/// An export section with other indices: its contents, if it can be written.
pub uninterp spec fn exports_written(bytes: Seq<u8>, indices: Seq<u32>) -> Option<Seq<u8>>;

/// Why it cannot be written, where what is copied begins at an offset of the module.
pub uninterp spec fn exports_written_fault(bytes: Seq<u8>, at: u64, indices: Seq<u32>) -> Seq<char>;

/// `wasm_encoder::ExportSection::export` on the name and kind of each export that
/// `wasmparser::ExportSectionReader` reads, with the index given for it, written as a section. With
/// an index for each, the exports read from the contents are those read before, with these indices.
#[verifier::external_body]
pub(crate) fn encode_exports(bytes: &[u8], at: u64, indices: &[u32]) -> (r: Result<Vec<u8>, String>)
    requires
        at + bytes@.len() <= u64::MAX,
        bytes@.len() <= MAX_COPIED,
    ensures
        match (r, exports_written(bytes@, indices@)) {
            (Ok(a), Some(b)) => a@ == framed(7, b) && (indices@.len() == exports_in(bytes@).0.len()
                ==> exports_in(b) == (reindexed(exports_in(bytes@).0, indices@), true)),
            (Err(e), None) => e@ == exports_written_fault(bytes@, at, indices@),
            _ => false,
        },
{
    let reader = wasmparser::ExportSectionReader::new(BinaryReader::new(bytes, at)).map_err(|e| e.to_string())?;
    let mut section = wasm_encoder::ExportSection::new();
    for (export, index) in reader.into_iter().zip(indices) {
        let export = export.map_err(|e| e.to_string())?;
        section.export(export.name, RoundtripReencoder.export_kind(export.kind).map_err(|e| format!("{e:?}"))?, *index);
    }
    let mut out: Vec<u8> = Vec::new();
    section.append_to(&mut out);
    Ok(out)
}

/// Where the expressions are that an element segment lists, and whether they are all of it.
pub uninterp spec fn expressions_in(bytes: Seq<u8>) -> (Seq<Span>, bool);

/// The error that ends reading them, where they begin at an offset of the module.
pub uninterp spec fn expressions_fault(bytes: Seq<u8>, at: u64) -> Seq<char>;

/// Where the expressions are that an element segment lists.
pub open spec fn expressions_of(bytes: Seq<u8>, at: u64) -> (Seq<Span>, Option<Seq<char>>) {
    read_to(expressions_in(bytes), expressions_fault(bytes, at))
}

/// `wasmparser::SectionLimited<ConstExpr>`: the range of each expression that a segment lists.
/// The ranges lie within the bytes.
#[verifier::external_body]
pub(crate) fn read_expressions(bytes: &[u8], at: u64) -> (r: (Vec<Span>, Option<String>))
    requires
        at + bytes@.len() <= u64::MAX,
    ensures
        r.deep_view() == read_to(expressions_in(bytes@), expressions_fault(bytes@, at)),
        forall|i: int|
            0 <= i < r.0@.len() ==> crate::wasm::span_within(
                #[trigger] r.0@[i],
                0,
                bytes@.len() as int,
            ),
{
    let mut end = None;
    let reader = wasmparser::SectionLimited::<wasmparser::ConstExpr>::new(BinaryReader::new(bytes, at));
    let reader = reader.map_err(|e| end = Some(e.to_string()));
    let items = reader.into_iter().flatten().map_while(|x| x.map_err(|e| end = Some(e.to_string())).ok());
    let ranges = items.map(|x| x.get_binary_reader().range());
    (ranges.map(|r| Span { start: (r.start - at) as usize, end: (r.end - at) as usize }).collect(), end)
}

/// The reference type of what each segment of an element section lists, as it is written, if each
/// can be.
pub uninterp spec fn element_types_in(bytes: Seq<u8>) -> Option<Seq<Seq<u8>>>;

/// Why one cannot be, where the section begins at an offset of the module.
pub uninterp spec fn element_types_fault(bytes: Seq<u8>, at: u64) -> Seq<char>;

/// The reference type of what each segment lists, as it is written, or why one cannot be.
pub open spec fn element_types_of(bytes: Seq<u8>, at: u64) -> Result<Seq<Seq<u8>>, Seq<char>> {
    unless_faulty(element_types_in(bytes), element_types_fault(bytes, at))
}

/// `wasm_encoder::reencode::RoundtripReencoder::ref_type`, and `RefType::encode` on what it gives,
/// for each segment that `wasmparser::ElementSectionReader` reads: the type of its expressions,
/// or `funcref` where it lists function indices.
#[verifier::external_body]
pub(crate) fn read_element_types(bytes: &[u8], at: u64) -> (r: Result<Vec<Vec<u8>>, String>)
    requires
        at + bytes@.len() <= u64::MAX,
    ensures
        match (r, element_types_in(bytes@)) {
            (Ok(a), Some(b)) => a.deep_view() == b,
            (Err(e), None) => e@ == element_types_fault(bytes@, at),
            _ => false,
        },
        r matches Ok(a) ==> a@.len() == element_items_in(bytes@).len(),
{
    let reader = wasmparser::ElementSectionReader::new(BinaryReader::new(bytes, at)).map_err(|e| e.to_string())?;
    reader.into_iter().map_while(|x| x.ok()).map(|e| {
        let mut out: Vec<u8> = Vec::new();
        match e.items {
            Listed::Functions(_) => wasm_encoder::RefType::FUNCREF,
            Listed::Expressions(t, _) => RoundtripReencoder.ref_type(t).map_err(|e| format!("{e:?}"))?,
        }.encode(&mut out);
        Ok(out)
    }).collect()
}

/// The unsigned number that bytes are in LEB128.
pub open spec fn leb_number(b: Seq<u8>) -> nat
    decreases b.len(),
{
    if b.len() == 0 {
        0
    } else {
        b[0] as nat % 128 + 128 * leb_number(b.drop_first())
    }
}

/// The signed number that bytes are in LEB128: the last one counts from minus sixty-four.
pub open spec fn sleb_number(b: Seq<u8>) -> int
    decreases b.len(),
{
    if b.len() == 0 {
        0
    } else if b.len() == 1 {
        let low = b[0] as int % 128;
        if low < 64 {
            low
        } else {
            low - 128
        }
    } else {
        b[0] as int % 128 + 128 * sleb_number(b.drop_first())
    }
}

/// Is exactly the last of some bytes marked as the last?
pub open spec fn is_delimited(b: Seq<u8>) -> bool {
    &&& b.len() > 0
    &&& b.last() < 128
    &&& forall|i: int| 0 <= i < b.len() - 1 ==> #[trigger] b[i] >= 128
}

/// A number in LEB128 reads as itself, and as nothing longer or shorter.
pub proof fn law_leb_reads_back(n: nat)
    ensures
        is_delimited(leb(n)),
        leb_number(leb(n)) == n,
    decreases n,
{
    let b = leb(n);
    if n >= 128 {
        law_leb_reads_back(n / 128);
        let rest = leb(n / 128);
        assert(b.drop_first() =~= rest);
        assert forall|i: int| 0 <= i < b.len() - 1 implies #[trigger] b[i] >= 128 by {
            if i > 0 {
                assert(b[i] == rest[i - 1]);
            }
        }
        assert(b.last() == rest.last());
    } else {
        assert(b.drop_first() =~= Seq::empty());
        assert(leb_number(b.drop_first()) == 0);
    }
}

/// A signed number in LEB128 reads as itself, and as nothing longer or shorter.
pub proof fn law_sleb_reads_back(n: int)
    ensures
        is_delimited(sleb(n)),
        sleb_number(sleb(n)) == n,
    decreases magnitude(n),
{
    let b = sleb(n);
    let (low, rest) = (n % 128, n / 128);
    if (rest == 0 && low < 64) || (rest == -1 && low >= 64) {
        assert(b.len() == 1);
    } else {
        law_sleb_reads_back(rest);
        let tail = sleb(rest);
        assert(b.drop_first() =~= tail);
        assert forall|i: int| 0 <= i < b.len() - 1 implies #[trigger] b[i] >= 128 by {
            if i > 0 {
                assert(b[i] == tail[i - 1]);
            }
        }
        assert(b.last() == tail.last());
    }
}

/// A section is its number, how many bytes there are of it, and those.
pub proof fn law_a_section_says_its_length(id: u8, payload: Seq<u8>)
    ensures
        ({
            let b = framed(id, payload);
            let body = b.len() - payload.len();
            &&& b[0] == id
            &&& is_delimited(b.subrange(1, body))
            &&& leb_number(b.subrange(1, body)) == payload.len()
            &&& b.skip(body) == payload
        }),
{
    let b = framed(id, payload);
    let body = b.len() - payload.len();
    law_leb_reads_back(payload.len());
    assert(b.subrange(1, body) =~= leb(payload.len()));
    assert(b.skip(body) =~= payload);
}

} // verus!
