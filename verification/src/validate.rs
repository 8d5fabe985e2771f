//! Decides which WebAssembly modules Cairn is willing to run.
//!
//! Two rules govern this module, and they are different in kind.
//!
//! **Nothing nondeterministic.** Threads, relaxed SIMD and stack switching produce host-dependent
//! results by construction. A workload using them would make honest workers disagree, and dispute
//! arbitration would convict one of them at random.
//!
//! **Nothing that cannot be committed to.** The execution trace is a Merkle commitment over
//! linear memory, globals and the value stack. `externref` and `funcref` are opaque host
//! references, so a module that can place one on the stack cannot be committed to at all.
//!
//! The set of proposals admitted here is deliberately identical to the set the interpreter
//! implements, so that a module that is accepted can always be arbitrated. Where a proposal is
//! admitted for part of itself, the structural pass draws the rest of the line.
use crate::engine::operator::{Operator, same_operator, same_operators};
use crate::fold::each;
use crate::module::{
    self, Body, BodyView, Global, GlobalView, Import, ImportView, Module, ModuleView, Part,
    PartView, lemma_same_module, module_of, same_body, same_globals, same_module, same_part,
};
use crate::text;
use crate::wasm::{
    self, Export, ExportView, ExternalKind, FuncType, FuncTypeView, ImportType, ImportTypeView,
    MemoryType, PartKind, Span, TableType, ValType, ValTypeView, is_text, slice_of, type_named,
    types_named,
};
use vstd::prelude::*;

verus! {

/// The import module name reserved for Cairn's host interface.
///
/// A workload may import from this module and from nowhere else. There is no filesystem, no
/// clock, no network and no entropy.
pub const HOST_MODULE: &'static str = "cairn";

/// Host function: `input(ptr: i32, len: i32) -> i32`.
///
/// Copies up to `len` bytes of the work unit's input to `ptr` and returns the input's true
/// length, so a workload can size its buffer with a zero-length probe.
pub const HOST_INPUT: &'static str = "input";

/// Host function: `output(ptr: i32, len: i32)`.
///
/// Records `len` bytes at `ptr` as the work unit's result. The last call wins.
pub const HOST_OUTPUT: &'static str = "output";

/// Host function: `charge(instructions: i32)`.
///
/// The fuel-metering and snapshot hook. **Injected by the instrumentation pass, never written by
/// a workload author**: importing it directly would let a workload lie about how much it had
/// executed.
pub const HOST_CHARGE: &'static str = "charge";

/// The name an instruction count may be exported under. A submitted module exporting it is
/// rejected for the same reason importing `charge` is.
pub const FUEL_EXPORT: &'static str = "cairn_fuel";

/// The function a work unit must export as its entry point.
pub const ENTRY_POINT: &'static str = "cairn_run";

/// The name the module's linear memory must be exported under.
pub const MEMORY_EXPORT: &'static str = "memory";

/// A WebAssembly proposal.
#[derive(Debug, Clone, Copy, PartialEq, Eq, Structural)]
pub enum Feature {
    /// Globals that can be written.
    MutableGlobal,
    /// Sign extension of narrow integers.
    SignExtension,
    /// Conversions that saturate rather than trap.
    SaturatingFloatToInt,
    /// Several results.
    MultiValue,
    /// `memory.fill`, `memory.copy` and the like.
    BulkMemory,
    /// Floating point.
    Floats,
    /// Reference types.
    ReferenceTypes,
}

/// The WebAssembly proposals Cairn admits. Everything absent from this list is rejected.
///
/// Reference types are admitted for their *encoding* and refused for their *values*: compilers
/// write the table index of a `call_indirect` in a padded form that is legal only under that
/// proposal. The structural pass refuses a reference value anywhere, a second table, a table of
/// anything but functions, and every instruction that touches a reference or mutates a table.
#[must_use]
pub fn admitted_features() -> (r: Vec<Feature>)
    ensures
        r@ == admitted(),
{
    let mut r: Vec<Feature> = Vec::new();
    r.push(Feature::MutableGlobal);
    r.push(Feature::SignExtension);
    r.push(Feature::SaturatingFloatToInt);
    r.push(Feature::MultiValue);
    r.push(Feature::BulkMemory);
    r.push(Feature::Floats);
    r.push(Feature::ReferenceTypes);
    assert(r@ =~= admitted());
    r
}

/// The proposals that are admitted.
pub open spec fn admitted() -> Seq<Feature> {
    seq![
        Feature::MutableGlobal,
        Feature::SignExtension,
        Feature::SaturatingFloatToInt,
        Feature::MultiValue,
        Feature::BulkMemory,
        Feature::Floats,
        Feature::ReferenceTypes,
    ]
}

/// What the validator says against a module, with these proposals switched on and no other.
pub uninterp spec fn objection_to(module: Seq<u8>, features: Seq<Feature>) -> Option<Seq<char>>;

/// `wasmparser::Validator::validate_all`: the rendering of its error, if it has one, for a
/// validator made by `Validator::new_with_features` with exactly these features.
#[verifier::external_body]
fn validate_all(module: &[u8], features: &[Feature]) -> (r: Option<String>)
    ensures
        r.deep_view() == objection_to(module@, features@),
{
    let flags = features.iter().map(|f| match f {
        Feature::MutableGlobal => wasmparser::WasmFeatures::MUTABLE_GLOBAL,
        Feature::SignExtension => wasmparser::WasmFeatures::SIGN_EXTENSION,
        Feature::SaturatingFloatToInt => wasmparser::WasmFeatures::SATURATING_FLOAT_TO_INT,
        Feature::MultiValue => wasmparser::WasmFeatures::MULTI_VALUE,
        Feature::BulkMemory => wasmparser::WasmFeatures::BULK_MEMORY,
        Feature::Floats => wasmparser::WasmFeatures::FLOATS,
        Feature::ReferenceTypes => wasmparser::WasmFeatures::REFERENCE_TYPES,
    }).collect();
    wasmparser::Validator::new_with_features(flags).validate_all(module).err().map(|e| e.to_string())
}

/// Is a value type a reference, and therefore impossible to commit to?
fn is_reference(ty: &ValType) -> (r: bool)
    ensures
        r == (ty.deep_view() is Ref),
{
    match ty {
        ValType::Ref { .. } => true,
        _ => false,
    }
}

/// The instruction, rendered, if it reads, writes or creates a reference.
///
/// `elem.drop` is deliberately absent: the interpreter implements it, and dropped segments are
/// part of the state commitment already.
pub open spec fn reference_touched(op: Operator) -> Option<Seq<char>> {
    match op {
        Operator::RefNull { text } => Some(text@),
        Operator::RefIsNull { text } => Some(text@),
        Operator::RefFunc { text, .. } => Some(text@),
        Operator::TableGet { text } => Some(text@),
        Operator::TableSet { text } => Some(text@),
        Operator::TableSize { text } => Some(text@),
        Operator::TableGrow { text } => Some(text@),
        Operator::TableFill { text } => Some(text@),
        Operator::TableCopy { text } => Some(text@),
        Operator::TableInit { text } => Some(text@),
        // A `select` carrying an explicit type is only a problem when that type is a reference.
        Operator::TypedSelect { reference, text } => if reference {
            Some(text@)
        } else {
            None
        },
        _ => None,
    }
}

/// Whether an instruction reads, writes or creates a reference, and if so its rendering.
fn touches_a_reference(op: &Operator) -> (r: Option<String>)
    ensures
        r.deep_view() == reference_touched(*op),
{
    match op {
        Operator::RefNull { text }
        | Operator::RefIsNull { text }
        | Operator::RefFunc { text, .. }
        | Operator::TableGet { text }
        | Operator::TableSet { text }
        | Operator::TableSize { text }
        | Operator::TableGrow { text }
        | Operator::TableFill { text }
        | Operator::TableCopy { text }
        | Operator::TableInit { text } => Some(text.clone()),
        Operator::TypedSelect { reference, text } => if *reference {
            Some(text.clone())
        } else {
            None
        },
        _ => None,
    }
}

/// Structural ceilings applied on top of the admitted features.
#[derive(Debug, Clone, Copy, PartialEq, Eq, Structural)]
pub struct Limits {
    /// Largest declared memory, in 64 KiB pages. Bounds the depth of the memory commitment.
    pub max_memory_pages: u32,
    /// Largest accepted module binary, in bytes.
    pub max_module_bytes: usize,
}

impl Default for Limits {
    fn default() -> (r: Self)
        ensures
            r == (Limits { max_memory_pages: 4096, max_module_bytes: 33_554_432 }),
    {
        // 4096 pages is 256 MiB, a depth-12 page tree. Modules are distributed to browsers on
        // domestic connections, hence 32 MiB.
        Limits { max_memory_pages: 4096, max_module_bytes: 33_554_432 }
    }
}

/// Why a module was refused.
///
/// Several variants describe conditions that [`admitted_features`] already makes impossible, so
/// [`validate_submitted`] reports them as [`Invalid`](Self::Invalid) instead. They are kept
/// because the structural pass is written to stand on its own: it must stay correct if the
/// allowlist later admits a proposal.
#[derive(Debug, Clone, PartialEq, Eq)]
pub enum Rejection {
    /// The binary exceeded [`Limits::max_module_bytes`].
    TooLarge {
        /// Size of the submitted binary.
        bytes: usize,
        /// The configured ceiling.
        limit: usize,
    },
    /// The parser or the validator refused the module: malformed, invalid, or using a gated
    /// proposal.
    Invalid {
        /// The underlying parser or validator message.
        detail: String,
    },
    /// The module declares no linear memory. Work units communicate through memory.
    NoMemory,
    /// More than one memory. One memory means one page tree.
    MultipleMemories,
    /// The memory is shared, which implies threads.
    SharedMemory,
    /// A 64-bit memory. Not yet implemented by the interpreter.
    Memory64,
    /// The memory declares a non-standard page size; the commitment assumes 64 KiB.
    CustomPageSize,
    /// The memory declares no maximum, so its size would depend on the host.
    UnboundedMemory,
    /// The declared maximum exceeds [`Limits::max_memory_pages`].
    MemoryTooLarge {
        /// Declared maximum, in pages.
        pages: u64,
        /// The configured ceiling, in pages.
        limit: u32,
    },
    /// The memory is imported. Cairn supplies no memory; a workload defines its own.
    ImportedMemory,
    /// The module has a start section. Everything must run under the entry point so that all
    /// executed instructions are metered.
    StartSection,
    /// An import from somewhere other than the `cairn` module.
    ForeignImport {
        /// The module the import named.
        module: String,
        /// The import's name.
        name: String,
    },
    /// An import of a name reserved for the instrumentation pass.
    ReservedImport {
        /// The reserved name that was imported.
        name: String,
    },
    /// An export of a name reserved for the instrumentation pass.
    ReservedExport {
        /// The reserved name that was exported.
        name: String,
    },
    /// An import from the `cairn` module that is not part of the host interface.
    UnknownHostFunction {
        /// The name that was imported.
        name: String,
    },
    /// A host function imported with the wrong signature.
    HostSignatureMismatch {
        /// The host function's name.
        name: String,
        /// The signature the module declared, rendered for a human.
        declared: String,
    },
    /// A host import that is not a function: a table, a global or a tag.
    NonFunctionHostImport {
        /// The name that was imported.
        name: String,
    },
    /// A required export is missing or is of the wrong kind.
    MissingExport {
        /// The export that was expected.
        name: String,
    },
    /// A reference type appears somewhere a value can be, which no state commitment can
    /// cover.
    ReferenceValue {
        /// Where it appeared, for a human.
        at: String,
    },
    /// More than one table. The interpreter has exactly one, so a second one would be indexed
    /// correctly by every other engine and incorrectly here.
    MultipleTables,
    /// A table of something other than functions.
    NonFunctionTable,
    /// An instruction that reads, writes or creates a reference. Every one of them either
    /// puts a reference where a value goes or mutates the table.
    ReferenceInstruction {
        /// The instruction.
        operator: String,
    },
}

/// The value of a [`Rejection`].
pub enum RejectionView {
    /// The binary exceeded [`Limits::max_module_bytes`].
    TooLarge {
        /// Size of the submitted binary.
        bytes: usize,
        /// The configured ceiling.
        limit: usize,
    },
    /// The parser or the validator refused the module: malformed, invalid, or using a gated
    /// proposal.
    Invalid {
        /// The underlying parser or validator message.
        detail: Seq<char>,
    },
    /// The module declares no linear memory. Work units communicate through memory.
    NoMemory,
    /// More than one memory. One memory means one page tree.
    MultipleMemories,
    /// The memory is shared, which implies threads.
    SharedMemory,
    /// A 64-bit memory. Not yet implemented by the interpreter.
    Memory64,
    /// The memory declares a non-standard page size; the commitment assumes 64 KiB.
    CustomPageSize,
    /// The memory declares no maximum, so its size would depend on the host.
    UnboundedMemory,
    /// The declared maximum exceeds [`Limits::max_memory_pages`].
    MemoryTooLarge {
        /// Declared maximum, in pages.
        pages: u64,
        /// The configured ceiling, in pages.
        limit: u32,
    },
    /// The memory is imported. Cairn supplies no memory; a workload defines its own.
    ImportedMemory,
    /// The module has a start section. Everything must run under the entry point so that all
    /// executed instructions are metered.
    StartSection,
    /// An import from somewhere other than the `cairn` module.
    ForeignImport {
        /// The module the import named.
        module: Seq<char>,
        /// The import's name.
        name: Seq<char>,
    },
    /// An import of a name reserved for the instrumentation pass.
    ReservedImport {
        /// The reserved name that was imported.
        name: Seq<char>,
    },
    /// An export of a name reserved for the instrumentation pass.
    ReservedExport {
        /// The reserved name that was exported.
        name: Seq<char>,
    },
    /// An import from the `cairn` module that is not part of the host interface.
    UnknownHostFunction {
        /// The name that was imported.
        name: Seq<char>,
    },
    /// A host function imported with the wrong signature.
    HostSignatureMismatch {
        /// The host function's name.
        name: Seq<char>,
        /// The signature the module declared, rendered for a human.
        declared: Seq<char>,
    },
    /// A host import that is not a function: a table, a global or a tag.
    NonFunctionHostImport {
        /// The name that was imported.
        name: Seq<char>,
    },
    /// A required export is missing or is of the wrong kind.
    MissingExport {
        /// The export that was expected.
        name: Seq<char>,
    },
    /// A reference type appears somewhere a value can be, which no state commitment can
    /// cover.
    ReferenceValue {
        /// Where it appeared, for a human.
        at: Seq<char>,
    },
    /// More than one table. The interpreter has exactly one, so a second one would be indexed
    /// correctly by every other engine and incorrectly here.
    MultipleTables,
    /// A table of something other than functions.
    NonFunctionTable,
    /// An instruction that reads, writes or creates a reference. Every one of them either
    /// puts a reference where a value goes or mutates the table.
    ReferenceInstruction {
        /// The instruction.
        operator: Seq<char>,
    },
}

impl View for Rejection {
    type V = RejectionView;

    open spec fn view(&self) -> RejectionView {
        match *self {
            Rejection::TooLarge { bytes, limit } => RejectionView::TooLarge { bytes, limit },
            Rejection::Invalid { detail } => RejectionView::Invalid { detail: detail@ },
            Rejection::NoMemory => RejectionView::NoMemory,
            Rejection::MultipleMemories => RejectionView::MultipleMemories,
            Rejection::SharedMemory => RejectionView::SharedMemory,
            Rejection::Memory64 => RejectionView::Memory64,
            Rejection::CustomPageSize => RejectionView::CustomPageSize,
            Rejection::UnboundedMemory => RejectionView::UnboundedMemory,
            Rejection::MemoryTooLarge { pages, limit } => RejectionView::MemoryTooLarge { pages, limit },
            Rejection::ImportedMemory => RejectionView::ImportedMemory,
            Rejection::StartSection => RejectionView::StartSection,
            Rejection::ForeignImport { module, name } => RejectionView::ForeignImport { module: module@, name: name@ },
            Rejection::ReservedImport { name } => RejectionView::ReservedImport { name: name@ },
            Rejection::ReservedExport { name } => RejectionView::ReservedExport { name: name@ },
            Rejection::UnknownHostFunction { name } => RejectionView::UnknownHostFunction { name: name@ },
            Rejection::HostSignatureMismatch { name, declared } => RejectionView::HostSignatureMismatch { name: name@, declared: declared@ },
            Rejection::NonFunctionHostImport { name } => RejectionView::NonFunctionHostImport { name: name@ },
            Rejection::MissingExport { name } => RejectionView::MissingExport { name: name@ },
            Rejection::ReferenceValue { at } => RejectionView::ReferenceValue { at: at@ },
            Rejection::MultipleTables => RejectionView::MultipleTables,
            Rejection::NonFunctionTable => RejectionView::NonFunctionTable,
            Rejection::ReferenceInstruction { operator } => RejectionView::ReferenceInstruction { operator: operator@ },
        }
    }
}

impl RejectionView {
    /// The message a person reads.
    pub open spec fn message(self) -> Seq<char> {
        match self {
            RejectionView::TooLarge { bytes, limit } => "module is "@ + text::decimal_text(bytes as nat) + " bytes, over the "@ + text::decimal_text(limit as nat) + "-byte limit"@,
            RejectionView::Invalid { detail } => "not a valid Cairn module: "@ + detail,
            RejectionView::NoMemory => "module declares no linear memory"@,
            RejectionView::MultipleMemories => "module declares more than one memory; exactly one is required"@,
            RejectionView::SharedMemory => "shared memory implies threads, which are forbidden"@,
            RejectionView::Memory64 => "64-bit memory is not implemented by the interpreter"@,
            RejectionView::CustomPageSize => "custom page sizes are forbidden; the memory commitment assumes 64 KiB pages"@,
            RejectionView::UnboundedMemory => "memory must declare a maximum, or its size would depend on the host"@,
            RejectionView::MemoryTooLarge { pages, limit } => "memory maximum of "@ + text::decimal_text(pages as nat) + " pages exceeds the "@ + text::decimal_text(limit as nat) + "-page limit"@,
            RejectionView::ImportedMemory => "memory must be defined by the module, not imported"@,
            RejectionView::StartSection => "start sections are forbidden; all execution must occur under `cairn_run` so that every instruction is metered"@,
            RejectionView::ForeignImport { module, name } => "import `"@ + module + "::"@ + name + "` is not permitted; the only importable module is `cairn`"@,
            RejectionView::ReservedImport { name } => "`cairn::"@ + name + "` is reserved for the instrumentation pass and may not be imported directly"@,
            RejectionView::ReservedExport { name } => "`"@ + name + "` is reserved for the instrumentation pass and may not be exported by a submitted module"@,
            RejectionView::UnknownHostFunction { name } => "`cairn::"@ + name + "` is not part of the host interface"@,
            RejectionView::HostSignatureMismatch { name, declared } => "`cairn::"@ + name + "` was imported as "@ + declared + ", which is not its signature"@,
            RejectionView::NonFunctionHostImport { name } => "`cairn::"@ + name + "` was imported as something other than a function"@,
            RejectionView::MissingExport { name } => "module does not export `"@ + name + "`"@,
            RejectionView::ReferenceValue { at } => "a reference type appears in "@ + at + "; references have no host-independent representation, so no state commitment can cover one"@,
            RejectionView::MultipleTables => "module declares more than one table; the interpreter resolves `call_indirect` against a single table and ignores the instruction's table index"@,
            RejectionView::NonFunctionTable => "a table holds something other than functions; the table is the one place a reference may live, and only because `call_indirect` selects from it"@,
            RejectionView::ReferenceInstruction { operator } => "`"@ + operator + "` reads, writes or creates a reference, which cannot enter a state commitment; the table is fixed once its element segments are applied"@,
        }
    }
}

impl Rejection {
    /// A description.
    #[must_use]
    pub fn to_string(&self) -> (r: String)
        ensures
            r@ == self@.message(),
    {
        match self {
            Rejection::TooLarge { bytes, limit } => text::join5("module is ", text::decimal(*bytes as u64).as_str(), " bytes, over the ", text::decimal(*limit as u64).as_str(), "-byte limit"),
            Rejection::Invalid { detail } => text::join2("not a valid Cairn module: ", detail.as_str()),
            Rejection::NoMemory => String::from_str("module declares no linear memory"),
            Rejection::MultipleMemories => String::from_str("module declares more than one memory; exactly one is required"),
            Rejection::SharedMemory => String::from_str("shared memory implies threads, which are forbidden"),
            Rejection::Memory64 => String::from_str("64-bit memory is not implemented by the interpreter"),
            Rejection::CustomPageSize => String::from_str("custom page sizes are forbidden; the memory commitment assumes 64 KiB pages"),
            Rejection::UnboundedMemory => String::from_str("memory must declare a maximum, or its size would depend on the host"),
            Rejection::MemoryTooLarge { pages, limit } => text::join5("memory maximum of ", text::decimal(*pages).as_str(), " pages exceeds the ", text::decimal(*limit as u64).as_str(), "-page limit"),
            Rejection::ImportedMemory => String::from_str("memory must be defined by the module, not imported"),
            Rejection::StartSection => String::from_str("start sections are forbidden; all execution must occur under `cairn_run` so that every instruction is metered"),
            Rejection::ForeignImport { module, name } => text::join5("import `", module.as_str(), "::", name.as_str(), "` is not permitted; the only importable module is `cairn`"),
            Rejection::ReservedImport { name } => text::join3("`cairn::", name.as_str(), "` is reserved for the instrumentation pass and may not be imported directly"),
            Rejection::ReservedExport { name } => text::join3("`", name.as_str(), "` is reserved for the instrumentation pass and may not be exported by a submitted module"),
            Rejection::UnknownHostFunction { name } => text::join3("`cairn::", name.as_str(), "` is not part of the host interface"),
            Rejection::HostSignatureMismatch { name, declared } => text::join5("`cairn::", name.as_str(), "` was imported as ", declared.as_str(), ", which is not its signature"),
            Rejection::NonFunctionHostImport { name } => text::join3("`cairn::", name.as_str(), "` was imported as something other than a function"),
            Rejection::MissingExport { name } => text::join3("module does not export `", name.as_str(), "`"),
            Rejection::ReferenceValue { at } => text::join3("a reference type appears in ", at.as_str(), "; references have no host-independent representation, so no state commitment can cover one"),
            Rejection::MultipleTables => String::from_str("module declares more than one table; the interpreter resolves `call_indirect` against a single table and ignores the instruction's table index"),
            Rejection::NonFunctionTable => String::from_str("a table holds something other than functions; the table is the one place a reference may live, and only because `call_indirect` selects from it"),
            Rejection::ReferenceInstruction { operator } => text::join3("`", operator.as_str(), "` reads, writes or creates a reference, which cannot enter a state commitment; the table is fixed once its element segments are applied"),
        }
    }
}

/// What the rest of the pipeline needs to know about an accepted module.
#[derive(Debug, Clone, Copy, PartialEq, Eq, Structural)]
pub struct ModuleFacts {
    /// Initial memory size in 64 KiB pages.
    pub memory_pages_min: u32,
    /// Declared maximum memory size in 64 KiB pages. Sizes the memory commitment.
    pub memory_pages_max: u32,
    /// Whether the module reads its work unit input.
    pub imports_input: bool,
    /// Whether the module writes a result. A module that never calls `output` can still be
    /// valid, so this is reported rather than enforced.
    pub imports_output: bool,
}

/// The signature each host function must be imported with.
pub open spec fn host_type(name: Seq<char>) -> Option<FuncTypeView> {
    if name == HOST_INPUT@ {
        Some(
            FuncTypeView {
                params: seq![ValTypeView::I32, ValTypeView::I32],
                results: seq![ValTypeView::I32],
            },
        )
    } else if name == HOST_OUTPUT@ {
        Some(
            FuncTypeView {
                params: seq![ValTypeView::I32, ValTypeView::I32],
                results: Seq::empty(),
            },
        )
    } else {
        None
    }
}

/// The signature each host function must be imported with.
fn host_signature(name: &String) -> (r: Option<FuncType>)
    ensures
        r.deep_view() == host_type(name@),
{
    let mut params: Vec<ValType> = Vec::new();
    params.push(ValType::I32);
    params.push(ValType::I32);
    let mut results: Vec<ValType> = Vec::new();
    assert(params.deep_view() =~= seq![ValTypeView::I32, ValTypeView::I32]);
    if is_text(name, HOST_INPUT) {
        results.push(ValType::I32);
        assert(results.deep_view() =~= seq![ValTypeView::I32]);
        Some(FuncType { params, results })
    } else if is_text(name, HOST_OUTPUT) {
        assert(results.deep_view() =~= Seq::empty());
        Some(FuncType { params, results })
    } else {
        None
    }
}

/// How a type is written in a signature.
pub open spec fn written(ty: ValTypeView) -> Seq<char> {
    match ty {
        ValTypeView::I32 => "i32"@,
        ValTypeView::I64 => "i64"@,
        ValTypeView::F32 => "f32"@,
        ValTypeView::F64 => "f64"@,
        ValTypeView::V128 => "v128"@,
        ValTypeView::Ref(name) => name,
    }
}

/// Types, separated by commas.
pub open spec fn written_list(types: Seq<ValTypeView>) -> Seq<char>
    decreases types.len(),
{
    if types.len() == 0 {
        Seq::empty()
    } else if types.len() == 1 {
        written(types[0])
    } else {
        written_list(types.drop_last()) + ", "@ + written(types.last())
    }
}

/// A signature, as the messages render it.
pub open spec fn written_signature(f: FuncTypeView) -> Seq<char> {
    "("@ + written_list(f.params) + ") -> ("@ + written_list(f.results) + ")"@
}

/// Append how a type is written.
fn write_type(out: &mut String, ty: &ValType)
    ensures
        final(out)@ == old(out)@ + written(ty.deep_view()),
{
    match ty {
        ValType::I32 => out.append("i32"),
        ValType::I64 => out.append("i64"),
        ValType::F32 => out.append("f32"),
        ValType::F64 => out.append("f64"),
        ValType::V128 => out.append("v128"),
        ValType::Ref { name } => out.append(name.as_str()),
    }
}

/// Types, separated by commas.
fn write_list(types: &Vec<ValType>) -> (r: String)
    ensures
        r@ == written_list(types.deep_view()),
{
    let ghost all = types.deep_view();
    let mut out = String::from_str("");
    proof {
        reveal_strlit("");
        assert(out@ =~= Seq::empty());
        assert(all.take(0) =~= Seq::empty());
    }
    let mut i: usize = 0;
    while i < types.len()
        invariant
            i <= types@.len(),
            all == types.deep_view(),
            out@ == written_list(all.take(i as int)),
        decreases types@.len() - i,
    {
        let ghost before = out@;
        if i > 0 {
            out.append(", ");
        }
        write_type(&mut out, &types[i]);
        i = i + 1;
        proof {
            assert(all.take(i as int).drop_last() =~= all.take(i - 1));
            assert(all.take(i as int).last() == types@[i - 1].deep_view());
            if i == 1 {
                assert(out@ =~= written(all[0]));
            }
        }
    }
    assert(all.take(i as int) =~= all);
    out
}

/// Render a signature the way the error messages do.
fn render_signature(f: &FuncType) -> (r: String)
    ensures
        r@ == written_signature(f.deep_view()),
{
    text::join5(
        "(",
        write_list(&f.params).as_str(),
        ") -> (",
        write_list(&f.results).as_str(),
        ")",
    )
}

/// What has been seen of a module so far.
pub struct Survey {
    /// Function types, in type-section order.
    pub types: Seq<FuncTypeView>,
    /// The memory.
    pub memory: Option<MemoryType>,
    /// Is `input` imported?
    pub imports_input: bool,
    /// Is `output` imported?
    pub imports_output: bool,
    /// Is the entry point exported?
    pub exports_entry: bool,
    /// Is the memory exported?
    pub exports_memory: bool,
}

/// The end of a list that the reader gave up on, or not.
pub open spec fn closed<S>(r: Result<S, RejectionView>, error: Option<Seq<char>>) -> Result<
    S,
    RejectionView,
> {
    match (r, error) {
        (Ok(_), Some(detail)) => Err(RejectionView::Invalid { detail }),
        _ => r,
    }
}

/// The first reference among some types.
pub open spec fn first_reference(types: Seq<ValTypeView>) -> Option<Seq<char>>
    decreases types.len(),
{
    if types.len() == 0 {
        None
    } else {
        match types[0] {
            ValTypeView::Ref(name) => Some(name),
            _ => first_reference(types.drop_first()),
        }
    }
}

/// One type. One that is no function type keeps its place with an empty signature.
pub open spec fn type_seen(s: Survey, t: Option<(Seq<Seq<char>>, Seq<Seq<char>>)>) -> Result<
    Survey,
    RejectionView,
> {
    match t {
        None => Ok(
            Survey {
                types: s.types.push(
                    FuncTypeView { params: Seq::empty(), results: Seq::empty() },
                ),
                ..s
            },
        ),
        Some((params, results)) => {
            let f = FuncTypeView { params: types_named(params), results: types_named(results) };
            match first_reference(f.params + f.results) {
                Some(name) => Err(
                    RejectionView::ReferenceValue {
                        at: "function type "@ + text::decimal_text(s.types.len()) + " ("@ + name
                            + ")"@,
                    },
                ),
                None => Ok(Survey { types: s.types.push(f), ..s }),
            }
        },
    }
}

/// One import.
pub open spec fn import_seen(s: Survey, i: ImportView) -> Result<Survey, RejectionView> {
    let ImportView { module, name, ty } = i;
    if module != HOST_MODULE@ {
        Err(RejectionView::ForeignImport { module, name })
    } else if name == HOST_CHARGE@ {
        Err(RejectionView::ReservedImport { name })
    } else {
        match ty {
            ImportTypeView::Memory => Err(RejectionView::ImportedMemory),
            ImportTypeView::Func(type_index) => match host_type(name) {
                None => Err(RejectionView::UnknownHostFunction { name }),
                Some(wanted) => if type_index >= s.types.len() {
                    Err(
                        RejectionView::Invalid {
                            detail: "import refers to undeclared type index "@
                                + text::decimal_text(type_index as nat),
                        },
                    )
                } else if s.types[type_index as int] != wanted {
                    Err(
                        RejectionView::HostSignatureMismatch {
                            name,
                            declared: written_signature(s.types[type_index as int]),
                        },
                    )
                } else {
                    Ok(
                        Survey {
                            imports_input: s.imports_input || name == HOST_INPUT@,
                            imports_output: s.imports_output || name == HOST_OUTPUT@,
                            ..s
                        },
                    )
                },
            },
            _ => Err(RejectionView::NonFunctionHostImport { name }),
        }
    }
}

/// One memory.
pub open spec fn memory_seen(s: Survey, m: MemoryType) -> Result<Survey, RejectionView> {
    if s.memory is Some {
        Err(RejectionView::MultipleMemories)
    } else {
        Ok(Survey { memory: Some(m), ..s })
    }
}

/// One table, after so many others of the section.
pub open spec fn table_seen(seen: nat, t: TableType) -> Result<nat, RejectionView> {
    if seen > 0 {
        Err(RejectionView::MultipleTables)
    } else if !t.holds_functions {
        Err(RejectionView::NonFunctionTable)
    } else {
        Ok(seen + 1)
    }
}

/// One global, after so many others of the section.
pub open spec fn global_seen(seen: nat, g: GlobalView) -> Result<nat, RejectionView> {
    if type_named(g.content) is Ref {
        Err(RejectionView::ReferenceValue { at: "global "@ + text::decimal_text(seen) })
    } else {
        Ok(seen + 1)
    }
}

/// One run of locals.
pub open spec fn local_seen(s: (), run: (u32, Seq<char>)) -> Result<(), RejectionView> {
    match type_named(run.1) {
        ValTypeView::Ref(name) => Err(
            RejectionView::ReferenceValue { at: "a local ("@ + name + ")"@ },
        ),
        _ => Ok(()),
    }
}

/// One instruction.
pub open spec fn operator_seen(s: (), op: Operator) -> Result<(), RejectionView> {
    match reference_touched(op) {
        Some(operator) => Err(RejectionView::ReferenceInstruction { operator }),
        None => Ok(()),
    }
}

/// One export.
pub open spec fn export_seen(s: Survey, e: ExportView) -> Result<Survey, RejectionView> {
    if e.name == ENTRY_POINT@ && e.kind is Func {
        Ok(Survey { exports_entry: true, ..s })
    } else if e.name == MEMORY_EXPORT@ && e.kind is Memory {
        Ok(Survey { exports_memory: true, ..s })
    } else if e.name == FUEL_EXPORT@ {
        Err(RejectionView::ReservedExport { name: FUEL_EXPORT@ })
    } else {
        Ok(s)
    }
}

/// A function body: its locals, and then its instructions.
pub open spec fn body_seen(b: BodyView) -> Result<(), RejectionView> {
    let (runs, error) = b.locals;
    match closed(each((), runs, |s: (), run: (u32, Seq<char>)| local_seen(s, run)), error) {
        Err(e) => Err(e),
        Ok(_) => match b.code {
            Err(detail) => Err(RejectionView::Invalid { detail }),
            Ok(listing) => closed(
                each((), listing.ops, |s: (), op: Operator| operator_seen(s, op)),
                if listing.complete {
                    None
                } else {
                    Some(listing.error)
                },
            ),
        },
    }
}

/// The state after something that leaves it alone.
pub open spec fn unless_refused<T>(s: Survey, r: Result<T, RejectionView>) -> Result<
    Survey,
    RejectionView,
> {
    match r {
        Ok(_) => Ok(s),
        Err(e) => Err(e),
    }
}

/// One part of a module.
pub open spec fn part_seen(s: Survey, p: PartView) -> Result<Survey, RejectionView> {
    match p {
        PartView::Types(types, error) => closed(
            each(
                s,
                types,
                |s: Survey, t: Option<(Seq<Seq<char>>, Seq<Seq<char>>)>| type_seen(s, t),
            ),
            error,
        ),
        PartView::Imports(imports, error) => closed(
            each(s, imports, |s: Survey, i: ImportView| import_seen(s, i)),
            error,
        ),
        PartView::Memories(memories, error) => closed(
            each(s, memories, |s: Survey, m: MemoryType| memory_seen(s, m)),
            error,
        ),
        PartView::Start(_) => Err(RejectionView::StartSection),
        PartView::Tables(tables, error) => unless_refused(
            s,
            closed(each(0nat, tables, |n: nat, t: TableType| table_seen(n, t)), error),
        ),
        PartView::Globals(globals, error) => unless_refused(
            s,
            closed(each(0nat, globals, |n: nat, g: GlobalView| global_seen(n, g)), error),
        ),
        PartView::Code(b) => unless_refused(s, body_seen(b)),
        PartView::Exports(exports, error) => closed(
            each(s, exports, |s: Survey, e: ExportView| export_seen(s, e)),
            error,
        ),
        _ => Ok(s),
    }
}

/// A module in which nothing has been seen yet.
pub open spec fn unseen() -> Survey {
    Survey {
        types: Seq::empty(),
        memory: None,
        imports_input: false,
        imports_output: false,
        exports_entry: false,
        exports_memory: false,
    }
}

/// What the parts of a module come to, one after another.
pub open spec fn parts_seen(m: ModuleView) -> Result<Survey, RejectionView> {
    closed(each(unseen(), m.parts, |s: Survey, p: PartView| part_seen(s, p)), m.error)
}

/// The rules on what has been seen of a whole module.
pub open spec fn concluded(s: Survey, limits: Limits) -> Result<ModuleFacts, RejectionView> {
    match s.memory {
        None => Err(RejectionView::NoMemory),
        Some(memory) => if memory.shared {
            Err(RejectionView::SharedMemory)
        } else if memory.memory64 {
            Err(RejectionView::Memory64)
        } else if memory.page_size_log2 is Some {
            Err(RejectionView::CustomPageSize)
        } else {
            match memory.maximum {
                None => Err(RejectionView::UnboundedMemory),
                Some(maximum) => if maximum > limits.max_memory_pages {
                    Err(
                        RejectionView::MemoryTooLarge {
                            pages: maximum,
                            limit: limits.max_memory_pages,
                        },
                    )
                } else if !s.exports_entry {
                    Err(RejectionView::MissingExport { name: ENTRY_POINT@ })
                } else if !s.exports_memory {
                    Err(RejectionView::MissingExport { name: MEMORY_EXPORT@ })
                } else {
                    Ok(
                        ModuleFacts {
                            memory_pages_min: memory.initial as u32,
                            memory_pages_max: maximum as u32,
                            imports_input: s.imports_input,
                            imports_output: s.imports_output,
                        },
                    )
                },
            }
        },
    }
}

/// What the structural rules make of a module.
pub open spec fn inspected(m: ModuleView, limits: Limits) -> Result<ModuleFacts, RejectionView> {
    match parts_seen(m) {
        Err(e) => Err(e),
        Ok(s) => concluded(s, limits),
    }
}

/// What becomes of a submitted module.
pub open spec fn submitted(module: Seq<u8>, limits: Limits) -> Result<ModuleFacts, RejectionView> {
    if module.len() > limits.max_module_bytes {
        Err(
            RejectionView::TooLarge {
                bytes: module.len() as usize,
                limit: limits.max_module_bytes,
            },
        )
    } else {
        match objection_to(module, admitted()) {
            Some(detail) => Err(RejectionView::Invalid { detail }),
            None => inspected(module_of(module), limits),
        }
    }
}

/// What has been seen of a module so far.
struct Surveying {
    types: Vec<FuncType>,
    memory: Option<MemoryType>,
    imports_input: bool,
    imports_output: bool,
    exports_entry: bool,
    exports_memory: bool,
}

/// Did something end as it should?
spec fn agrees<T>(r: Result<(), Rejection>, s: Result<T, RejectionView>) -> bool {
    match (r, s) {
        (Ok(_), Ok(_)) => true,
        (Err(e), Err(f)) => e@ == f,
        _ => false,
    }
}

/// The list ended in the reader's error, if there was one.
fn close(error: &Option<String>) -> (r: Result<(), Rejection>)
    ensures
        match (r, error.deep_view()) {
            (Ok(_), None) => true,
            (Err(e), Some(f)) => e@ == (RejectionView::Invalid { detail: f }),
            _ => false,
        },
{
    match error {
        Some(detail) => Err(Rejection::Invalid { detail: detail.clone() }),
        None => Ok(()),
    }
}

/// The first reference among some types.
fn find_reference(types: &Vec<ValType>) -> (r: Option<String>)
    ensures
        r.deep_view() == first_reference(types.deep_view()),
{
    let ghost all = types.deep_view();
    let mut i: usize = 0;
    assert(all.skip(0) =~= all);
    while i < types.len()
        invariant
            i <= types@.len(),
            all == types.deep_view(),
            first_reference(all.skip(i as int)) == first_reference(all),
        decreases types@.len() - i,
    {
        assert(all.skip(i as int).drop_first() =~= all.skip(i + 1));
        assert(all.skip(i as int)[0] == types@[i as int].deep_view());
        if let ValType::Ref { name } = &types[i] {
            return Some(name.clone());
        }
        i = i + 1;
    }
    None
}

proof fn lemma_first_reference(a: Seq<ValTypeView>, b: Seq<ValTypeView>)
    ensures
        first_reference(a + b) == (match first_reference(a) {
            Some(name) => Some(name),
            None => first_reference(b),
        }),
    decreases a.len(),
{
    if a.len() == 0 {
        assert(a + b =~= b);
    } else {
        assert((a + b).drop_first() =~= a.drop_first() + b);
        lemma_first_reference(a.drop_first(), b);
    }
}

impl Surveying {
    spec fn surveys(&self, s: Survey) -> bool {
        &&& self.types.deep_view() == s.types
        &&& self.memory == s.memory
        &&& self.imports_input == s.imports_input
        &&& self.imports_output == s.imports_output
        &&& self.exports_entry == s.exports_entry
        &&& self.exports_memory == s.exports_memory
    }

    /// Did taking something in do what it should?
    spec fn took(&self, r: Result<(), Rejection>, s: Result<Survey, RejectionView>) -> bool {
        match (r, s) {
            (Ok(_), Ok(s)) => self.surveys(s),
            (Err(e), Err(f)) => e@ == f,
            _ => false,
        }
    }

    /// One type.
    fn see_type(
        &mut self,
        t: &Option<(Vec<String>, Vec<String>)>,
        Ghost(s): Ghost<Survey>,
    ) -> (r: Result<(), Rejection>)
        requires
            old(self).surveys(s),
        ensures
            final(self).took(r, type_seen(s, t.deep_view())),
    {
        let ghost before = self.types.deep_view();
        let f = match t {
            None => {
                let f = FuncType { params: Vec::new(), results: Vec::new() };
                assert(f.params.deep_view() =~= Seq::empty());
                assert(f.results.deep_view() =~= Seq::empty());
                f
            },
            Some((params, results)) => {
                let f = FuncType {
                    params: wasm::name_types(params),
                    results: wasm::name_types(results),
                };
                proof {
                    lemma_first_reference(f.params.deep_view(), f.results.deep_view());
                }
                let found = match find_reference(&f.params) {
                    Some(name) => Some(name),
                    None => find_reference(&f.results),
                };
                if let Some(name) = found {
                    return Err(
                        Rejection::ReferenceValue {
                            at: text::join5(
                                "function type ",
                                text::decimal(self.types.len() as u64).as_str(),
                                " (",
                                name.as_str(),
                                ")",
                            ),
                        },
                    );
                }
                f
            },
        };
        self.types.push(f);
        assert(self.types.deep_view() =~= before.push(f.deep_view()));
        Ok(())
    }

    /// One import.
    fn see_import(
        &mut self,
        i: &Import,
        Ghost(s): Ghost<Survey>,
    ) -> (r: Result<(), Rejection>)
        requires
            old(self).surveys(s),
        ensures
            final(self).took(r, import_seen(s, i.deep_view())),
    {
        let Import { module, name, ty } = i;
        if !is_text(module, HOST_MODULE) {
            return Err(Rejection::ForeignImport { module: module.clone(), name: name.clone() });
        }
        if is_text(name, HOST_CHARGE) {
            return Err(Rejection::ReservedImport { name: name.clone() });
        }
        let type_index: u32 = match ty {
            ImportType::Func(i) => *i,
            ImportType::Memory => return Err(Rejection::ImportedMemory),
            _ => return Err(Rejection::NonFunctionHostImport { name: name.clone() }),
        };
        let wanted = match host_signature(name) {
            Some(f) => f,
            None => return Err(Rejection::UnknownHostFunction { name: name.clone() }),
        };
        if type_index as usize >= self.types.len() {
            return Err(
                Rejection::Invalid {
                    detail: text::join2(
                        "import refers to undeclared type index ",
                        text::decimal(type_index as u64).as_str(),
                    ),
                },
            );
        }
        let declared = &self.types[type_index as usize];
        assert(declared.deep_view() == s.types[type_index as int]);
        if !declared.same(&wanted) {
            return Err(
                Rejection::HostSignatureMismatch {
                    name: name.clone(),
                    declared: render_signature(declared),
                },
            );
        }
        if is_text(name, HOST_INPUT) {
            self.imports_input = true;
        }
        if is_text(name, HOST_OUTPUT) {
            self.imports_output = true;
        }
        Ok(())
    }

    /// One export.
    fn see_export(&mut self, e: &Export, Ghost(s): Ghost<Survey>) -> (r: Result<(), Rejection>)
        requires
            old(self).surveys(s),
        ensures
            final(self).took(r, export_seen(s, e.deep_view())),
    {
        if is_text(&e.name, ENTRY_POINT) && matches!(e.kind, ExternalKind::Func) {
            self.exports_entry = true;
            return Ok(());
        }
        if is_text(&e.name, MEMORY_EXPORT) && matches!(e.kind, ExternalKind::Memory) {
            self.exports_memory = true;
            return Ok(());
        }
        if is_text(&e.name, FUEL_EXPORT) {
            return Err(Rejection::ReservedExport { name: String::from_str(FUEL_EXPORT) });
        }
        Ok(())
    }
}

impl Surveying {
    /// The type section.
    fn take_types(
        &mut self,
        items: &Vec<Option<(Vec<String>, Vec<String>)>>,
        error: &Option<String>,
        Ghost(s): Ghost<Survey>,
    ) -> (r: Result<(), Rejection>)
        requires
            old(self).surveys(s),
        ensures
            final(self).took(
                r,
                part_seen(s, PartView::Types(items.deep_view(), error.deep_view())),
            ),
    {
        let ghost found = items.deep_view();
        let ghost one = |s: Survey, t: Option<(Seq<Seq<char>>, Seq<Seq<char>>)>| type_seen(s, t);
        let ghost mut now = s;
        let mut i: usize = 0;
        assert(found.skip(0) =~= found);
        while i < items.len()
            invariant
                i <= items@.len() == found.len(),
                items.deep_view() == found,
                one == (|s: Survey, t: Option<(Seq<Seq<char>>, Seq<Seq<char>>)>| type_seen(s, t)),
                self.surveys(now),
                each(now, found.skip(i as int), one) == each(s, found, one),
            decreases items@.len() - i,
        {
            proof {
                assert(found.skip(i as int).drop_first() =~= found.skip(i + 1));
                assert(found.skip(i as int)[0] == found[i as int]);
            }
            match self.see_type(&items[i], Ghost(now)) {
                Ok(_) => {},
                Err(e) => return Err(e),
            }
            proof {
                now = one(now, found[i as int])->Ok_0;
            }
            i = i + 1;
        }
        close(error)
    }

    /// The import section.
    fn take_imports(
        &mut self,
        items: &Vec<Import>,
        error: &Option<String>,
        Ghost(s): Ghost<Survey>,
    ) -> (r: Result<(), Rejection>)
        requires
            old(self).surveys(s),
        ensures
            final(self).took(
                r,
                part_seen(s, PartView::Imports(items.deep_view(), error.deep_view())),
            ),
    {
        let ghost found = items.deep_view();
        let ghost one = |s: Survey, i: ImportView| import_seen(s, i);
        let ghost mut now = s;
        let mut i: usize = 0;
        assert(found.skip(0) =~= found);
        while i < items.len()
            invariant
                i <= items@.len() == found.len(),
                items.deep_view() == found,
                one == (|s: Survey, i: ImportView| import_seen(s, i)),
                self.surveys(now),
                each(now, found.skip(i as int), one) == each(s, found, one),
            decreases items@.len() - i,
        {
            proof {
                assert(found.skip(i as int).drop_first() =~= found.skip(i + 1));
                assert(found.skip(i as int)[0] == found[i as int]);
            }
            match self.see_import(&items[i], Ghost(now)) {
                Ok(_) => {},
                Err(e) => return Err(e),
            }
            proof {
                now = one(now, found[i as int])->Ok_0;
            }
            i = i + 1;
        }
        close(error)
    }

    /// The memory section.
    fn take_memories(
        &mut self,
        items: &Vec<MemoryType>,
        error: &Option<String>,
        Ghost(s): Ghost<Survey>,
    ) -> (r: Result<(), Rejection>)
        requires
            old(self).surveys(s),
        ensures
            final(self).took(
                r,
                part_seen(s, PartView::Memories(items@, error.deep_view())),
            ),
    {
        let ghost found = items@;
        let ghost one = |s: Survey, m: MemoryType| memory_seen(s, m);
        let ghost mut now = s;
        let mut i: usize = 0;
        assert(found.skip(0) =~= found);
        while i < items.len()
            invariant
                i <= items@.len() == found.len(),
                items@ == found,
                one == (|s: Survey, m: MemoryType| memory_seen(s, m)),
                self.surveys(now),
                each(now, found.skip(i as int), one) == each(s, found, one),
            decreases items@.len() - i,
        {
            proof {
                assert(found.skip(i as int).drop_first() =~= found.skip(i + 1));
                assert(found.skip(i as int)[0] == found[i as int]);
            }
            match self.see_memory(items[i], Ghost(now)) {
                Ok(_) => {},
                Err(e) => return Err(e),
            }
            proof {
                now = one(now, found[i as int])->Ok_0;
            }
            i = i + 1;
        }
        close(error)
    }

    /// The export section.
    fn take_exports(
        &mut self,
        items: &Vec<Export>,
        error: &Option<String>,
        Ghost(s): Ghost<Survey>,
    ) -> (r: Result<(), Rejection>)
        requires
            old(self).surveys(s),
        ensures
            final(self).took(
                r,
                part_seen(s, PartView::Exports(items.deep_view(), error.deep_view())),
            ),
    {
        let ghost found = items.deep_view();
        let ghost one = |s: Survey, e: ExportView| export_seen(s, e);
        let ghost mut now = s;
        let mut i: usize = 0;
        assert(found.skip(0) =~= found);
        while i < items.len()
            invariant
                i <= items@.len() == found.len(),
                items.deep_view() == found,
                one == (|s: Survey, e: ExportView| export_seen(s, e)),
                self.surveys(now),
                each(now, found.skip(i as int), one) == each(s, found, one),
            decreases items@.len() - i,
        {
            proof {
                assert(found.skip(i as int).drop_first() =~= found.skip(i + 1));
                assert(found.skip(i as int)[0] == found[i as int]);
            }
            match self.see_export(&items[i], Ghost(now)) {
                Ok(_) => {},
                Err(e) => return Err(e),
            }
            proof {
                now = one(now, found[i as int])->Ok_0;
            }
            i = i + 1;
        }
        close(error)
    }

    /// One memory.
    fn see_memory(&mut self, m: MemoryType, Ghost(s): Ghost<Survey>) -> (r: Result<(), Rejection>)
        requires
            old(self).surveys(s),
        ensures
            final(self).took(r, memory_seen(s, m)),
    {
        if self.memory.is_some() {
            return Err(Rejection::MultipleMemories);
        }
        self.memory = Some(m);
        Ok(())
    }
}

/// The table section.
fn check_tables(items: &Vec<TableType>, error: &Option<String>) -> (r: Result<(), Rejection>)
    ensures
        forall|s: Survey|
            agrees(r, #[trigger] part_seen(s, PartView::Tables(items@, error.deep_view()))),
{
    let ghost found = items@;
    let ghost one = |n: nat, t: TableType| table_seen(n, t);
    let ghost mut now: nat = 0nat;
    let mut i: usize = 0;
    assert(found.skip(0) =~= found);
    while i < items.len()
        invariant
            i <= items@.len() == found.len(),
            items@ == found,
            one == (|n: nat, t: TableType| table_seen(n, t)),
            now == i,
            each(now, found.skip(i as int), one) == each(0nat, found, one),
        decreases items@.len() - i,
    {
        proof {
            assert(found.skip(i as int).drop_first() =~= found.skip(i + 1));
            assert(found.skip(i as int)[0] == found[i as int]);
        }
        if i > 0 {
            return Err(Rejection::MultipleTables);
        }
        if !items[i].holds_functions {
            return Err(Rejection::NonFunctionTable);
        }
        proof {
            now = one(now, found[i as int])->Ok_0;
        }
        i = i + 1;
    }
    close(error)
}

/// The global section.
fn check_globals(
    items: &Vec<Global>,
    error: &Option<String>,
    Ghost(found): Ghost<Seq<GlobalView>>,
) -> (r: Result<(), Rejection>)
    requires
        same_globals(items.deep_view(), found),
    ensures
        forall|s: Survey|
            agrees(r, #[trigger] part_seen(s, PartView::Globals(found, error.deep_view()))),
{
    let ghost one = |n: nat, g: GlobalView| global_seen(n, g);
    let ghost mut now: nat = 0nat;
    let mut i: usize = 0;
    assert(found.skip(0) =~= found);
    while i < items.len()
        invariant
            i <= items@.len() == found.len(),
            same_globals(items.deep_view(), found),
            one == (|n: nat, g: GlobalView| global_seen(n, g)),
            now == i,
            each(now, found.skip(i as int), one) == each(0nat, found, one),
        decreases items@.len() - i,
    {
        proof {
            assert(found.skip(i as int).drop_first() =~= found.skip(i + 1));
            assert(found.skip(i as int)[0] == found[i as int]);
        }
        assert(items.deep_view()[i as int].content == found[i as int].content);
        if is_reference(&ValType::named(&items[i].content)) {
            return Err(
                Rejection::ReferenceValue {
                    at: text::join2("global ", text::decimal(i as u64).as_str()),
                },
            );
        }
        proof {
            now = one(now, found[i as int])->Ok_0;
        }
        i = i + 1;
    }
    close(error)
}

/// The locals of a body.
fn check_locals(items: &Vec<(u32, String)>) -> (r: Result<(), Rejection>)
    ensures
        agrees(
            r,
            each((), items.deep_view(), |s: (), run: (u32, Seq<char>)| local_seen(s, run)),
        ),
{
    let ghost found = items.deep_view();
    let ghost one = |s: (), run: (u32, Seq<char>)| local_seen(s, run);
    let ghost mut now: () = ();
    let mut i: usize = 0;
    assert(found.skip(0) =~= found);
    while i < items.len()
        invariant
            i <= items@.len() == found.len(),
            found == items.deep_view(),
            one == (|s: (), run: (u32, Seq<char>)| local_seen(s, run)),
            each(now, found.skip(i as int), one) == each((), found, one),
        decreases items@.len() - i,
    {
        proof {
            assert(found.skip(i as int).drop_first() =~= found.skip(i + 1));
            assert(found.skip(i as int)[0] == found[i as int]);
        }
        if let ValType::Ref { name } = ValType::named(&items[i].1) {
            return Err(
                Rejection::ReferenceValue { at: text::join3("a local (", name.as_str(), ")") },
            );
        }
        proof {
            now = one(now, found[i as int])->Ok_0;
        }
        i = i + 1;
    }
    Ok(())
}

/// The instructions of a body.
fn check_operators(items: &Vec<Operator>, Ghost(found): Ghost<Seq<Operator>>) -> (r: Result<(), Rejection>)
    requires
        same_operators(items@, found),
    ensures
        agrees(r, each((), found, |s: (), op: Operator| operator_seen(s, op))),
{
    let ghost one = |s: (), op: Operator| operator_seen(s, op);
    let ghost mut now: () = ();
    let mut i: usize = 0;
    assert(found.skip(0) =~= found);
    while i < items.len()
        invariant
            i <= items@.len() == found.len(),
            same_operators(items@, found),
            one == (|s: (), op: Operator| operator_seen(s, op)),
            each(now, found.skip(i as int), one) == each((), found, one),
        decreases items@.len() - i,
    {
        proof {
            assert(found.skip(i as int).drop_first() =~= found.skip(i + 1));
            assert(found.skip(i as int)[0] == found[i as int]);
        }
        assert(same_operator(items@[i as int], found[i as int]));
        if let Some(operator) = touches_a_reference(&items[i]) {
            return Err(Rejection::ReferenceInstruction { operator });
        }
        proof {
            now = one(now, found[i as int])->Ok_0;
        }
        i = i + 1;
    }
    Ok(())
}

/// A function body.
fn check_body(b: &Body, Ghost(v): Ghost<BodyView>) -> (r: Result<(), Rejection>)
    requires
        same_body(b.deep_view(), v),
    ensures
        forall|s: Survey| agrees(r, #[trigger] part_seen(s, PartView::Code(v))),
{
    match check_locals(&b.locals.0) {
        Ok(_) => {},
        Err(e) => return Err(e),
    }
    match close(&b.locals.1) {
        Ok(_) => {},
        Err(e) => return Err(e),
    }
    let listing = match &b.code {
        Ok(listing) => listing,
        Err(detail) => return Err(Rejection::Invalid { detail: detail.clone() }),
    };
    match check_operators(&listing.ops, Ghost(v.code->Ok_0.ops)) {
        Ok(_) => {},
        Err(e) => return Err(e),
    }
    if listing.complete {
        Ok(())
    } else {
        Err(Rejection::Invalid { detail: listing.error.clone() })
    }
}

/// Walk a module applying the structural rules.
fn walk(m: &Module, limits: Limits, Ghost(v): Ghost<ModuleView>) -> (r: Result<
    ModuleFacts,
    Rejection,
>)
    requires
        same_module(m.deep_view(), v),
    ensures
        match (r, inspected(v, limits)) {
            (Ok(a), Ok(b)) => a == b,
            (Err(e), Err(f)) => e@ == f,
            _ => false,
        },
{
    let mut seen = Surveying {
        types: Vec::new(),
        memory: None,
        imports_input: false,
        imports_output: false,
        exports_entry: false,
        exports_memory: false,
    };
    assert(seen.types.deep_view() =~= unseen().types);
    let ghost found = v.parts;
    let ghost one = |s: Survey, p: PartView| part_seen(s, p);
    let ghost mut now = unseen();
    let mut i: usize = 0;
    assert(found.skip(0) =~= found);
    while i < m.parts.len()
        invariant
            i <= m.parts@.len() == found.len(),
            found == v.parts,
            same_module(m.deep_view(), v),
            one == (|s: Survey, p: PartView| part_seen(s, p)),
            seen.surveys(now),
            each(now, found.skip(i as int), one) == each(unseen(), found, one),
        decreases m.parts@.len() - i,
    {
        proof {
            assert(found.skip(i as int).drop_first() =~= found.skip(i + 1));
            assert(found.skip(i as int)[0] == found[i as int]);
            assert(same_part(m.deep_view().parts[i as int], found[i as int]));
            assert(m.deep_view().parts[i as int] == m.parts@[i as int].deep_view());
        }
        let taken = match &m.parts[i] {
            Part::Types(items, error) => seen.take_types(items, error, Ghost(now)),
            Part::Imports(items, error) => seen.take_imports(items, error, Ghost(now)),
            Part::Memories(items, error) => seen.take_memories(items, error, Ghost(now)),
            Part::Start(_) => Err(Rejection::StartSection),
            Part::Tables(items, error) => check_tables(items, error),
            Part::Globals(items, error) => check_globals(
                items,
                error,
                Ghost(found[i as int]->Globals_0),
            ),
            Part::Code(b) => check_body(b, Ghost(found[i as int]->Code_0)),
            Part::Exports(items, error) => seen.take_exports(items, error, Ghost(now)),
            _ => Ok(()),
        };
        assert(seen.took(taken, part_seen(now, found[i as int])));
        match taken {
            Ok(_) => {},
            Err(e) => return Err(e),
        }
        proof {
            now = one(now, found[i as int])->Ok_0;
        }
        i = i + 1;
    }
    match close(&m.error) {
        Ok(_) => {},
        Err(e) => return Err(e),
    }
    conclude(&seen, limits, Ghost(now))
}

/// Apply the structural rules to a module that has been read. Assumes spec validity.
pub fn inspect(m: &Module, limits: Limits) -> (r: Result<ModuleFacts, Rejection>)
    ensures
        match (r, inspected(m.deep_view(), limits)) {
            (Ok(a), Ok(b)) => a == b,
            (Err(e), Err(f)) => e@ == f,
            _ => false,
        },
{
    proof {
        lemma_same_module(m.deep_view());
    }
    walk(m, limits, Ghost(m.deep_view()))
}

/// The rules on what has been seen of a whole module.
fn conclude(seen: &Surveying, limits: Limits, Ghost(s): Ghost<Survey>) -> (r: Result<
    ModuleFacts,
    Rejection,
>)
    requires
        seen.surveys(s),
    ensures
        match (r, concluded(s, limits)) {
            (Ok(a), Ok(b)) => a == b,
            (Err(e), Err(f)) => e@ == f,
            _ => false,
        },
{
    let memory: MemoryType = match seen.memory {
        Some(memory) => memory,
        None => return Err(Rejection::NoMemory),
    };
    if memory.shared {
        return Err(Rejection::SharedMemory);
    }
    if memory.memory64 {
        return Err(Rejection::Memory64);
    }
    if memory.page_size_log2.is_some() {
        return Err(Rejection::CustomPageSize);
    }
    let maximum: u64 = match memory.maximum {
        Some(n) => n,
        None => return Err(Rejection::UnboundedMemory),
    };
    if maximum > limits.max_memory_pages as u64 {
        return Err(
            Rejection::MemoryTooLarge { pages: maximum, limit: limits.max_memory_pages },
        );
    }
    if !seen.exports_entry {
        return Err(Rejection::MissingExport { name: String::from_str(ENTRY_POINT) });
    }
    if !seen.exports_memory {
        return Err(Rejection::MissingExport { name: String::from_str(MEMORY_EXPORT) });
    }
    Ok(
        ModuleFacts {
            memory_pages_min: memory.initial as u32,
            memory_pages_max: maximum as u32,
            imports_input: seen.imports_input,
            imports_output: seen.imports_output,
        },
    )
}

/// Check a submitted workload module.
///
/// This is what every workload passes on its way into the network, before instrumentation. It
/// runs the validator restricted to [`admitted_features`], then applies the structural rules.
///
/// The *signature* of [`ENTRY_POINT`] is not checked here, only its presence.
///
/// Reports the first [`Rejection`] found. Validation is not exhaustive, because the audience is a
/// workload author iterating, not a report.
pub fn validate_submitted(bytes: &[u8], limits: Limits) -> (r: Result<ModuleFacts, Rejection>)
    ensures
        match (r, submitted(bytes@, limits)) {
            (Ok(a), Ok(b)) => a == b,
            (Err(e), Err(f)) => e@ == f,
            _ => false,
        },
{
    if bytes.len() > limits.max_module_bytes {
        return Err(
            Rejection::TooLarge { bytes: bytes.len(), limit: limits.max_module_bytes },
        );
    }
    let features = admitted_features();
    if let Some(detail) = validate_all(bytes, features.as_slice()) {
        return Err(Rejection::Invalid { detail });
    }
    walk(&module::read(bytes), limits, Ghost(module_of(bytes@)))
}

/// The ceiling that the first of some memories declares, in pages.
pub open spec fn ceiling(memories: Seq<MemoryType>) -> Option<u32> {
    if memories.len() == 0 {
        None
    } else {
        match memories[0].maximum {
            Some(maximum) => if maximum <= u32::MAX {
                Some(maximum as u32)
            } else {
                None
            },
            None => None,
        }
    }
}

/// The ceiling that the first of some memories declares, in pages.
pub fn first_ceiling(memories: &Vec<MemoryType>) -> (r: Option<u32>)
    ensures
        r == ceiling(memories@),
{
    if memories.len() == 0 {
        return None;
    }
    match memories[0].maximum {
        Some(maximum) => if maximum <= u32::MAX as u64 {
            Some(maximum as u32)
        } else {
            None
        },
        None => None,
    }
}

/// The ceiling that the first memory section of a module declares, from the `n`th part on.
pub open spec fn ceiling_of(module: Seq<u8>, n: nat) -> Option<u32>
    decreases wasm::parts_of(module).0.len() - n,
{
    let (kinds, spans, _) = wasm::parts_of(module);
    if n >= kinds.len() {
        None
    } else if kinds[n as int] is Memories {
        let span = spans[n as int];
        ceiling(wasm::memories_of(slice_of(module, span), span.start as u64).0)
    } else {
        ceiling_of(module, n + 1)
    }
}

/// The memory ceiling a module declares, in 64 KiB pages. Reads one section and checks nothing.
///
/// A volunteer needs this number *before* it runs anything. A module with no memory section, or
/// one that declares no maximum, has none, and the caller's business is then to be careful rather
/// than to reject.
#[must_use]
pub fn declared_memory_pages(bytes: &[u8]) -> (r: Option<u32>)
    ensures
        r == ceiling_of(bytes@, 0),
{
    let kinds = wasm::read_parts(bytes);
    let (spans, _) = wasm::read_spans(bytes);
    let mut i: usize = 0;
    while i < kinds.len()
        invariant
            i <= kinds@.len() == spans@.len(),
            kinds@ == wasm::parts_of(bytes@).0,
            spans@ == wasm::parts_of(bytes@).1,
            forall|k: int|
                0 <= k < spans@.len() && wasm::is_delimited(kinds@[k]) ==> wasm::span_within(
                    #[trigger] spans@[k],
                    0,
                    bytes@.len() as int,
                ),
            ceiling_of(bytes@, i as nat) == ceiling_of(bytes@, 0),
        decreases kinds@.len() - i,
    {
        if let PartKind::Memories = kinds[i] {
            let span: Span = spans[i];
            let section = vstd::slice::slice_subrange(bytes, span.start, span.end);
            let (memories, _) = wasm::read_memories(section, span.start as u64);
            assert(memories.deep_view() =~= memories@);
            return first_ceiling(&memories);
        }
        i = i + 1;
    }
    None
}

/// Is this an import that a workload may have: a host function of its own signature, other than
/// the metering hook?
pub open spec fn is_host_import(i: ImportView) -> bool {
    i.module == HOST_MODULE@ && i.name != HOST_CHARGE@ && i.ty is Func && host_type(i.name) is Some
}

/// Does a part keep to the rules on parts?
pub open spec fn obeys(p: PartView) -> bool {
    match p {
        PartView::Types(types, error) => error is None && forall|i: int|
            0 <= i < types.len() ==> (#[trigger] types[i] matches Some((params, results))
                ==> first_reference(types_named(params) + types_named(results)) is None),
        PartView::Imports(imports, error) => error is None && forall|i: int|
            0 <= i < imports.len() ==> is_host_import(#[trigger] imports[i]),
        PartView::Memories(memories, error) => error is None && memories.len() <= 1,
        PartView::Start(_) => false,
        PartView::Tables(tables, error) => error is None && tables.len() <= 1 && forall|i: int|
            0 <= i < tables.len() ==> (#[trigger] tables[i]).holds_functions,
        PartView::Globals(globals, error) => error is None && forall|i: int|
            0 <= i < globals.len() ==> !(type_named((#[trigger] globals[i]).content) is Ref),
        PartView::Code(b) => {
            &&& b.locals.1 is None
            &&& forall|i: int|
                0 <= i < b.locals.0.len() ==> !(type_named((#[trigger] b.locals.0[i]).1) is Ref)
            &&& b.code matches Ok(l) && l.complete && forall|i: int|
                0 <= i < l.ops.len() ==> reference_touched(#[trigger] l.ops[i]) is None
        },
        PartView::Exports(exports, error) => error is None && forall|i: int|
            0 <= i < exports.len() ==> (#[trigger] exports[i]).name != FUEL_EXPORT@,
        _ => true,
    }
}

/// What holds of a list if it was taken in to its end: each of its items was taken in, in a
/// state that had been reached.
proof fn lemma_each_item<S, T, E>(
    s: S,
    items: Seq<T>,
    one: spec_fn(S, T) -> Result<S, E>,
    i: int,
) -> (at: S)
    requires
        each(s, items, one) is Ok,
        0 <= i < items.len(),
    ensures
        one(at, items[i]) is Ok,
        each(at, items.skip(i), one) == each(s, items, one),
    decreases i,
{
    if i == 0 {
        assert(items.skip(0) =~= items);
        s
    } else {
        let next = one(s, items[0])->Ok_0;
        let at = lemma_each_item(next, items.drop_first(), one, i - 1);
        assert(items.drop_first()[i - 1] == items[i]);
        assert(items.drop_first().skip(i - 1) =~= items.skip(i));
        at
    }
}

proof fn lemma_part_obeys(s: Survey, p: PartView)
    requires
        part_seen(s, p) is Ok,
    ensures
        obeys(p),
{
    match p {
        PartView::Types(types, error) => {
            let one = |s: Survey, t: Option<(Seq<Seq<char>>, Seq<Seq<char>>)>| type_seen(s, t);
            assert forall|i: int| 0 <= i < types.len() implies (
            #[trigger] types[i] matches Some((params, results)) ==> first_reference(
                types_named(params) + types_named(results),
            ) is None) by {
                let at = lemma_each_item(s, types, one, i);
                assert(type_seen(at, types[i]) is Ok);
            }
        },
        PartView::Imports(imports, error) => {
            let one = |s: Survey, i: ImportView| import_seen(s, i);
            assert forall|i: int| 0 <= i < imports.len() implies is_host_import(
                #[trigger] imports[i],
            ) by {
                let at = lemma_each_item(s, imports, one, i);
                assert(import_seen(at, imports[i]) is Ok);
            }
        },
        PartView::Memories(memories, error) => {
            let one = |s: Survey, m: MemoryType| memory_seen(s, m);
            if memories.len() > 1 {
                let at = lemma_each_item(s, memories, one, 1);
                let first = one(s, memories[0])->Ok_0;
                assert(first.memory is Some);
                assert(each(s, memories, one) == each(first, memories.drop_first(), one));
                assert(memories.drop_first()[0] == memories[1]);
                assert(one(first, memories[1]) is Err);
            }
        },
        PartView::Tables(tables, error) => {
            let one = |n: nat, t: TableType| table_seen(n, t);
            if tables.len() > 1 {
                assert(each(0nat, tables, one) == each(1nat, tables.drop_first(), one));
                assert(tables.drop_first()[0] == tables[1]);
                assert(one(1nat, tables[1]) is Err);
            }
            assert forall|i: int| 0 <= i < tables.len() implies (
            #[trigger] tables[i]).holds_functions by {
                let at = lemma_each_item(0nat, tables, one, i);
                assert(table_seen(at, tables[i]) is Ok);
            }
        },
        PartView::Globals(globals, error) => {
            let one = |n: nat, g: GlobalView| global_seen(n, g);
            assert forall|i: int| 0 <= i < globals.len() implies !(type_named(
                (#[trigger] globals[i]).content,
            ) is Ref) by {
                let at = lemma_each_item(0nat, globals, one, i);
                assert(global_seen(at, globals[i]) is Ok);
            }
        },
        PartView::Code(b) => {
            let runs = b.locals.0;
            let local = |s: (), run: (u32, Seq<char>)| local_seen(s, run);
            assert forall|i: int| 0 <= i < runs.len() implies !(type_named(
                (#[trigger] runs[i]).1,
            ) is Ref) by {
                let at = lemma_each_item((), runs, local, i);
                assert(local_seen(at, runs[i]) is Ok);
            }
            let ops = b.code->Ok_0.ops;
            let operator = |s: (), op: Operator| operator_seen(s, op);
            assert forall|i: int| 0 <= i < ops.len() implies reference_touched(
                #[trigger] ops[i],
            ) is None by {
                let at = lemma_each_item((), ops, operator, i);
                assert(operator_seen(at, ops[i]) is Ok);
            }
        },
        PartView::Exports(exports, error) => {
            let one = |s: Survey, e: ExportView| export_seen(s, e);
            reveal_strlit("cairn_fuel");
            reveal_strlit("cairn_run");
            reveal_strlit("memory");
            assert forall|i: int| 0 <= i < exports.len() implies (#[trigger] exports[i]).name
                != FUEL_EXPORT@ by {
                let at = lemma_each_item(s, exports, one, i);
                assert(export_seen(at, exports[i]) is Ok);
                assert(FUEL_EXPORT@.len() != ENTRY_POINT@.len());
                assert(FUEL_EXPORT@.len() != MEMORY_EXPORT@.len());
            }
        },
        _ => {},
    }
}

/// Whatever is accepted keeps to every rule: it is within the limits, the validator has nothing
/// against it, it was read to its end, and each of its parts obeys the rules on parts. It imports
/// host functions and nothing else, runs nothing on its own at the start, and never lets a
/// reference be seen.
pub proof fn law_accepted_modules_keep_the_rules(module: Seq<u8>, limits: Limits)
    requires
        submitted(module, limits) is Ok,
    ensures
        module.len() <= limits.max_module_bytes,
        objection_to(module, admitted()) is None,
        module_of(module).error is None,
        forall|i: int|
            0 <= i < module_of(module).parts.len() ==> obeys(
                #[trigger] module_of(module).parts[i],
            ),
        submitted(module, limits)->Ok_0.memory_pages_max <= limits.max_memory_pages,
{
    let m = module_of(module);
    let one = |s: Survey, p: PartView| part_seen(s, p);
    assert forall|i: int| 0 <= i < m.parts.len() implies obeys(#[trigger] m.parts[i]) by {
        let at = lemma_each_item(unseen(), m.parts, one, i);
        assert(part_seen(at, m.parts[i]) is Ok);
        lemma_part_obeys(at, m.parts[i]);
    }
}

/// What each item leaves alone, a whole list leaves alone.
proof fn lemma_each_keeps<S, T, E>(
    s: S,
    items: Seq<T>,
    one: spec_fn(S, T) -> Result<S, E>,
    kept: spec_fn(S) -> bool,
)
    requires
        kept(s),
        forall|s: S, t: T| kept(s) && (#[trigger] one(s, t)) is Ok ==> kept(one(s, t)->Ok_0),
    ensures
        each(s, items, one) matches Ok(t) ==> kept(t),
    decreases items.len(),
{
    if items.len() > 0 && one(s, items[0]) is Ok {
        lemma_each_keeps(one(s, items[0])->Ok_0, items.drop_first(), one, kept);
    }
}

/// Only a memory section says anything about the memory.
proof fn lemma_memory_kept(s: Survey, p: PartView)
    requires
        !(p is Memories),
        part_seen(s, p) is Ok,
    ensures
        part_seen(s, p)->Ok_0.memory == s.memory,
{
    let kept = |t: Survey| t.memory == s.memory;
    match p {
        PartView::Types(types, _) => {
            let one = |s: Survey, t: Option<(Seq<Seq<char>>, Seq<Seq<char>>)>| type_seen(s, t);
            lemma_each_keeps(s, types, one, kept);
        },
        PartView::Imports(imports, _) => {
            let one = |s: Survey, i: ImportView| import_seen(s, i);
            lemma_each_keeps(s, imports, one, kept);
        },
        PartView::Exports(exports, _) => {
            let one = |s: Survey, e: ExportView| export_seen(s, e);
            lemma_each_keeps(s, exports, one, kept);
        },
        _ => {},
    }
}

/// The first memory of the first memory section.
spec fn first_memory(parts: Seq<PartView>) -> Option<MemoryType>
    decreases parts.len(),
{
    if parts.len() == 0 {
        None
    } else {
        match parts[0] {
            PartView::Memories(l, _) => if l.len() == 0 {
                None
            } else {
                Some(l[0])
            },
            _ => first_memory(parts.drop_first()),
        }
    }
}

proof fn lemma_memory_seen(s: Survey, parts: Seq<PartView>)
    requires
        each(s, parts, |s: Survey, p: PartView| part_seen(s, p)) is Ok,
        s.memory is Some ==> forall|i: int|
            0 <= i < parts.len() ==> !(#[trigger] parts[i] is Memories),
        forall|i: int, j: int|
            0 <= i < j < parts.len() && (#[trigger] parts[i] is Memories) ==> !(
            #[trigger] parts[j] is Memories),
    ensures
        each(s, parts, |s: Survey, p: PartView| part_seen(s, p))->Ok_0.memory == (
        if s.memory is Some {
            s.memory
        } else {
            first_memory(parts)
        }),
    decreases parts.len(),
{
    if parts.len() > 0 {
        let rest = parts.drop_first();
        let next = part_seen(s, parts[0])->Ok_0;
        assert(forall|i: int| 0 <= i < rest.len() ==> rest[i] == parts[i + 1]);
        if let PartView::Memories(l, e) = parts[0] {
            let one = |s: Survey, m: MemoryType| memory_seen(s, m);
            lemma_part_obeys(s, parts[0]);
            if l.len() == 1 {
                assert(l.drop_first() =~= Seq::empty());
                assert(each(s, l, one) == each(one(s, l[0])->Ok_0, l.drop_first(), one));
                assert(next.memory == Some(l[0]));
            } else {
                assert(next == s);
                lemma_no_memories(rest);
            }
            lemma_memory_seen(next, rest);
        } else {
            lemma_memory_kept(s, parts[0]);
            lemma_memory_seen(next, rest);
        }
    }
}

proof fn lemma_no_memories(parts: Seq<PartView>)
    requires
        forall|i: int| 0 <= i < parts.len() ==> !(#[trigger] parts[i] is Memories),
    ensures
        first_memory(parts) is None,
    decreases parts.len(),
{
    if parts.len() > 0 {
        let rest = parts.drop_first();
        assert(forall|i: int| 0 <= i < rest.len() ==> rest[i] == parts[i + 1]);
        lemma_no_memories(rest);
    }
}

proof fn lemma_ceiling_of(module: Seq<u8>, n: nat)
    requires
        n <= module_of(module).parts.len(),
    ensures
        ceiling_of(module, n) == (match first_memory(module_of(module).parts.skip(n as int)) {
            Some(m) => ceiling(seq![m]),
            None => None,
        }),
    decreases module_of(module).parts.len() - n,
{
    let parts = module_of(module).parts;
    if n < parts.len() {
        assert(parts.skip(n as int).drop_first() =~= parts.skip((n + 1) as int));
        assert(parts.skip(n as int)[0] == parts[n as int]);
        lemma_ceiling_of(module, n + 1);
    }
}

/// The ceiling that can be read off a module before anything else is done with it is the one it
/// was accepted with.
///
/// A module with two memory sections is left out: the quick reading stops at the first.
pub proof fn law_the_declared_ceiling_is_the_accepted_one(module: Seq<u8>, limits: Limits)
    requires
        submitted(module, limits) is Ok,
        forall|i: int, j: int|
            0 <= i < j < module_of(module).parts.len() && (
            #[trigger] module_of(module).parts[i] is Memories) ==> !(
            #[trigger] module_of(module).parts[j] is Memories),
    ensures
        ceiling_of(module, 0) == Some(submitted(module, limits)->Ok_0.memory_pages_max),
{
    let m = module_of(module);
    lemma_memory_seen(unseen(), m.parts);
    lemma_ceiling_of(module, 0);
    assert(m.parts.skip(0) =~= m.parts);
}

proof fn lemma_first_section(module: Seq<u8>, n: nat, k: int)
    requires
        n <= k < wasm::parts_of(module).0.len(),
        wasm::parts_of(module).0[k] is Memories,
        forall|j: int| n <= j < k ==> !(#[trigger] wasm::parts_of(module).0[j] is Memories),
    ensures
        ceiling_of(module, n) == ceiling_of(module, k as nat),
    decreases k - n,
{
    if n < k {
        assert(!(wasm::parts_of(module).0[n as int] is Memories));
        lemma_first_section(module, n + 1, k);
    }
}

proof fn lemma_no_section(module: Seq<u8>, n: nat)
    requires
        forall|j: int|
            n <= j < wasm::parts_of(module).0.len() ==> !(#[trigger] wasm::parts_of(module).0[j]
                is Memories),
    ensures
        ceiling_of(module, n) is None,
    decreases wasm::parts_of(module).0.len() - n,
{
    if n < wasm::parts_of(module).0.len() {
        assert(!(wasm::parts_of(module).0[n as int] is Memories));
        lemma_no_section(module, n + 1);
    }
}

/// The ceiling that is read off a module is that of the first memory of its first memory section.
/// There is none if there is no such section or memory, or it declares none, or one that is out of
/// range.
pub proof fn law_the_first_ceiling_is_read(module: Seq<u8>, k: int)
    ensures
        ({
            let (kinds, spans, _) = wasm::parts_of(module);
            &&& (forall|j: int| 0 <= j < kinds.len() ==> !(#[trigger] kinds[j] is Memories))
                ==> ceiling_of(module, 0) is None
            &&& 0 <= k < kinds.len() && kinds[k] is Memories && (forall|j: int|
                0 <= j < k ==> !(#[trigger] kinds[j] is Memories)) ==> ({
                let memories = wasm::memories_in(
                    module.subrange(spans[k].start as int, spans[k].end as int),
                ).0;
                match ceiling_of(module, 0) {
                    Some(pages) => memories.len() > 0 && memories[0].maximum == Some(pages as u64),
                    None => memories.len() == 0 || memories[0].maximum is None
                        || memories[0].maximum->0 > u32::MAX,
                }
            })
        }),
{
    let (kinds, spans, _) = wasm::parts_of(module);
    if forall|j: int| 0 <= j < kinds.len() ==> !(#[trigger] kinds[j] is Memories) {
        lemma_no_section(module, 0);
    }
    if 0 <= k < kinds.len() && kinds[k] is Memories && (forall|j: int|
        0 <= j < k ==> !(#[trigger] kinds[j] is Memories)) {
        lemma_first_section(module, 0, k);
    }
}

} // verus!
