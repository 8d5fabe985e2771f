//! Rewrites a submitted module into Cairn-canonical form.
//!
//! This pass runs **once**, when a workload is registered, and its output is what every worker
//! executes. Determinism is baked into the binary, because the engine a volunteer runs it on
//! cannot be reached into.
//!
//! # What the pass does
//!
//! 1. **Appends the `cairn.charge` import.** Imported function indices are unchanged; every
//!    *defined* function index shifts by one. Calls, exports and element segments are remapped
//!    accordingly.
//! 2. **Meters fuel.** Each maximal straight-line run of instructions is charged for on entry, so
//!    the running instruction count is exact while the counter is touched once per run rather
//!    than once per instruction.
//! 3. **Canonicalizes NaN** after every floating-point operation whose NaN payload the
//!    WebAssembly standard leaves to the implementation, and before every operation that could
//!    make a payload observable.
//! 4. **Drops custom sections**, so that the canonical binary depends only on what the module
//!    means, not on which compiler produced it.
use crate::bytes::{concat_all, lemma_concat_all_add, lemma_concat_all_push, put_bytes};
use crate::encode::{
    self, Injected, MAX_COPIED, MAX_RENUMBERED, encode_instruction, framed, injected_bytes, leb, put_leb,
};
use crate::engine::float::{self, Rounding, Width};
use crate::engine::image::{clamped, declared_locals};
use crate::engine::numeric::{Kind, Shape, TrapView, applied, binary, kind_of, shape, unary};
use crate::engine::operator::{Operator, same_operator, same_operators};
use crate::fold::each;
use crate::module::{
    self, Body, BodyView, Global, GlobalView, Import, ImportView, Module, ModuleView, Part,
    PartView, body_of, lemma_same_module, module_of, part_of, same_body, same_globals, same_module,
    same_part,
};
use crate::state::Value;
use crate::text;
use crate::validate::{HOST_CHARGE, HOST_MODULE};
use crate::wasm::{
    self, Data, DataView, ElementItems, ElementKind, Export, ExportView, ExternalKind, GlobalType,
    GlobalTypeView, HEADER, ImportType, ImportTypeView, Listing, ListingView, PartKind, Span,
    ValType, ValTypeView, listing_of, slice_of, type_named,
};
use vstd::prelude::*;

verus! {

/// The canonical quiet NaN for `f32`: sign clear, exponent all ones, payload MSB set.
pub const CANONICAL_NAN_F32: u32 = 0x7fc0_0000;

/// The canonical quiet NaN for `f64`.
pub const CANONICAL_NAN_F64: u64 = 0x7ff8_0000_0000_0000;

/// Where to force a single NaN bit pattern.
///
/// WebAssembly leaves the payload bits of a computed NaN up to the engine, so two honest workers
/// can disagree about them. Every such NaN is overwritten with one canonical pattern; this says
/// how often.
#[derive(Debug, Clone, Copy, PartialEq, Eq, Structural)]
pub enum Canonicalization {
    /// Never. Only for measuring what the rest of the pass costs; not a shippable setting.
    Never,
    /// After every operation whose NaN payload is left open, and wherever one could become
    /// observable.
    ///
    /// Required whenever machine state itself is committed to, which means the **dispute path**.
    Everywhere,
    /// Only where a NaN's payload could become observable.
    ///
    /// Sound on the **honest path**, where nothing but the result is ever compared.
    AtEscapes,
}

impl Default for Canonicalization {
    fn default() -> (r: Self)
        ensures
            r == Canonicalization::Everywhere,
    {
        Canonicalization::Everywhere
    }
}

/// Which parts of the pass to apply.
#[derive(Debug, Clone, Copy, PartialEq, Eq, Structural)]
pub struct Config {
    /// Insert fuel accounting. Without it there is no trace coordinate system.
    pub meter_fuel: bool,
    /// How aggressively to canonicalize NaNs.
    pub canonicalize: Canonicalization,
}

impl Default for Config {
    /// Full instrumentation. The safe thing to get by accident.
    fn default() -> (r: Self)
        ensures
            r == (Config { meter_fuel: true, canonicalize: Canonicalization::Everywhere }),
    {
        Config::dispute_path()
    }
}

impl Config {
    /// What a volunteer runs: determinism only, and only where determinism can be observed.
    #[must_use]
    pub fn honest_path() -> (r: Self)
        ensures
            r == (Config { meter_fuel: false, canonicalize: Canonicalization::AtEscapes }),
    {
        Config { meter_fuel: false, canonicalize: Canonicalization::AtEscapes }
    }

    /// What both parties re-run when a result is disputed: everything.
    #[must_use]
    pub fn dispute_path() -> (r: Self)
        ensures
            r == (Config { meter_fuel: true, canonicalize: Canonicalization::Everywhere }),
    {
        Config { meter_fuel: true, canonicalize: Canonicalization::Everywhere }
    }
}

/// Why instrumentation failed.
#[derive(Debug, Clone, PartialEq, Eq)]
pub enum Error {
    /// The module could not be parsed. Run [`crate::validate::validate_submitted`] first.
    Parse {
        /// The underlying parser message.
        detail: String,
    },
    /// The module has no type section, so it declares no functions.
    NoTypeSection,
    /// A function body appeared with no corresponding entry in the function section.
    BodyWithoutSignature {
        /// Position of the offending body in the code section.
        index: usize,
    },
    /// A function's declared type index is not a function type.
    NotAFunctionType {
        /// The offending type index.
        type_index: u32,
    },
    /// The module declares more locals or parameters than the local index space allows.
    LocalIndexOverflow,
}

/// The value of an [`Error`].
pub enum ErrorView {
    /// The module could not be parsed.
    Parse(Seq<char>),
    /// There is no type section.
    NoTypeSection,
    /// A body has no signature.
    BodyWithoutSignature(nat),
    /// A type index is not a function type.
    NotAFunctionType(u32),
    /// There are too many locals.
    LocalIndexOverflow,
}

impl View for Error {
    type V = ErrorView;

    open spec fn view(&self) -> ErrorView {
        match *self {
            Error::Parse { detail } => ErrorView::Parse(detail@),
            Error::NoTypeSection => ErrorView::NoTypeSection,
            Error::BodyWithoutSignature { index } => ErrorView::BodyWithoutSignature(index as nat),
            Error::NotAFunctionType { type_index } => ErrorView::NotAFunctionType(type_index),
            Error::LocalIndexOverflow => ErrorView::LocalIndexOverflow,
        }
    }
}

impl ErrorView {
    /// The message a person reads.
    pub open spec fn message(self) -> Seq<char> {
        match self {
            ErrorView::Parse(detail) => "could not parse module: "@ + detail,
            ErrorView::NoTypeSection => "module has no type section"@,
            ErrorView::BodyWithoutSignature(index) => "function body "@ + text::decimal_text(index)
                + " has no entry in the function section"@,
            ErrorView::NotAFunctionType(type_index) => "type index "@ + text::decimal_text(
                type_index as nat,
            ) + " is not a function type"@,
            ErrorView::LocalIndexOverflow => "function declares too many locals to instrument"@,
        }
    }
}

impl Error {
    /// A description.
    #[must_use]
    pub fn to_string(&self) -> (r: String)
        ensures
            r@ == self@.message(),
    {
        match self {
            Error::Parse { detail } => text::join2("could not parse module: ", detail.as_str()),
            Error::NoTypeSection => String::from_str("module has no type section"),
            Error::BodyWithoutSignature { index } => text::join3(
                "function body ",
                text::decimal(*index as u64).as_str(),
                " has no entry in the function section",
            ),
            Error::NotAFunctionType { type_index } => text::join3(
                "type index ",
                text::decimal(*type_index as u64).as_str(),
                " is not a function type",
            ),
            Error::LocalIndexOverflow => String::from_str(
                "function declares too many locals to instrument",
            ),
        }
    }
}

/// Width of a floating-point value.
#[derive(Debug, Clone, Copy, PartialEq, Eq, Structural)]
pub enum FloatWidth {
    /// 32 bits.
    F32,
    /// 64 bits.
    F64,
}

/// The float width of a value type, if it is a float.
pub open spec fn width_of(ty: ValTypeView) -> Option<FloatWidth> {
    match ty {
        ValTypeView::F32 => Some(FloatWidth::F32),
        ValTypeView::F64 => Some(FloatWidth::F64),
        _ => None,
    }
}

/// The float width of a value type, or `None` if it is not a float.
pub fn float_width(ty: &ValType) -> (r: Option<FloatWidth>)
    ensures
        r == width_of(ty.deep_view()),
{
    match ty {
        ValType::F32 => Some(FloatWidth::F32),
        ValType::F64 => Some(FloatWidth::F64),
        _ => None,
    }
}

/// Does this instruction end a straight-line run?
///
/// A run is charged for on entry, so it must not contain anything that could skip the
/// instructions after it. Control transfers and block boundaries both qualify. Calls do not: a
/// call returns to the following instruction.
pub open spec fn is_boundary(op: Operator) -> bool {
    match op {
        Operator::Block { .. }
        | Operator::Loop { .. }
        | Operator::If { .. }
        | Operator::Else
        | Operator::End
        | Operator::Br { .. }
        | Operator::BrIf { .. }
        | Operator::BrTable { .. }
        | Operator::Return
        | Operator::Unreachable => true,
        _ => false,
    }
}

/// Does this operator end the current straight-line run?
pub fn ends_run(op: &Operator) -> (r: bool)
    ensures
        r == is_boundary(*op),
{
    match op {
        Operator::Block { .. }
        | Operator::Loop { .. }
        | Operator::If { .. }
        | Operator::Else
        | Operator::End
        | Operator::Br { .. }
        | Operator::BrIf { .. }
        | Operator::BrTable { .. }
        | Operator::Return
        | Operator::Unreachable => true,
        _ => false,
    }
}

/// The width of the result whose NaN bits this instruction leaves open, if any.
///
/// Arithmetic and rounding can create a NaN from other operands or choose among several input
/// payloads. Sign manipulation, bit casts, loads, stores and conversions from integers cannot.
pub open spec fn minted(op: Operator) -> Option<FloatWidth> {
    match op {
        Operator::F32Add
        | Operator::F32Sub
        | Operator::F32Mul
        | Operator::F32Div
        | Operator::F32Min
        | Operator::F32Max
        | Operator::F32Sqrt
        | Operator::F32Ceil
        | Operator::F32Floor
        | Operator::F32Trunc
        | Operator::F32Nearest
        | Operator::F32DemoteF64 => Some(FloatWidth::F32),
        Operator::F64Add
        | Operator::F64Sub
        | Operator::F64Mul
        | Operator::F64Div
        | Operator::F64Min
        | Operator::F64Max
        | Operator::F64Sqrt
        | Operator::F64Ceil
        | Operator::F64Floor
        | Operator::F64Trunc
        | Operator::F64Nearest
        | Operator::F64PromoteF32 => Some(FloatWidth::F64),
        _ => None,
    }
}

/// Does this operator produce an `f32`/`f64` whose NaN bits are implementation-defined?
pub fn nan_producing(op: &Operator) -> (r: Option<FloatWidth>)
    ensures
        r == minted(*op),
{
    match op {
        Operator::F32Add
        | Operator::F32Sub
        | Operator::F32Mul
        | Operator::F32Div
        | Operator::F32Min
        | Operator::F32Max
        | Operator::F32Sqrt
        | Operator::F32Ceil
        | Operator::F32Floor
        | Operator::F32Trunc
        | Operator::F32Nearest
        | Operator::F32DemoteF64 => Some(FloatWidth::F32),
        Operator::F64Add
        | Operator::F64Sub
        | Operator::F64Mul
        | Operator::F64Div
        | Operator::F64Min
        | Operator::F64Max
        | Operator::F64Sqrt
        | Operator::F64Ceil
        | Operator::F64Floor
        | Operator::F64Trunc
        | Operator::F64Nearest
        | Operator::F64PromoteF32 => Some(FloatWidth::F64),
        _ => None,
    }
}

/// The width of the value on top of the stack whose NaN bits this instruction could make
/// observable, if any.
///
/// A NaN with an engine-specific payload is still a NaN, and no arithmetic, comparison or branch
/// can turn that difference into a difference in the answer. Four things can: stores and
/// `global.set`, which keep the bits, `reinterpret`, which hands them over, and `copysign`, which
/// reads the sign.
pub open spec fn escaping(op: Operator, globals: Seq<Option<FloatWidth>>) -> Option<FloatWidth> {
    match op {
        Operator::F32Store { .. } | Operator::I32ReinterpretF32 | Operator::F32Copysign => Some(
            FloatWidth::F32,
        ),
        Operator::F64Store { .. } | Operator::I64ReinterpretF64 | Operator::F64Copysign => Some(
            FloatWidth::F64,
        ),
        Operator::GlobalSet { global_index } => if global_index < globals.len() {
            globals[global_index as int]
        } else {
            None
        },
        _ => None,
    }
}

/// Does this operator let a NaN's payload bits change something other than a NaN?
pub fn escape_site(op: &Operator, global_widths: &Vec<Option<FloatWidth>>) -> (r: Option<FloatWidth>)
    ensures
        r == escaping(*op, global_widths@),
{
    match op {
        Operator::F32Store { .. } | Operator::I32ReinterpretF32 | Operator::F32Copysign => Some(
            FloatWidth::F32,
        ),
        Operator::F64Store { .. } | Operator::I64ReinterpretF64 | Operator::F64Copysign => Some(
            FloatWidth::F64,
        ),
        Operator::GlobalSet { global_index } => if (*global_index as usize) < global_widths.len() {
            global_widths[*global_index as usize]
        } else {
            None
        },
        _ => None,
    }
}

/// What to canonicalize *before* an instruction: escape sites, in both modes.
///
/// A program can build its own NaN with a chosen payload. Canonicalizing at escapes in both modes
/// makes every value that becomes observable canonical under either.
pub open spec fn fixed_before(
    config: Config,
    op: Operator,
    globals: Seq<Option<FloatWidth>>,
) -> Option<FloatWidth> {
    match config.canonicalize {
        Canonicalization::Never => None,
        _ => escaping(op, globals),
    }
}

/// What to canonicalize *after* an instruction: only under `Everywhere`.
pub open spec fn fixed_after(config: Config, op: Operator) -> Option<FloatWidth> {
    match config.canonicalize {
        Canonicalization::Everywhere => minted(op),
        _ => None,
    }
}

/// How many instructions the run has that starts here.
pub open spec fn run_length(ops: Seq<Operator>, i: int) -> nat
    decreases ops.len() - i,
{
    if i >= ops.len() {
        0
    } else if is_boundary(ops[i]) {
        1
    } else {
        1 + run_length(ops, i + 1)
    }
}

/// Does a run start here: at the beginning, or behind an instruction that ends one?
pub open spec fn starts_run(ops: Seq<Operator>, i: int) -> bool {
    i == 0 || is_boundary(ops[i - 1])
}

/// What is charged in front of an instruction: the length of the run that starts there.
pub open spec fn charged_at(config: Config, ops: Seq<Operator>, i: int) -> u32 {
    if config.meter_fuel && starts_run(ops, i) {
        clamped(run_length(ops, i))
    } else {
        0
    }
}

/// Imported functions keep their index; defined functions shift by one to make room for the
/// appended `charge` import.
pub open spec fn shifted(function: u32, imported: u32) -> u32 {
    if function < imported || function == u32::MAX {
        function
    } else {
        (function + 1) as u32
    }
}

/// Where a function is once `charge` is among the imports.
pub fn function_index(function: u32, imported: u32) -> (r: u32)
    ensures
        r == shifted(function, imported),
{
    if function < imported {
        function
    } else {
        function.saturating_add(1)
    }
}

/// The instructions that fix a value on top of the stack.
///
/// ```text
/// local.tee $scratch      ; keep a copy, value stays on the stack
/// local.get $scratch
/// f32.ne                  ; NaN is the only value unequal to itself
/// if (result f32)
///   f32.const <canonical>
/// else
///   local.get $scratch
/// end
/// ```
pub open spec fn canonicalization(width: FloatWidth, scratch: u32) -> Seq<Injected> {
    match width {
        FloatWidth::F32 => seq![
            Injected::LocalTee(scratch),
            Injected::LocalGet(scratch),
            Injected::F32Ne,
            Injected::IfF32,
            Injected::F32Const(CANONICAL_NAN_F32),
            Injected::Else,
            Injected::LocalGet(scratch),
            Injected::End,
        ],
        FloatWidth::F64 => seq![
            Injected::LocalTee(scratch),
            Injected::LocalGet(scratch),
            Injected::F64Ne,
            Injected::IfF64,
            Injected::F64Const(CANONICAL_NAN_F64),
            Injected::Else,
            Injected::LocalGet(scratch),
            Injected::End,
        ],
    }
}

/// What a rewritten body holds: an instruction of the original, by its position, or one that was
/// written in between.
pub enum Emitted {
    /// An instruction of the original.
    Original(int),
    /// One that was not there.
    Injected(Injected),
}

/// What decides how a body is rewritten.
pub struct Plan {
    /// Which parts of the pass to apply.
    pub config: Config,
    /// How many functions the original imports, which is also the index of `charge`.
    pub imported: u32,
    /// Float width of each global.
    pub globals: Seq<Option<FloatWidth>>,
    /// The `f32` scratch local.
    pub scratch_f32: u32,
    /// The `f64` scratch local.
    pub scratch_f64: u32,
}

/// Instructions that were not there.
pub open spec fn injected(list: Seq<Injected>) -> Seq<Emitted> {
    list.map_values(|i: Injected| Emitted::Injected(i))
}

impl Plan {
    /// The scratch local of a width.
    pub open spec fn scratch(self, width: FloatWidth) -> u32 {
        match width {
            FloatWidth::F32 => self.scratch_f32,
            FloatWidth::F64 => self.scratch_f64,
        }
    }

    /// The charge in front of an instruction, if it starts a run.
    pub open spec fn charge(self, ops: Seq<Operator>, i: int) -> Seq<Injected> {
        let amount = charged_at(self.config, ops, i);
        if amount > 0 {
            seq![Injected::I32Const(amount as i32), Injected::Call(self.imported)]
        } else {
            Seq::empty()
        }
    }

    /// What fixes a value, if one has to be fixed.
    pub open spec fn fix(self, width: Option<FloatWidth>) -> Seq<Injected> {
        match width {
            Some(width) => canonicalization(width, self.scratch(width)),
            None => Seq::empty(),
        }
    }

    /// What one instruction becomes: the charge for the run it starts, what fixes its operand,
    /// itself, and what fixes its result.
    pub open spec fn emitted_for(self, ops: Seq<Operator>, i: int) -> Seq<Emitted> {
        injected(self.charge(ops, i)) + injected(
            self.fix(fixed_before(self.config, ops[i], self.globals)),
        ) + seq![Emitted::Original(i)] + injected(self.fix(fixed_after(self.config, ops[i])))
    }

    /// What the first instructions become.
    pub open spec fn emitted(self, ops: Seq<Operator>, n: nat) -> Seq<Emitted>
        decreases n,
    {
        if n == 0 {
            Seq::empty()
        } else {
            self.emitted(ops, (n - 1) as nat) + self.emitted_for(ops, n - 1)
        }
    }
}

/// How an instruction of the original is written: references to functions are remapped.
pub open spec fn original_bytes(op: Operator, written: Seq<u8>, imported: u32) -> Seq<u8> {
    match op {
        Operator::Call { function_index } => injected_bytes(
            Injected::Call(shifted(function_index, imported)),
        ),
        Operator::ReturnCall { function_index, .. } => injected_bytes(
            Injected::ReturnCall(shifted(function_index, imported)),
        ),
        Operator::RefFunc { function_index, .. } => injected_bytes(
            Injected::RefFunc(shifted(function_index, imported)),
        ),
        _ => written,
    }
}

/// The bytes of something emitted.
pub open spec fn emitted_bytes(
    e: Emitted,
    ops: Seq<Operator>,
    written: Seq<Seq<u8>>,
    imported: u32,
) -> Seq<u8> {
    match e {
        Emitted::Injected(i) => injected_bytes(i),
        Emitted::Original(k) => original_bytes(ops[k], written[k], imported),
    }
}

/// The bytes of the rewritten code.
pub open spec fn code_bytes(
    e: Seq<Emitted>,
    ops: Seq<Operator>,
    written: Seq<Seq<u8>>,
    imported: u32,
) -> Seq<u8> {
    concat_all(e, |e: Emitted| emitted_bytes(e, ops, written, imported))
}

/// Facts gathered in a first pass, before rewriting begins.
pub struct Facts {
    /// How many functions are imported.
    pub imported: nat,
    /// Parameter count for each type index, or nothing if it is not a function type.
    pub type_params: Seq<Option<u32>>,
    /// Type index of each defined function.
    pub function_types: Seq<u32>,
    /// Float width of each global by index, imported ones first.
    pub globals: Seq<Option<FloatWidth>>,
    /// Is there a type section?
    pub had_types: bool,
    /// Is there an import section?
    pub had_imports: bool,
}

/// Nothing gathered yet.
pub open spec fn no_facts() -> Facts {
    Facts {
        imported: 0,
        type_params: Seq::empty(),
        function_types: Seq::empty(),
        globals: Seq::empty(),
        had_types: false,
        had_imports: false,
    }
}

/// The parameter count of a type.
pub open spec fn params_of(t: Option<(Seq<Seq<char>>, Seq<Seq<char>>)>) -> Option<u32> {
    match t {
        Some((params, _)) => Some(clamped(params.len())),
        None => None,
    }
}

/// One import.
pub open spec fn with_import(f: Facts, ty: ImportTypeView) -> Facts {
    match ty {
        ImportTypeView::Func(_) => Facts { imported: f.imported + 1, ..f },
        ImportTypeView::Global(content) => Facts {
            globals: f.globals.push(width_of(type_named(content))),
            ..f
        },
        _ => f,
    }
}

/// Imports, in order.
pub open spec fn with_imports(f: Facts, imports: Seq<ImportView>) -> Facts
    decreases imports.len(),
{
    if imports.len() == 0 {
        f
    } else {
        with_import(with_imports(f, imports.drop_last()), imports.last().ty)
    }
}

/// A section that was read to its end, or not.
pub open spec fn read_whole<T>(t: T, error: Option<Seq<char>>) -> Result<T, ErrorView> {
    match error {
        Some(detail) => Err(ErrorView::Parse(detail)),
        None => Ok(t),
    }
}

/// One part of a module.
pub open spec fn facts_with(f: Facts, p: PartView) -> Result<Facts, ErrorView> {
    match p {
        PartView::Types(types, error) => read_whole(
            Facts {
                type_params: f.type_params + types.map_values(
                    |t: Option<(Seq<Seq<char>>, Seq<Seq<char>>)>| params_of(t),
                ),
                had_types: true,
                ..f
            },
            error,
        ),
        PartView::Imports(imports, error) => read_whole(
            with_imports(Facts { had_imports: true, ..f }, imports),
            error,
        ),
        PartView::Globals(globals, error) => read_whole(
            Facts {
                globals: f.globals + globals.map_values(
                    |g: GlobalView| width_of(type_named(g.content)),
                ),
                ..f
            },
            error,
        ),
        PartView::Functions(types, error) => read_whole(
            Facts { function_types: f.function_types + types, ..f },
            error,
        ),
        _ => Ok(f),
    }
}

/// The facts of a module.
pub open spec fn surveyed(m: ModuleView) -> Result<Facts, ErrorView> {
    match each(no_facts(), m.parts, |f: Facts, p: PartView| facts_with(f, p)) {
        Err(e) => Err(e),
        Ok(f) => match m.error {
            Some(detail) => Err(ErrorView::Parse(detail)),
            None => if f.had_types {
                Ok(f)
            } else {
                Err(ErrorView::NoTypeSection)
            },
        },
    }
}

/// Facts gathered so far.
#[derive(Debug, PartialEq, Eq)]
pub struct Survey {
    /// How many functions are imported, which is also the index of `charge`.
    pub imported_funcs: u32,
    /// Parameter count for each type index, or nothing if it is not a function type.
    pub type_params: Vec<Option<u32>>,
    /// Type index of each defined function.
    pub function_types: Vec<u32>,
    /// Float width of each global by index, imported ones first.
    pub global_widths: Vec<Option<FloatWidth>>,
    /// Is there a type section?
    pub had_type_section: bool,
    /// Is there an import section?
    pub had_import_section: bool,
}

impl View for Survey {
    type V = Facts;

    open spec fn view(&self) -> Facts {
        Facts {
            imported: self.imported_funcs as nat,
            type_params: self.type_params@,
            function_types: self.function_types@,
            globals: self.global_widths@,
            had_types: self.had_type_section,
            had_imports: self.had_import_section,
        }
    }
}

/// The section ended in the reader's error, if there was one.
fn finish(error: &Option<String>) -> (r: Result<(), Error>)
    ensures
        match (r, error.deep_view()) {
            (Ok(_), None) => true,
            (Err(e), Some(f)) => e@ == ErrorView::Parse(f),
            _ => false,
        },
{
    match error {
        Some(detail) => Err(Error::Parse { detail: detail.clone() }),
        None => Ok(()),
    }
}

/// A number as a `u32`, clamped to the largest.
fn clamp(n: usize) -> (r: u32)
    ensures
        r == clamped(n as nat),
{
    if n as u64 > u32::MAX as u64 {
        u32::MAX
    } else {
        n as u32
    }
}

impl Survey {
    /// Are these the facts, with the number of imported functions as far as an index goes?
    pub open spec fn gathers(&self, f: Facts) -> bool {
        &&& self.imported_funcs == clamped(f.imported)
        &&& self.type_params@ == f.type_params
        &&& self.function_types@ == f.function_types
        &&& self.global_widths@ == f.globals
        &&& self.had_type_section == f.had_types
        &&& self.had_import_section == f.had_imports
    }

    spec fn took(&self, r: Result<(), Error>, f: Result<Facts, ErrorView>) -> bool {
        match (r, f) {
            (Ok(_), Ok(f)) => self.gathers(f),
            (Err(e), Err(g)) => e@ == g,
            _ => false,
        }
    }

    fn take_types(
        &mut self,
        types: &Vec<Option<(Vec<String>, Vec<String>)>>,
        error: &Option<String>,
        Ghost(f): Ghost<Facts>,
    ) -> (r: Result<(), Error>)
        requires
            old(self).gathers(f),
        ensures
            final(self).took(r, facts_with(f, PartView::Types(types.deep_view(), error.deep_view()))),
    {
        let ghost found = types.deep_view();
        let ghost one = |t: Option<(Seq<Seq<char>>, Seq<Seq<char>>)>| params_of(t);
        self.had_type_section = true;
        let mut i: usize = 0;
        assert(types.deep_view() == found);
        assert(self.type_params@ =~= f.type_params + found.take(0).map_values(one));
        while i < types.len()
            invariant
                i <= types@.len(),
                types.deep_view() == found,
                one == (|t: Option<(Seq<Seq<char>>, Seq<Seq<char>>)>| params_of(t)),
                self.gathers(
                    Facts {
                        type_params: f.type_params + found.take(i as int).map_values(one),
                        had_types: true,
                        ..f
                    },
                ),
            decreases types@.len() - i,
        {
            let ghost before = self.type_params@;
            let n: Option<u32> = match &types[i] {
                Some((params, _)) => Some(clamp(params.len())),
                None => None,
            };
            self.type_params.push(n);
            i = i + 1;
            proof {
                assert(found[i - 1] == types@[i - 1].deep_view());
                assert(n == params_of(found[i - 1]));
                assert(self.type_params@ =~= f.type_params + found.take(i as int).map_values(one));
            }
        }
        assert(found.take(i as int) =~= found);
        finish(error)
    }

    fn take_imports(
        &mut self,
        imports: &Vec<Import>,
        error: &Option<String>,
        Ghost(f): Ghost<Facts>,
    ) -> (r: Result<(), Error>)
        requires
            old(self).gathers(f),
        ensures
            final(self).took(r, facts_with(f, PartView::Imports(imports.deep_view(), error.deep_view()))),
    {
        let ghost found = imports.deep_view();
        let ghost start = Facts { had_imports: true, ..f };
        self.had_import_section = true;
        let mut i: usize = 0;
        assert(found.take(0) =~= Seq::empty());
        while i < imports.len()
            invariant
                i <= imports@.len(),
                imports.deep_view() == found,
                self.gathers(with_imports(start, found.take(i as int))),
            decreases imports@.len() - i,
        {
            proof {
                assert(found.take(i + 1).drop_last() =~= found.take(i as int));
                assert(found.take(i + 1).last() == imports@[i as int].deep_view());
            }
            match &imports[i].ty {
                ImportType::Func(_) => {
                    self.imported_funcs = self.imported_funcs.saturating_add(1);
                },
                ImportType::Global(content) => {
                    self.global_widths.push(float_width(&ValType::named(content)));
                },
                _ => {},
            }
            i = i + 1;
        }
        assert(found.take(i as int) =~= found);
        finish(error)
    }

    fn take_globals(
        &mut self,
        globals: &Vec<Global>,
        error: &Option<String>,
        Ghost(f): Ghost<Facts>,
        Ghost(found): Ghost<Seq<GlobalView>>,
    ) -> (r: Result<(), Error>)
        requires
            old(self).gathers(f),
            same_globals(globals.deep_view(), found),
        ensures
            final(self).took(r, facts_with(f, PartView::Globals(found, error.deep_view()))),
    {
        let ghost one = |g: GlobalView| width_of(type_named(g.content));
        let mut i: usize = 0;
        assert(self.global_widths@ =~= f.globals + found.take(0).map_values(one));
        while i < globals.len()
            invariant
                i <= globals@.len(),
                same_globals(globals.deep_view(), found),
                one == (|g: GlobalView| width_of(type_named(g.content))),
                self.gathers(
                    Facts { globals: f.globals + found.take(i as int).map_values(one), ..f },
                ),
            decreases globals@.len() - i,
        {
            let w: Option<FloatWidth> = float_width(&ValType::named(&globals[i].content));
            self.global_widths.push(w);
            i = i + 1;
            proof {
                assert(globals.deep_view()[i - 1].content == found[i - 1].content);
                assert(self.global_widths@ =~= f.globals + found.take(i as int).map_values(one));
            }
        }
        assert(found.take(i as int) =~= found);
        finish(error)
    }

    fn take_functions(
        &mut self,
        types: &Vec<u32>,
        error: &Option<String>,
        Ghost(f): Ghost<Facts>,
    ) -> (r: Result<(), Error>)
        requires
            old(self).gathers(f),
        ensures
            final(self).took(r, facts_with(f, PartView::Functions(types@, error.deep_view()))),
    {
        let mut copy: Vec<u32> = vstd::slice::slice_to_vec(types.as_slice());
        self.function_types.append(&mut copy);
        finish(error)
    }
}

/// Gather the facts of a module.
fn gather(m: &Module, Ghost(v): Ghost<ModuleView>) -> (r: Result<Survey, Error>)
    requires
        same_module(m.deep_view(), v),
    ensures
        match (r, surveyed(v)) {
            (Ok(s), Ok(f)) => s.gathers(f),
            (Err(e), Err(g)) => e@ == g,
            _ => false,
        },
{
    let mut seen = Survey {
        imported_funcs: 0,
        type_params: Vec::new(),
        function_types: Vec::new(),
        global_widths: Vec::new(),
        had_type_section: false,
        had_import_section: false,
    };
    let ghost found = v.parts;
    let ghost one = |f: Facts, p: PartView| facts_with(f, p);
    let ghost mut now = no_facts();
    let mut i: usize = 0;
    assert(found.skip(0) =~= found);
    while i < m.parts.len()
        invariant
            i <= m.parts@.len() == found.len(),
            found == v.parts,
            same_module(m.deep_view(), v),
            one == (|f: Facts, p: PartView| facts_with(f, p)),
            seen.gathers(now),
            each(now, found.skip(i as int), one) == each(no_facts(), found, one),
        decreases m.parts@.len() - i,
    {
        proof {
            assert(found.skip(i as int).drop_first() =~= found.skip(i + 1));
            assert(found.skip(i as int)[0] == found[i as int]);
            assert(same_part(m.deep_view().parts[i as int], found[i as int]));
            assert(m.deep_view().parts[i as int] == m.parts@[i as int].deep_view());
        }
        let taken = match &m.parts[i] {
            Part::Types(items, error) => seen.take_types(items, error, Ghost(now)),
            Part::Imports(items, error) => seen.take_imports(items, error, Ghost(now)),
            Part::Globals(items, error) => seen.take_globals(
                items,
                error,
                Ghost(now),
                Ghost(found[i as int]->Globals_0),
            ),
            Part::Functions(items, error) => seen.take_functions(items, error, Ghost(now)),
            _ => Ok(()),
        };
        assert(seen.took(taken, facts_with(now, found[i as int])));
        match taken {
            Ok(_) => {},
            Err(e) => return Err(e),
        }
        proof {
            now = one(now, found[i as int])->Ok_0;
        }
        i = i + 1;
    }
    match finish(&m.error) {
        Ok(_) => {},
        Err(e) => return Err(e),
    }
    if !seen.had_type_section {
        return Err(Error::NoTypeSection);
    }
    Ok(seen)
}

/// Gather the facts of a module that has been read.
pub fn survey(m: &Module) -> (r: Result<Survey, Error>)
    ensures
        match (r, surveyed(m.deep_view())) {
            (Ok(s), Ok(f)) => s.gathers(f),
            (Err(e), Err(g)) => e@ == g,
            _ => false,
        },
{
    proof {
        lemma_same_module(m.deep_view());
    }
    gather(m, Ghost(m.deep_view()))
}

/// The bytes of instructions that were not there.
pub open spec fn list_bytes(list: Seq<Injected>) -> Seq<u8> {
    concat_all(list, |i: Injected| injected_bytes(i))
}

/// One more instruction that was not there.
fn put_injected(out: &mut Vec<u8>, i: Injected, Ghost(done): Ghost<Seq<Injected>>)
    ensures
        forall|before: Seq<u8>|
            old(out)@ == #[trigger] (before + list_bytes(done)) ==> final(out)@ == before
                + list_bytes(done.push(i)),
{
    encode_instruction(out, i);
    proof {
        assert(done.push(i).drop_last() =~= done);
        assert forall|before: Seq<u8>|
            old(out)@ == #[trigger] (before + list_bytes(done)) implies out@ == before + list_bytes(
            done.push(i),
        ) by {
            assert(out@ =~= before + list_bytes(done.push(i)));
        }
    }
}

/// Append the canonicalization sequence for a value already on the stack.
fn emit_canonicalization(out: &mut Vec<u8>, width: FloatWidth, scratch: u32)
    ensures
        final(out)@ == old(out)@ + list_bytes(canonicalization(width, scratch)),
{
    let (ne, open, constant) = match width {
        FloatWidth::F32 => (
            Injected::F32Ne,
            Injected::IfF32,
            Injected::F32Const(CANONICAL_NAN_F32),
        ),
        FloatWidth::F64 => (
            Injected::F64Ne,
            Injected::IfF64,
            Injected::F64Const(CANONICAL_NAN_F64),
        ),
    };
    let (tee, get) = (Injected::LocalTee(scratch), Injected::LocalGet(scratch));
    let ghost before = out@;
    let ghost d0 = Seq::<Injected>::empty();
    assert(out@ =~= before + list_bytes(d0));
    put_injected(out, tee, Ghost(d0));
    let ghost d1 = d0.push(tee);
    put_injected(out, get, Ghost(d1));
    let ghost d2 = d1.push(get);
    put_injected(out, ne, Ghost(d2));
    let ghost d3 = d2.push(ne);
    put_injected(out, open, Ghost(d3));
    let ghost d4 = d3.push(open);
    put_injected(out, constant, Ghost(d4));
    let ghost d5 = d4.push(constant);
    put_injected(out, Injected::Else, Ghost(d5));
    let ghost d6 = d5.push(Injected::Else);
    put_injected(out, get, Ghost(d6));
    let ghost d7 = d6.push(get);
    put_injected(out, Injected::End, Ghost(d7));
    assert(d7.push(Injected::End) =~= canonicalization(width, scratch));
}

/// Append the charge for a run.
fn emit_charge(out: &mut Vec<u8>, amount: u32, charge: u32)
    ensures
        final(out)@ == old(out)@ + list_bytes(
            seq![Injected::I32Const(amount as i32), Injected::Call(charge)],
        ),
{
    let ghost before = out@;
    let ghost d0 = Seq::<Injected>::empty();
    assert(out@ =~= before + list_bytes(d0));
    put_injected(out, Injected::I32Const(amount as i32), Ghost(d0));
    let ghost d1 = d0.push(Injected::I32Const(amount as i32));
    put_injected(out, Injected::Call(charge), Ghost(d1));
    assert(d1.push(Injected::Call(charge)) =~= seq![
        Injected::I32Const(amount as i32),
        Injected::Call(charge),
    ]);
}

/// Append an instruction of the original.
fn emit_original(
    out: &mut Vec<u8>,
    op: &Operator,
    written: &Vec<u8>,
    imported: u32,
)
    ensures
        final(out)@ == old(out)@ + original_bytes(*op, written@, imported),
{
    match op {
        Operator::Call { function_index: f } => {
            encode_instruction(out, Injected::Call(function_index(*f, imported)));
        },
        Operator::ReturnCall { function_index: f, .. } => {
            encode_instruction(out, Injected::ReturnCall(function_index(*f, imported)));
        },
        Operator::RefFunc { function_index: f, .. } => {
            encode_instruction(out, Injected::RefFunc(function_index(*f, imported)));
        },
        _ => {
            put_bytes(out, written.as_slice());
        },
    }
}

/// Instructions that are the same are treated the same.
proof fn lemma_same_treatment(a: Operator, b: Operator, globals: Seq<Option<FloatWidth>>)
    requires
        same_operator(a, b),
    ensures
        is_boundary(a) == is_boundary(b),
        minted(a) == minted(b),
        escaping(a, globals) == escaping(b, globals),
{
}

/// What is charged in front of each instruction.
///
/// A run begins at the first instruction and after every control-flow one; its length includes
/// the instruction that ends it.
pub fn charges(config: Config, ops: &Vec<Operator>) -> (r: Vec<u32>)
    ensures
        r@.len() == ops@.len(),
        forall|i: int| 0 <= i < ops@.len() ==> #[trigger] r@[i] == charged_at(config, ops@, i),
{
    let n: usize = ops.len();
    let mut amounts: Vec<u32> = vec![0u32; n];
    if !config.meter_fuel {
        return amounts;
    }
    let mut run: usize = 0;
    let mut i: usize = n;
    while i > 0
        invariant
            i <= n == ops@.len(),
            config.meter_fuel,
            amounts@.len() == n,
            run <= n - i,
            run == run_length(ops@, i as int),
            forall|k: int| i <= k < n ==> #[trigger] amounts@[k] == charged_at(config, ops@, k),
        decreases i,
    {
        i = i - 1;
        run = if ends_run(&ops[i]) {
            1
        } else {
            run + 1
        };
        let first: bool = if i == 0 {
            true
        } else {
            ends_run(&ops[i - 1])
        };
        amounts.set(
            i,
            if first {
                clamp(run)
            } else {
                0
            },
        );
    }
    amounts
}

proof fn lemma_injected_bytes(
    list: Seq<Injected>,
    ops: Seq<Operator>,
    written: Seq<Seq<u8>>,
    imported: u32,
)
    ensures
        code_bytes(injected(list), ops, written, imported) == list_bytes(list),
    decreases list.len(),
{
    if list.len() > 0 {
        lemma_injected_bytes(list.drop_last(), ops, written, imported);
        assert(injected(list).drop_last() =~= injected(list.drop_last()));
    }
}

/// The bytes that one instruction becomes.
proof fn lemma_emitted_for(
    plan: Plan,
    ops: Seq<Operator>,
    written: Seq<Seq<u8>>,
    i: int,
)
    ensures
        code_bytes(plan.emitted_for(ops, i), ops, written, plan.imported) == list_bytes(
            plan.charge(ops, i),
        ) + list_bytes(plan.fix(fixed_before(plan.config, ops[i], plan.globals)))
            + original_bytes(ops[i], written[i], plan.imported) + list_bytes(
            plan.fix(fixed_after(plan.config, ops[i])),
        ),
{
    let one = |e: Emitted| emitted_bytes(e, ops, written, plan.imported);
    let (a, b, c, d) = (
        injected(plan.charge(ops, i)),
        injected(plan.fix(fixed_before(plan.config, ops[i], plan.globals))),
        seq![Emitted::Original(i)],
        injected(plan.fix(fixed_after(plan.config, ops[i]))),
    );
    lemma_injected_bytes(plan.charge(ops, i), ops, written, plan.imported);
    lemma_injected_bytes(
        plan.fix(fixed_before(plan.config, ops[i], plan.globals)),
        ops,
        written,
        plan.imported,
    );
    lemma_injected_bytes(plan.fix(fixed_after(plan.config, ops[i])), ops, written, plan.imported);
    lemma_concat_all_add(a + b + c, d, one);
    lemma_concat_all_add(a + b, c, one);
    lemma_concat_all_add(a, b, one);
    assert(c.drop_last() =~= Seq::<Emitted>::empty());
    assert(concat_all(c.drop_last(), one) =~= Seq::<u8>::empty());
    assert(c.last() == Emitted::Original(i));
    assert(concat_all(c, one) =~= original_bytes(ops[i], written[i], plan.imported));
}

/// The lengths of runs, and so the charges, are the same for the same instructions.
proof fn lemma_same_runs(a: Seq<Operator>, b: Seq<Operator>, i: int)
    requires
        same_operators(a, b),
        0 <= i <= a.len(),
    ensures
        run_length(a, i) == run_length(b, i),
        i > 0 ==> is_boundary(a[i - 1]) == is_boundary(b[i - 1]),
    decreases a.len() - i,
{
    if i > 0 {
        assert(same_operator(a[i - 1], b[i - 1]));
    }
    if i < a.len() {
        assert(same_operator(a[i], b[i]));
        lemma_same_runs(a, b, i + 1);
    }
}

/// The same instructions become the same, written the same.
proof fn lemma_same_code(plan: Plan, a: Seq<Operator>, b: Seq<Operator>, n: nat)
    requires
        same_operators(a, b),
        n <= a.len(),
    ensures
        plan.emitted(a, n) == plan.emitted(b, n),
    decreases n,
{
    if n > 0 {
        lemma_same_code(plan, a, b, (n - 1) as nat);
        lemma_same_runs(a, b, n - 1);
        assert(same_operator(a[n - 1], b[n - 1]));
        lemma_same_treatment(a[n - 1], b[n - 1], plan.globals);
    }
}

/// What is emitted refers to instructions that are there.
spec fn refers_within(e: Seq<Emitted>, n: nat) -> bool {
    forall|i: int| 0 <= i < e.len() ==> (#[trigger] e[i] matches Emitted::Original(k) ==> 0 <= k < n)
}

proof fn lemma_refers_within(plan: Plan, ops: Seq<Operator>, n: nat)
    ensures
        refers_within(plan.emitted(ops, n), n),
    decreases n,
{
    if n > 0 {
        lemma_refers_within(plan, ops, (n - 1) as nat);
    }
}

/// The same instructions are written the same.
proof fn lemma_same_bytes(
    e: Seq<Emitted>,
    a: Seq<Operator>,
    b: Seq<Operator>,
    written: Seq<Seq<u8>>,
    imported: u32,
)
    requires
        same_operators(a, b),
        refers_within(e, a.len()),
    ensures
        code_bytes(e, a, written, imported) == code_bytes(e, b, written, imported),
    decreases e.len(),
{
    if e.len() > 0 {
        assert forall|i: int| 0 <= i < e.drop_last().len() implies (
        #[trigger] e.drop_last()[i] matches Emitted::Original(k) ==> 0 <= k < a.len()) by {
            assert(e.drop_last()[i] == e[i]);
        }
        lemma_same_bytes(e.drop_last(), a, b, written, imported);
        if let Emitted::Original(k) = e.last() {
            assert(e[e.len() - 1] == e.last());
            assert(same_operator(a[k], b[k]));
        }
    }
}

/// How a body is rewritten.
pub struct Instrumenter<'a> {
    /// Which parts of the pass to apply.
    pub config: Config,
    /// Number of imported functions in the *original* module, and so the index of `charge`.
    pub imported_funcs: u32,
    /// Float width of each global by index.
    pub global_widths: &'a Vec<Option<FloatWidth>>,
    /// The `f32` scratch local.
    pub scratch_f32: u32,
    /// The `f64` scratch local.
    pub scratch_f64: u32,
}

impl<'a> Instrumenter<'a> {
    /// What decides how the body is rewritten.
    pub open spec fn plan(&self) -> Plan {
        Plan {
            config: self.config,
            imported: self.imported_funcs,
            globals: self.global_widths@,
            scratch_f32: self.scratch_f32,
            scratch_f64: self.scratch_f64,
        }
    }

    fn scratch(&self, width: FloatWidth) -> (r: u32)
        ensures
            r == self.plan().scratch(width),
    {
        match width {
            FloatWidth::F32 => self.scratch_f32,
            FloatWidth::F64 => self.scratch_f64,
        }
    }

    /// Append what fixes a value, if one has to be fixed.
    fn emit_fix(&self, out: &mut Vec<u8>, width: Option<FloatWidth>)
        ensures
            final(out)@ == old(out)@ + list_bytes(self.plan().fix(width)),
    {
        match width {
            Some(width) => emit_canonicalization(out, width, self.scratch(width)),
            None => {
                assert(out@ =~= old(out)@ + list_bytes(Seq::empty()));
            },
        }
    }

    /// The rewritten code.
    pub fn emit(&self, ops: &Vec<Operator>, written: &Vec<Vec<u8>>) -> (r: Vec<u8>)
        requires
            written@.len() == ops@.len(),
        ensures
            r@ == code_bytes(
                self.plan().emitted(ops@, ops@.len()),
                ops@,
                written.deep_view(),
                self.imported_funcs,
            ),
    {
        let ghost plan = self.plan();
        let ghost all = ops@;
        let ghost given = written.deep_view();
        let ghost one = |e: Emitted| emitted_bytes(e, all, given, plan.imported);
        let amounts = charges(self.config, ops);
        let mut out: Vec<u8> = Vec::new();
        let mut i: usize = 0;
        assert(out@ =~= code_bytes(plan.emitted(all, 0), all, given, plan.imported));
        while i < ops.len()
            invariant
                i <= ops@.len(),
                plan == self.plan(),
                given == written.deep_view(),
                all == ops@,
                written@.len() == all.len(),
                amounts@.len() == all.len(),
                forall|k: int|
                    0 <= k < all.len() ==> #[trigger] amounts@[k] == charged_at(
                        self.config,
                        all,
                        k,
                    ),
                one == (|e: Emitted| emitted_bytes(e, all, given, plan.imported)),
                out@ == code_bytes(plan.emitted(all, i as nat), all, given, plan.imported),
            decreases ops@.len() - i,
        {
            let ghost before = out@;
            proof {
                lemma_emitted_for(plan, all, given, i as int);
                lemma_concat_all_add(
                    plan.emitted(all, i as nat),
                    plan.emitted_for(all, i as int),
                    one,
                );
                assert(given[i as int] == written@[i as int]@);
            }
            let op = &ops[i];
            if amounts[i] > 0 {
                emit_charge(&mut out, amounts[i], self.imported_funcs);
            } else {
                assert(out@ =~= before + list_bytes(Seq::empty()));
            }
            assert(out@ == before + list_bytes(plan.charge(all, i as int)));
            // Before: fix the operand of an operation that could leak a payload. The value is
            // already on top of the stack, which is why this needs no shuffling.
            self.emit_fix(&mut out, self.canonicalization_before(op));
            emit_original(&mut out, op, &written[i], self.imported_funcs);
            // After: fix the result of an operation that could mint an engine-chosen NaN.
            self.emit_fix(&mut out, self.canonicalization_after(op));
            i = i + 1;
            assert(out@ =~= code_bytes(plan.emitted(all, i as nat), all, given, plan.imported));
        }
        out
    }

    /// Canonicalize the top of the stack *before* this operator?
    fn canonicalization_before(&self, op: &Operator) -> (r: Option<FloatWidth>)
        ensures
            r == fixed_before(self.config, *op, self.global_widths@),
    {
        match self.config.canonicalize {
            Canonicalization::Never => None,
            Canonicalization::Everywhere | Canonicalization::AtEscapes => escape_site(
                op,
                self.global_widths,
            ),
        }
    }

    /// Canonicalize the result *after* this operator?
    fn canonicalization_after(&self, op: &Operator) -> (r: Option<FloatWidth>)
        ensures
            r == fixed_after(self.config, *op),
    {
        match self.config.canonicalize {
            Canonicalization::Everywhere => nan_producing(op),
            Canonicalization::Never | Canonicalization::AtEscapes => None,
        }
    }
}

/// Does fixing this instruction's operand or result need a scratch local of a width?
pub open spec fn uses_scratch(
    config: Config,
    op: Operator,
    globals: Seq<Option<FloatWidth>>,
    width: FloatWidth,
) -> bool {
    fixed_before(config, op, globals) == Some(width) || fixed_after(config, op) == Some(width)
}

/// Does some instruction need a scratch local of a width?
///
/// A slot is allocated only where it is used: unused ones cost on every call.
pub open spec fn needs_scratch(
    config: Config,
    ops: Seq<Operator>,
    globals: Seq<Option<FloatWidth>>,
    width: FloatWidth,
) -> bool {
    exists|i: int|
        0 <= i < ops.len() && uses_scratch(config, #[trigger] ops[i], globals, width)
}

/// The scratch locals that are added.
pub open spec fn added_locals(f32s: bool, f64s: bool) -> Seq<Kind> {
    (if f32s {
        seq![Kind::F32]
    } else {
        Seq::empty()
    }) + (if f64s {
        seq![Kind::F64]
    } else {
        Seq::empty()
    })
}

/// The parameter count of a defined function.
pub open spec fn params_at(f: Facts, index: nat) -> Result<u32, ErrorView> {
    if index >= f.function_types.len() {
        Err(ErrorView::BodyWithoutSignature(index))
    } else {
        let t = f.function_types[index as int];
        if t < f.type_params.len() && f.type_params[t as int] is Some {
            Ok(f.type_params[t as int]->0)
        } else {
            Err(ErrorView::NotAFunctionType(t))
        }
    }
}

/// How many locals a body declares.
pub open spec fn locals_declared(runs: Seq<(u32, Seq<char>)>, error: Option<Seq<char>>) -> Result<
    nat,
    ErrorView,
> {
    let declared = declared_locals(runs, runs.len());
    if declared > u32::MAX {
        Err(ErrorView::LocalIndexOverflow)
    } else {
        read_whole(declared, error)
    }
}

/// Where the scratch locals are: behind everything the function declares, the `f64` one behind
/// the `f32` one if there is one.
pub open spec fn scratch_locals(params: u32, declared: nat, f32s: bool) -> Result<
    (u32, u32),
    ErrorView,
> {
    let base = params + declared;
    if base > u32::MAX || (f32s && base + 1 > u32::MAX) {
        Err(ErrorView::LocalIndexOverflow)
    } else if f32s {
        Ok((base as u32, (base + 1) as u32))
    } else {
        Ok((base as u32, base as u32))
    }
}

/// What a function body becomes, given how each of its instructions is written: the locals that
/// are added, and the code.
pub open spec fn code_rewritten(
    f: Facts,
    config: Config,
    index: nat,
    b: BodyView,
    written: Result<Seq<Seq<u8>>, Seq<char>>,
) -> Result<(Seq<Kind>, Seq<u8>), ErrorView> {
    match params_at(f, index) {
        Err(e) => Err(e),
        Ok(params) => match locals_declared(b.locals.0, b.locals.1) {
            Err(e) => Err(e),
            Ok(declared) => match b.code {
                Err(detail) => Err(ErrorView::Parse(detail)),
                Ok(listing) => if !listing.complete {
                    Err(ErrorView::Parse(listing.error))
                } else {
                    let ops = listing.ops;
                    let f32s = needs_scratch(config, ops, f.globals, FloatWidth::F32);
                    let f64s = needs_scratch(config, ops, f.globals, FloatWidth::F64);
                    match scratch_locals(params, declared, f32s) {
                        Err(e) => Err(e),
                        Ok((scratch_f32, scratch_f64)) => match written {
                            Err(detail) => Err(ErrorView::Parse(detail)),
                            Ok(written) => {
                                let plan = Plan {
                                    config,
                                    imported: clamped(f.imported),
                                    globals: f.globals,
                                    scratch_f32,
                                    scratch_f64,
                                };
                                Ok(
                                    (
                                        added_locals(f32s, f64s),
                                        code_bytes(
                                            plan.emitted(ops, ops.len()),
                                            ops,
                                            written,
                                            plan.imported,
                                        ),
                                    ),
                                )
                            },
                        },
                    }
                },
            },
        },
    }
}

/// How each instruction of a body is written, or why one cannot be.
pub open spec fn body_operators(body: Seq<u8>, at: u64) -> Result<Seq<Seq<u8>>, Seq<char>> {
    match wasm::code_start_of(body, at) {
        Ok(start) => encode::rewritten_operators(body.skip(start as int), (at + start) as u64),
        Err(detail) => Err(detail),
    }
}

/// A function body, rewritten.
pub open spec fn body_rewritten(
    f: Facts,
    config: Config,
    index: nat,
    body: Seq<u8>,
    at: u64,
) -> Result<Seq<u8>, ErrorView> {
    match code_rewritten(f, config, index, body_of(body, at), body_operators(body, at)) {
        Err(e) => Err(e),
        Ok((more, code)) => encoded(
            encode::body_written(body, more, code),
            encode::body_written_fault(body, at, more, code),
        ),
    }
}

/// The original's instructions and nothing else.
pub open spec fn only_originals(n: nat) -> Seq<Emitted> {
    Seq::new(n, |i: int| Emitted::Original(i))
}

/// What instructions become where nothing is added.
pub open spec fn instructions_rewritten(
    listing: ListingView,
    written: Result<Seq<Seq<u8>>, Seq<char>>,
    imported: u32,
) -> Result<Seq<u8>, ErrorView> {
    if !listing.complete {
        Err(ErrorView::Parse(listing.error))
    } else {
        match written {
            Err(detail) => Err(ErrorView::Parse(detail)),
            Ok(written) => Ok(
                code_bytes(
                    only_originals(listing.ops.len()),
                    listing.ops,
                    written,
                    imported,
                ),
            ),
        }
    }
}

/// An expression of a section, rewritten, where the section begins at an offset of the module.
pub open spec fn expression_rewritten(
    section: Seq<u8>,
    at: u64,
    span: Span,
    imported: u32,
) -> Result<Seq<u8>, ErrorView> {
    let (bytes, at) = (slice_of(section, span), (at + span.start) as u64);
    instructions_rewritten(
        listing_of(bytes, at),
        encode::rewritten_operators(bytes, at),
        imported,
    )
}

/// Rewrite instructions where nothing is added.
pub fn rewrite_instructions(
    listing: &Listing,
    written: &Result<Vec<Vec<u8>>, String>,
    imported: u32,
) -> (r: Result<Vec<u8>, Error>)
    requires
        written matches Ok(w) ==> w@.len() == listing.ops@.len(),
    ensures
        match (
            r,
            instructions_rewritten(listing.deep_view(), written_view(*written), imported),
        ) {
            (Ok(a), Ok(b)) => a@ == b,
            (Err(e), Err(g)) => e@ == g,
            _ => false,
        },
{
    if !listing.complete {
        return Err(Error::Parse { detail: listing.error.clone() });
    }
    let written = match written {
        Ok(written) => written,
        Err(detail) => return Err(Error::Parse { detail: detail.clone() }),
    };
    let ops = &listing.ops;
    let ghost given = written.deep_view();
    let ghost one = |e: Emitted| emitted_bytes(e, ops@, given, imported);
    let ghost whole = only_originals(ops@.len());
    let mut out: Vec<u8> = Vec::new();
    let mut i: usize = 0;
    assert(whole.take(0) =~= Seq::empty());
    assert(out@ =~= concat_all(whole.take(0), one));
    while i < ops.len()
        invariant
            i <= ops@.len(),
            given == written.deep_view(),
            written@.len() == ops@.len(),
            one == (|e: Emitted| emitted_bytes(e, ops@, given, imported)),
            whole == only_originals(ops@.len()),
            out@ == concat_all(whole.take(i as int), one),
        decreases ops@.len() - i,
    {
        proof {
            assert(given[i as int] == written@[i as int]@);
            lemma_concat_all_push(whole, i as int, one);
        }
        emit_original(&mut out, &ops[i], &written[i], imported);
        i = i + 1;
    }
    assert(whole.take(i as int) =~= whole);
    Ok(out)
}

/// How each instruction is written, or why one cannot be, viewed.
pub open spec fn written_view(w: Result<Vec<Vec<u8>>, String>) -> Result<Seq<Seq<u8>>, Seq<char>> {
    match w {
        Ok(w) => Ok(w.deep_view()),
        Err(e) => Err(e@),
    }
}

/// Rewrite an expression.
fn rewrite_expression(section: &[u8], at: u64, span: Span, imported: u32) -> (r: Result<
    Vec<u8>,
    Error,
>)
    requires
        span.start <= span.end <= section@.len(),
        at + section@.len() <= u64::MAX,
    ensures
        match (r, expression_rewritten(section@, at, span, imported)) {
            (Ok(a), Ok(b)) => a@ == b,
            (Err(e), Err(g)) => e@ == g,
            _ => false,
        },
{
    let bytes = vstd::slice::slice_subrange(section, span.start, span.end);
    let start: u64 = at + span.start as u64;
    let listing = wasm::read_operators(bytes, start);
    let written = encode::encode_operators(bytes, start);
    proof {
        let all = listing_of(slice_of(section@, span), start);
        if let Ok(given) = written_view(written) {
            lemma_same_bytes(
                only_originals(all.ops.len()),
                listing.ops@,
                all.ops,
                given,
                imported,
            );
        }
    }
    rewrite_instructions(&listing, &written, imported)
}

/// The bytes that each instruction of a run takes up, given where each begins.
pub open spec fn pieces(bytes: Seq<u8>, starts: Seq<usize>) -> Seq<Seq<u8>> {
    Seq::new(
        starts.len(),
        |k: int|
            bytes.subrange(
                starts[k] as int,
                if k + 1 < starts.len() {
                    starts[k + 1] as int
                } else {
                    bytes.len() as int
                },
            ),
    )
}

/// An expression of a section, its references to functions renumbered and otherwise as it is.
pub open spec fn expression_renumbered(
    section: Seq<u8>,
    at: u64,
    span: Span,
    imported: u32,
) -> Result<Seq<u8>, ErrorView> {
    let (bytes, at) = (slice_of(section, span), (at + span.start) as u64);
    instructions_rewritten(
        listing_of(bytes, at),
        Ok(pieces(bytes, wasm::operator_starts_in(bytes))),
        imported,
    )
}

/// What a section becomes up to the end of an expression of it, and where that is.
pub open spec fn renumbered_to(
    section: Seq<u8>,
    at: u64,
    done: (Seq<u8>, int),
    span: Option<Span>,
    imported: u32,
) -> Result<(Seq<u8>, int), ErrorView> {
    match span {
        None => Ok(done),
        Some(s) => match expression_renumbered(section, at, s, imported) {
            Err(e) => Err(e),
            Ok(b) => Ok(
                (done.0 + section.subrange(done.1, s.start as int) + b, s.end as int),
            ),
        },
    }
}

/// A section, the expressions at some places of it renumbered and otherwise as it is.
pub open spec fn section_renumbered(
    section: Seq<u8>,
    at: u64,
    spans: Seq<Option<Span>>,
    imported: u32,
) -> Result<Seq<u8>, ErrorView> {
    match each(
        (Seq::<u8>::empty(), 0int),
        spans,
        |done: (Seq<u8>, int), s: Option<Span>| renumbered_to(section, at, done, s, imported),
    ) {
        Err(e) => Err(e),
        Ok((out, from)) => Ok(out + section.skip(from)),
    }
}

proof fn lemma_leb_len(n: nat)
    requires
        n <= u32::MAX,
    ensures
        leb(n).len() <= 5,
{
    reveal_with_fuel(leb, 5);
}

/// An instruction that names a function takes at most six bytes.
proof fn lemma_original_len(op: Operator, written: Seq<u8>, imported: u32)
    requires
        written.len() >= 1,
    ensures
        original_bytes(op, written, imported).len() <= 6 * written.len(),
{
    match op {
        Operator::Call { function_index } => {
            lemma_leb_len(shifted(function_index, imported) as nat);
        },
        Operator::ReturnCall { function_index, .. } => {
            lemma_leb_len(shifted(function_index, imported) as nat);
        },
        Operator::RefFunc { function_index, .. } => {
            lemma_leb_len(shifted(function_index, imported) as nat);
        },
        _ => {},
    }
}

proof fn lemma_renumbered_len(
    bytes: Seq<u8>,
    starts: Seq<usize>,
    ops: Seq<Operator>,
    imported: u32,
    n: nat,
)
    requires
        starts.len() == ops.len(),
        n <= ops.len(),
        starts.len() > 0 ==> starts[0] == 0,
        forall|i: int, j: int| 0 <= i < j < starts.len() ==> starts[i] < starts[j],
        forall|i: int| 0 <= i < starts.len() ==> (#[trigger] starts[i]) < bytes.len(),
    ensures
        concat_all(
            only_originals(ops.len()).take(n as int),
            |e: Emitted| emitted_bytes(e, ops, pieces(bytes, starts), imported),
        ).len() <= 6 * (if n < starts.len() {
            starts[n as int] as int
        } else {
            bytes.len() as int
        }),
    decreases n,
{
    let all = only_originals(ops.len());
    let given = pieces(bytes, starts);
    let one = |e: Emitted| emitted_bytes(e, ops, given, imported);
    if n == 0 {
        assert(all.take(0) =~= Seq::empty());
    } else {
        lemma_renumbered_len(bytes, starts, ops, imported, (n - 1) as nat);
        lemma_concat_all_push(all, n - 1, one);
        lemma_original_len(ops[n - 1], given[n - 1], imported);
    }
}

/// Renumber an expression.
fn renumber_expression(section: &[u8], at: u64, span: Span, imported: u32) -> (r: Result<
    Vec<u8>,
    Error,
>)
    requires
        span.start <= span.end <= section@.len(),
        at + section@.len() <= u64::MAX,
    ensures
        match (r, expression_renumbered(section@, at, span, imported)) {
            (Ok(a), Ok(b)) => a@ == b && a@.len() <= 6 * (span.end - span.start),
            (Err(e), Err(g)) => e@ == g,
            _ => false,
        },
{
    let bytes = vstd::slice::slice_subrange(section, span.start, span.end);
    let start: u64 = at + span.start as u64;
    let listing = wasm::read_operators(bytes, start);
    let starts = wasm::read_operator_starts(bytes);
    let mut list: Vec<Vec<u8>> = Vec::new();
    let mut k: usize = 0;
    while k < starts.len()
        invariant
            k <= starts@.len(),
            list@.len() == k,
            forall|i: int| 0 <= i < starts@.len() ==> (#[trigger] starts@[i]) < bytes@.len(),
            forall|i: int, j: int| 0 <= i < j < starts@.len() ==> starts@[i] < starts@[j],
            forall|i: int|
                0 <= i < k ==> (#[trigger] list@[i])@ == pieces(bytes@, starts@)[i],
        decreases starts@.len() - k,
    {
        let end: usize = if k + 1 < starts.len() {
            starts[k + 1]
        } else {
            bytes.len()
        };
        let piece = vstd::slice::slice_to_vec(
            vstd::slice::slice_subrange(bytes, starts[k], end),
        );
        list.push(piece);
        k = k + 1;
    }
    let ghost all = listing_of(bytes@, start);
    let ghost given = pieces(bytes@, starts@);
    proof {
        assert(list.deep_view() =~= given) by {
            assert forall|i: int| 0 <= i < given.len() implies list.deep_view()[i]
                == given[i] by {
                assert(list@[i].deep_view() =~= list@[i]@);
            }
        }
        lemma_same_bytes(only_originals(all.ops.len()), listing.ops@, all.ops, given, imported);
        lemma_renumbered_len(bytes@, starts@, all.ops, imported, all.ops.len());
        assert(only_originals(all.ops.len()).take(all.ops.len() as int) =~= only_originals(
            all.ops.len(),
        ));
    }
    rewrite_instructions(&listing, &Ok(list), imported)
}

/// Renumber the expressions at some places of a section.
fn renumber_section(section: &[u8], at: u64, spans: &Vec<Option<Span>>, imported: u32) -> (r: Result<
    Vec<u8>,
    Error,
>)
    requires
        at + section@.len() <= u64::MAX,
        section@.len() <= MAX_COPIED,
        wasm::in_order(spans@),
        forall|i: int|
            0 <= i < spans@.len() ==> ((#[trigger] spans@[i]) matches Some(s)
                ==> wasm::span_within(s, 0, section@.len() as int)),
    ensures
        match (r, section_renumbered(section@, at, spans@, imported)) {
            (Ok(a), Ok(b)) => a@ == b && a@.len() <= MAX_RENUMBERED,
            (Err(e), Err(g)) => e@ == g,
            _ => false,
        },
{
    let ghost one = |done: (Seq<u8>, int), s: Option<Span>|
        renumbered_to(section@, at, done, s, imported);
    let ghost whole = each((Seq::<u8>::empty(), 0int), spans@, one);
    let mut out: Vec<u8> = Vec::new();
    let mut from: usize = 0;
    let mut i: usize = 0;
    assert(spans@.skip(0) =~= spans@);
    assert(out@ =~= Seq::<u8>::empty());
    while i < spans.len()
        invariant
            i <= spans@.len(),
            at + section@.len() <= u64::MAX,
            section@.len() <= MAX_COPIED,
            wasm::in_order(spans@),
            forall|i: int|
                0 <= i < spans@.len() ==> ((#[trigger] spans@[i]) matches Some(s)
                    ==> wasm::span_within(s, 0, section@.len() as int)),
            from <= section@.len(),
            forall|k: int|
                i <= k < spans@.len() ==> ((#[trigger] spans@[k]) matches Some(s) ==> from
                    <= s.start),
            out@.len() <= 6 * from,
            one == (|done: (Seq<u8>, int), s: Option<Span>|
                renumbered_to(section@, at, done, s, imported)),
            whole == each((Seq::<u8>::empty(), 0int), spans@, one),
            section_renumbered(section@, at, spans@, imported) == (match whole {
                Err(e) => Err(e),
                Ok((out, from)) => Ok(out + section@.skip(from)),
            }),
            each((out@, from as int), spans@.skip(i as int), one) == whole,
        decreases spans@.len() - i,
    {
        proof {
            assert(spans@.skip(i as int).drop_first() =~= spans@.skip(i + 1));
            assert(spans@.skip(i as int)[0] == spans@[i as int]);
        }
        if let Some(span) = spans[i] {
            assert(spans@[i as int] == Some(span));
            let b = match renumber_expression(section, at, span, imported) {
                Ok(b) => b,
                Err(e) => return Err(e),
            };
            let ghost before = out@;
            let kept = vstd::slice::slice_subrange(section, from, span.start);
            put_bytes(&mut out, kept);
            put_bytes(&mut out, b.as_slice());
            assert(out@ =~= before + section@.subrange(from as int, span.start as int) + b@);
            proof {
                assert forall|k: int| i + 1 <= k < spans@.len() implies ((
                #[trigger] spans@[k]) matches Some(s) ==> span.end <= s.start) by {
                    if spans@[k] is Some {
                        assert(spans@[i as int]->0.end <= spans@[k]->0.start);
                    }
                }
            }
            from = span.end;
        }
        i = i + 1;
    }
    let rest = vstd::slice::slice_subrange(section, from, section.len());
    let ghost before = out@;
    put_bytes(&mut out, rest);
    assert(out@ =~= before + section@.skip(from as int));
    Ok(out)
}

impl Survey {
    /// The parameter count of a defined function.
    fn params(&self, index: usize, Ghost(f): Ghost<Facts>) -> (r: Result<u32, Error>)
        requires
            self.gathers(f),
        ensures
            match (r, params_at(f, index as nat)) {
                (Ok(a), Ok(b)) => a == b,
                (Err(e), Err(g)) => e@ == g,
                _ => false,
            },
    {
        if index >= self.function_types.len() {
            return Err(Error::BodyWithoutSignature { index });
        }
        let type_index: u32 = self.function_types[index];
        if type_index as usize >= self.type_params.len() {
            return Err(Error::NotAFunctionType { type_index });
        }
        match self.type_params[type_index as usize] {
            Some(params) => Ok(params),
            None => Err(Error::NotAFunctionType { type_index }),
        }
    }
}

/// How many locals a body declares.
fn count_locals(runs: &Vec<(u32, String)>, error: &Option<String>) -> (r: Result<u32, Error>)
    ensures
        match (r, locals_declared(runs.deep_view(), error.deep_view())) {
            (Ok(a), Ok(b)) => a == b,
            (Err(e), Err(g)) => e@ == g,
            _ => false,
        },
{
    let ghost found = runs.deep_view();
    let mut declared: u32 = 0;
    let mut i: usize = 0;
    while i < runs.len()
        invariant
            i <= runs@.len(),
            runs.deep_view() == found,
            declared == declared_locals(found, i as nat),
        decreases runs@.len() - i,
    {
        assert(found[i as int] == runs@[i as int].deep_view());
        declared = match declared.checked_add(runs[i].0) {
            Some(n) => n,
            None => {
                proof {
                    lemma_declared_grows(found, (i + 1) as nat, found.len());
                }
                return Err(Error::LocalIndexOverflow);
            },
        };
        i = i + 1;
    }
    match finish(error) {
        Ok(_) => Ok(declared),
        Err(e) => Err(e),
    }
}

proof fn lemma_declared_grows(runs: Seq<(u32, Seq<char>)>, n: nat, m: nat)
    requires
        n <= m,
    ensures
        declared_locals(runs, n) <= declared_locals(runs, m),
    decreases m,
{
    if n < m {
        lemma_declared_grows(runs, n, (m - 1) as nat);
    }
}

/// Which scratch locals a body needs.
fn find_scratch(
    config: Config,
    ops: &Vec<Operator>,
    global_widths: &Vec<Option<FloatWidth>>,
    width: FloatWidth,
) -> (r: bool)
    ensures
        r == needs_scratch(config, ops@, global_widths@, width),
{
    let pass = Instrumenter {
        config,
        imported_funcs: 0,
        global_widths,
        scratch_f32: 0,
        scratch_f64: 0,
    };
    let mut i: usize = 0;
    while i < ops.len()
        invariant
            i <= ops@.len(),
            pass.config == config,
            pass.global_widths == global_widths,
            forall|k: int|
                0 <= k < i ==> !uses_scratch(config, #[trigger] ops@[k], global_widths@, width),
        decreases ops@.len() - i,
    {
        if pass.canonicalization_before(&ops[i]) == Some(width) || pass.canonicalization_after(
            &ops[i],
        ) == Some(width) {
            assert(uses_scratch(config, ops@[i as int], global_widths@, width));
            return true;
        }
        i = i + 1;
    }
    false
}

/// The same instructions need the same scratch locals.
proof fn lemma_same_scratch(
    config: Config,
    a: Seq<Operator>,
    b: Seq<Operator>,
    globals: Seq<Option<FloatWidth>>,
    width: FloatWidth,
)
    requires
        same_operators(a, b),
    ensures
        needs_scratch(config, a, globals, width) == needs_scratch(config, b, globals, width),
{
    assert forall|i: int| 0 <= i < a.len() implies uses_scratch(config, a[i], globals, width)
        == #[trigger] uses_scratch(config, b[i], globals, width) by {
        assert(same_operator(a[i], b[i]));
    }
    if needs_scratch(config, a, globals, width) {
        let i = choose|i: int|
            0 <= i < a.len() && uses_scratch(config, #[trigger] a[i], globals, width);
        assert(uses_scratch(config, b[i], globals, width));
    }
}

/// Bodies that are alike become the same.
proof fn lemma_same_rewriting(
    f: Facts,
    config: Config,
    index: nat,
    a: BodyView,
    b: BodyView,
    written: Result<Seq<Seq<u8>>, Seq<char>>,
)
    requires
        same_body(a, b),
    ensures
        code_rewritten(f, config, index, a, written) == code_rewritten(
            f,
            config,
            index,
            b,
            written,
        ),
{
    if let (Ok(x), Ok(y)) = (a.code, b.code) {
        lemma_same_scratch(config, x.ops, y.ops, f.globals, FloatWidth::F32);
        lemma_same_scratch(config, x.ops, y.ops, f.globals, FloatWidth::F64);
        if let (Ok(params), Ok(declared)) = (
            params_at(f, index),
            locals_declared(a.locals.0, a.locals.1),
        ) {
            let f32s = needs_scratch(config, x.ops, f.globals, FloatWidth::F32);
            if let Ok((scratch_f32, scratch_f64)) = scratch_locals(params, declared, f32s) {
                let plan = Plan {
                    config,
                    imported: clamped(f.imported),
                    globals: f.globals,
                    scratch_f32,
                    scratch_f64,
                };
                lemma_same_code(plan, x.ops, y.ops, x.ops.len());
                lemma_refers_within(plan, x.ops, x.ops.len());
                if let Ok(given) = written {
                    lemma_same_bytes(
                        plan.emitted(x.ops, x.ops.len()),
                        x.ops,
                        y.ops,
                        given,
                        plan.imported,
                    );
                }
            }
        }
    }
}

/// Rewrite the code of a body, given how each of its instructions is written.
fn weave(
    facts: &Survey,
    config: Config,
    index: usize,
    body: &Body,
    written: &Result<Vec<Vec<u8>>, String>,
    Ghost(f): Ghost<Facts>,
) -> (r: Result<(Vec<Kind>, Vec<u8>), Error>)
    requires
        facts.gathers(f),
        body.code is Ok && written is Ok ==> written->Ok_0@.len()
            == body.code->Ok_0.ops@.len(),
    ensures
        match (
            r,
            code_rewritten(f, config, index as nat, body.deep_view(), written_view(*written)),
        ) {
            (Ok((a, b)), Ok((c, d))) => a@ == c && b@ == d && a@.len() <= 2,
            (Err(e), Err(g)) => e@ == g,
            _ => false,
        },
{
    let params: u32 = match facts.params(index, Ghost(f)) {
        Ok(n) => n,
        Err(e) => return Err(e),
    };
    let declared: u32 = match count_locals(&body.locals.0, &body.locals.1) {
        Ok(n) => n,
        Err(e) => return Err(e),
    };
    let listing = match &body.code {
        Ok(listing) => listing,
        Err(detail) => return Err(Error::Parse { detail: detail.clone() }),
    };
    if !listing.complete {
        return Err(Error::Parse { detail: listing.error.clone() });
    }
    let f32s: bool = find_scratch(config, &listing.ops, &facts.global_widths, FloatWidth::F32);
    let f64s: bool = find_scratch(config, &listing.ops, &facts.global_widths, FloatWidth::F64);
    let scratch_f32: u32 = match params.checked_add(declared) {
        Some(n) => n,
        None => return Err(Error::LocalIndexOverflow),
    };
    let scratch_f64: u32 = if f32s {
        match scratch_f32.checked_add(1) {
            Some(n) => n,
            None => return Err(Error::LocalIndexOverflow),
        }
    } else {
        scratch_f32
    };
    let written = match written {
        Ok(written) => written,
        Err(detail) => return Err(Error::Parse { detail: detail.clone() }),
    };
    let pass = Instrumenter {
        config,
        imported_funcs: facts.imported_funcs,
        global_widths: &facts.global_widths,
        scratch_f32,
        scratch_f64,
    };
    let emitted = pass.emit(&listing.ops, written);
    let mut more: Vec<Kind> = Vec::new();
    if f32s {
        more.push(Kind::F32);
    }
    if f64s {
        more.push(Kind::F64);
    }
    assert(more@ =~= added_locals(f32s, f64s));
    Ok((more, emitted))
}

/// Rewrite the code of a body, given how each of its instructions is written: the scratch locals
/// to add, and the code.
pub fn rewrite_code(
    facts: &Survey,
    config: Config,
    index: usize,
    body: &Body,
    written: &Result<Vec<Vec<u8>>, String>,
) -> (r: Result<(Vec<Kind>, Vec<u8>), Error>)
    requires
        body.code is Ok && written is Ok ==> written->Ok_0@.len()
            == body.code->Ok_0.ops@.len(),
    ensures
        match (
            r,
            code_rewritten(
                facts@,
                config,
                index as nat,
                body.deep_view(),
                written_view(*written),
            ),
        ) {
            (Ok((a, b)), Ok((c, d))) => a@ == c && b@ == d,
            (Err(e), Err(g)) => e@ == g,
            _ => false,
        },
{
    weave(facts, config, index, body, written, Ghost(facts@))
}

/// Rewrite a function body.
fn rewrite_body(
    facts: &Survey,
    config: Config,
    index: usize,
    module: &[u8],
    span: Span,
    Ghost(f): Ghost<Facts>,
) -> (r: Result<Vec<u8>, Error>)
    requires
        facts.gathers(f),
        span.start <= span.end <= module@.len(),
        module@.len() <= MAX_COPIED,
    ensures
        match (
            r,
            body_rewritten(
                f,
                config,
                index as nat,
                slice_of(module@, span),
                span.start as u64,
            ),
        ) {
            (Ok(a), Ok(b)) => a@ == b,
            (Err(e), Err(g)) => e@ == g,
            _ => false,
        },
{
    let bytes = vstd::slice::slice_subrange(module, span.start, span.end);
    let at: u64 = span.start as u64;
    let body = module::read_body(bytes, at);
    let written = match wasm::read_code_start(bytes, at) {
        Ok(start) => {
            let code = vstd::slice::slice_subrange(bytes, start, bytes.len());
            assert(code@ =~= bytes@.skip(start as int));
            encode::encode_operators(code, at + start as u64)
        },
        Err(detail) => Err(detail),
    };
    proof {
        lemma_same_rewriting(
            f,
            config,
            index as nat,
            body.deep_view(),
            body_of(bytes@, at),
            written_view(written),
        );
    }
    let (more, code) = match weave(facts, config, index, &body, &written, Ghost(f)) {
        Ok(woven) => woven,
        Err(e) => return Err(e),
    };
    take_encoded(encode::encode_body(bytes, at, more.as_slice(), code.as_slice()))
}

/// Numbers, how many and then each of them.
pub open spec fn numbers(list: Seq<u32>) -> Seq<u8> {
    leb(list.len()) + concat_all(list, |n: u32| leb(n as nat))
}

/// Append a section.
fn put_section(out: &mut Vec<u8>, id: u8, payload: &Vec<u8>)
    ensures
        final(out)@ == old(out)@ + framed(id, payload@),
{
    let ghost before = out@;
    out.push(id);
    put_leb(out, payload.len() as u64);
    put_bytes(out, payload.as_slice());
    assert(out@ =~= before + framed(id, payload@));
}

/// Append numbers.
fn put_numbers(out: &mut Vec<u8>, list: &Vec<u32>)
    ensures
        final(out)@ == old(out)@ + numbers(list@),
{
    let ghost start = out@;
    let ghost one = |n: u32| leb(n as nat);
    put_leb(out, list.len() as u64);
    let ghost before = out@;
    let mut i: usize = 0;
    assert(list@.take(0) =~= Seq::empty());
    assert(out@ =~= before + concat_all(list@.take(0), one));
    while i < list.len()
        invariant
            i <= list@.len(),
            one == (|n: u32| leb(n as nat)),
            out@ == before + concat_all(list@.take(i as int), one),
        decreases list@.len() - i,
    {
        proof {
            lemma_concat_all_push(list@, i as int, one);
        }
        put_leb(out, list[i] as u64);
        i = i + 1;
        assert(out@ =~= before + concat_all(list@.take(i as int), one));
    }
    assert(list@.take(i as int) =~= list@);
    assert(out@ =~= start + numbers(list@));
}

/// Runs of bytes, how many and then each of them as it is.
pub open spec fn runs(list: Seq<Seq<u8>>) -> Seq<u8> {
    leb(list.len()) + concat_all(list, |b: Seq<u8>| b)
}

/// Append runs of bytes.
fn put_runs(out: &mut Vec<u8>, list: &Vec<Vec<u8>>)
    ensures
        final(out)@ == old(out)@ + runs(list.deep_view()),
{
    let ghost start = out@;
    let ghost all = list.deep_view();
    let ghost one = |b: Seq<u8>| b;
    put_leb(out, list.len() as u64);
    let ghost before = out@;
    let mut i: usize = 0;
    assert(all.take(0) =~= Seq::empty());
    assert(out@ =~= before + concat_all(all.take(0), one));
    while i < list.len()
        invariant
            i <= list@.len(),
            all == list.deep_view(),
            one == (|b: Seq<u8>| b),
            out@ == before + concat_all(all.take(i as int), one),
        decreases list@.len() - i,
    {
        proof {
            lemma_concat_all_push(all, i as int, one);
            assert(all[i as int] =~= list@[i as int]@);
        }
        put_bytes(out, list[i].as_slice());
        i = i + 1;
        assert(out@ =~= before + concat_all(all.take(i as int), one));
    }
    assert(all.take(i as int) =~= all);
    assert(out@ =~= start + runs(all));
}

/// Runs of bytes, how many and then each with its length.
pub open spec fn sized_runs(list: Seq<Seq<u8>>) -> Seq<u8> {
    leb(list.len()) + concat_all(list, |b: Seq<u8>| leb(b.len()) + b)
}

/// Append runs of bytes with their lengths.
fn put_sized_runs(out: &mut Vec<u8>, list: &Vec<Vec<u8>>)
    ensures
        final(out)@ == old(out)@ + sized_runs(list.deep_view()),
{
    let ghost start = out@;
    let ghost all = list.deep_view();
    let ghost one = |b: Seq<u8>| leb(b.len()) + b;
    put_leb(out, list.len() as u64);
    let ghost before = out@;
    let mut i: usize = 0;
    assert(all.take(0) =~= Seq::empty());
    assert(out@ =~= before + concat_all(all.take(0), one));
    while i < list.len()
        invariant
            i <= list@.len(),
            all == list.deep_view(),
            one == (|b: Seq<u8>| leb(b.len()) + b),
            out@ == before + concat_all(all.take(i as int), one),
        decreases list@.len() - i,
    {
        proof {
            lemma_concat_all_push(all, i as int, one);
            assert(all[i as int] =~= list@[i as int]@);
        }
        put_leb(out, list[i].len() as u64);
        put_bytes(out, list[i].as_slice());
        i = i + 1;
        assert(out@ =~= before + concat_all(all.take(i as int), one));
    }
    assert(all.take(i as int) =~= all);
    assert(out@ =~= start + sized_runs(all));
}

/// Where functions are, once `charge` is among the imports.
pub open spec fn all_shifted(list: Seq<u32>, imported: u32) -> Seq<u32> {
    list.map_values(|f: u32| shifted(f, imported))
}

/// Shift every function of a list.
pub fn shift_all(list: &Vec<u32>, imported: u32) -> (r: Vec<u32>)
    ensures
        r@ == all_shifted(list@, imported),
{
    let mut out: Vec<u32> = Vec::new();
    let mut i: usize = 0;
    while i < list.len()
        invariant
            i <= list@.len(),
            out@ == all_shifted(list@.take(i as int), imported),
        decreases list@.len() - i,
    {
        out.push(function_index(list[i], imported));
        i = i + 1;
        assert(out@ =~= all_shifted(list@.take(i as int), imported));
    }
    assert(list@.take(i as int) =~= list@);
    out
}

/// The expressions of a list, rewritten, the first `n` of them.
pub open spec fn expressions_rewritten(
    section: Seq<u8>,
    at: u64,
    spans: Seq<Span>,
    imported: u32,
) -> Result<Seq<Seq<u8>>, ErrorView> {
    each(
        Seq::<Seq<u8>>::empty(),
        spans,
        |done: Seq<Seq<u8>>, span: Span|
            match expression_rewritten(section, at, span, imported) {
                Ok(b) => Ok(done.push(b)),
                Err(e) => Err(e),
            },
    )
}

/// What an element segment lists, rewritten.
pub open spec fn items_rewritten(
    section: Seq<u8>,
    at: u64,
    items: ElementItems,
    imported: u32,
) -> Result<Seq<u8>, ErrorView> {
    match items {
        ElementItems::Functions(s) => {
            let (list, error) = wasm::indices_of(slice_of(section, s), (at + s.start) as u64);
            read_whole(numbers(all_shifted(list, imported)), error)
        },
        ElementItems::Expressions(s) => {
            let (bytes, at) = (slice_of(section, s), (at + s.start) as u64);
            let (spans, error) = encode::expressions_of(bytes, at);
            match expressions_rewritten(bytes, at, spans, imported) {
                Err(e) => Err(e),
                Ok(list) => read_whole(runs(list), error),
            }
        },
    }
}

/// Rewrite what an element segment lists.
fn rewrite_items(section: &[u8], at: u64, items: ElementItems, imported: u32) -> (r: Result<
    Vec<u8>,
    Error,
>)
    requires
        wasm::span_within(wasm::items_span(items), 0, section@.len() as int),
        at + section@.len() <= u64::MAX,
    ensures
        match (r, items_rewritten(section@, at, items, imported)) {
            (Ok(a), Ok(b)) => a@ == b,
            (Err(e), Err(g)) => e@ == g,
            _ => false,
        },
{
    let mut out: Vec<u8> = Vec::new();
    match items {
        ElementItems::Functions(s) => {
            let bytes = vstd::slice::slice_subrange(section, s.start, s.end);
            let (list, error) = wasm::read_indices(bytes, at + s.start as u64);
            assert(list.deep_view() =~= list@);
            match finish(&error) {
                Ok(_) => {},
                Err(e) => return Err(e),
            }
            put_numbers(&mut out, &shift_all(&list, imported));
            assert(out@ =~= numbers(all_shifted(list@, imported)));
        },
        ElementItems::Expressions(s) => {
            let bytes = vstd::slice::slice_subrange(section, s.start, s.end);
            let start: u64 = at + s.start as u64;
            let (spans, error) = encode::read_expressions(bytes, start);
            assert(spans.deep_view() =~= spans@);
            let list = match rewrite_expressions(bytes, start, &spans, imported) {
                Ok(list) => list,
                Err(e) => return Err(e),
            };
            match finish(&error) {
                Ok(_) => {},
                Err(e) => return Err(e),
            }
            put_runs(&mut out, &list);
            assert(out@ =~= runs(list.deep_view()));
        },
    }
    Ok(out)
}

/// Rewrite a list of expressions.
fn rewrite_expressions(section: &[u8], at: u64, spans: &Vec<Span>, imported: u32) -> (r: Result<
    Vec<Vec<u8>>,
    Error,
>)
    requires
        at + section@.len() <= u64::MAX,
        forall|i: int|
            0 <= i < spans@.len() ==> wasm::span_within(
                #[trigger] spans@[i],
                0,
                section@.len() as int,
            ),
    ensures
        match (r, expressions_rewritten(section@, at, spans@, imported)) {
            (Ok(a), Ok(b)) => a.deep_view() == b,
            (Err(e), Err(g)) => e@ == g,
            _ => false,
        },
{
    let ghost one = |done: Seq<Seq<u8>>, span: Span|
        match expression_rewritten(section@, at, span, imported) {
            Ok(b) => Ok(done.push(b)),
            Err(e) => Err(e),
        };
    let mut list: Vec<Vec<u8>> = Vec::new();
    let mut i: usize = 0;
    assert(spans@.skip(0) =~= spans@);
    assert(list.deep_view() =~= Seq::<Seq<u8>>::empty());
    while i < spans.len()
        invariant
            i <= spans@.len(),
            at + section@.len() <= u64::MAX,
            forall|i: int|
                0 <= i < spans@.len() ==> wasm::span_within(
                    #[trigger] spans@[i],
                    0,
                    section@.len() as int,
                ),
            one == (|done: Seq<Seq<u8>>, span: Span|
                match expression_rewritten(section@, at, span, imported) {
                    Ok(b) => Ok(done.push(b)),
                    Err(e) => Err(e),
                }),
            expressions_rewritten(section@, at, spans@, imported) == each(
                Seq::<Seq<u8>>::empty(),
                spans@,
                one,
            ),
            each(list.deep_view(), spans@.skip(i as int), one) == each(
                Seq::<Seq<u8>>::empty(),
                spans@,
                one,
            ),
        decreases spans@.len() - i,
    {
        proof {
            assert(spans@.skip(i as int).drop_first() =~= spans@.skip(i + 1));
            assert(spans@.skip(i as int)[0] == spans@[i as int]);
        }
        let ghost before = list.deep_view();
        match rewrite_expression(section, at, spans[i], imported) {
            Ok(b) => {
                list.push(b);
                assert(b.deep_view() =~= b@);
                assert(list.deep_view() =~= before.push(b.deep_view()));
            },
            Err(e) => return Err(e),
        }
        i = i + 1;
    }
    Ok(list)
}

/// An element segment: its form, where it goes if it is active, what it lists and the list.
///
/// The short form leaves out the table and what is listed: it is for functions in the first
/// table.
pub open spec fn segment_bytes(
    kind: ElementKind,
    offset: Seq<u8>,
    expressions: bool,
    ty: Seq<u8>,
    items: Seq<u8>,
) -> Seq<u8> {
    let (short, place) = match kind {
        ElementKind::Active { table_index: Some(t), .. } => (false, leb(t as nat) + offset),
        ElementKind::Active { table_index: None, .. } => if !expressions || ty == seq![0x70u8] {
            (true, offset)
        } else {
            (false, leb(0) + offset)
        },
        _ => (false, Seq::empty()),
    };
    let form: u8 = match kind {
        ElementKind::Passive => 1,
        ElementKind::Declared => 3,
        ElementKind::Active { .. } => if short {
            0
        } else {
            2
        },
    };
    let listed = if short {
        Seq::empty()
    } else if expressions {
        ty
    } else {
        seq![0u8]
    };
    seq![if expressions { (form + 4) as u8 } else { form }] + place + listed + items
}

/// An element segment, rewritten.
pub open spec fn segment_rewritten(
    section: Seq<u8>,
    at: u64,
    kind: ElementKind,
    items: ElementItems,
    ty: Seq<u8>,
    imported: u32,
) -> Result<Seq<u8>, ErrorView> {
    match items_rewritten(section, at, items, imported) {
        Err(e) => Err(e),
        Ok(listed) => match kind {
            ElementKind::Active { offset, .. } => match expression_rewritten(
                section,
                at,
                offset,
                imported,
            ) {
                Err(e) => Err(e),
                Ok(offset) => Ok(segment_bytes(kind, offset, items is Expressions, ty, listed)),
            },
            _ => Ok(segment_bytes(kind, Seq::empty(), items is Expressions, ty, listed)),
        },
    }
}

/// Is this how `funcref` is written?
fn is_funcref(ty: &Vec<u8>) -> (r: bool)
    ensures
        r == (ty@ == seq![0x70u8]),
{
    if ty.len() == 1 && ty[0] == 0x70 {
        assert(ty@ =~= seq![0x70u8]);
        true
    } else {
        assert(ty@ != seq![0x70u8]);
        false
    }
}

/// Write an element segment.
pub fn write_segment(
    kind: ElementKind,
    offset: &Vec<u8>,
    expressions: bool,
    ty: &Vec<u8>,
    items: &Vec<u8>,
) -> (r: Vec<u8>)
    ensures
        r@ == segment_bytes(kind, offset@, expressions, ty@, items@),
{
    let bit: u8 = if expressions {
        4
    } else {
        0
    };
    let mut named: Vec<u8> = Vec::new();
    if expressions {
        put_bytes(&mut named, ty.as_slice());
        assert(named@ =~= ty@);
    } else {
        named.push(0);
        assert(named@ =~= seq![0u8]);
    }
    let mut out: Vec<u8> = Vec::new();
    match kind {
        ElementKind::Passive => {
            out.push(1 + bit);
            put_bytes(&mut out, named.as_slice());
        },
        ElementKind::Declared => {
            out.push(3 + bit);
            put_bytes(&mut out, named.as_slice());
        },
        ElementKind::Active { table_index, .. } => {
            if table_index.is_none() && (!expressions || is_funcref(ty)) {
                out.push(bit);
                put_bytes(&mut out, offset.as_slice());
            } else {
                out.push(2 + bit);
                put_leb(
                    &mut out,
                    match table_index {
                        Some(t) => t as u64,
                        None => 0,
                    },
                );
                put_bytes(&mut out, offset.as_slice());
                put_bytes(&mut out, named.as_slice());
            }
        },
    }
    put_bytes(&mut out, items.as_slice());
    assert(out@ =~= segment_bytes(kind, offset@, expressions, ty@, items@));
    out
}

/// Rewrite an element segment.
fn rewrite_segment(
    section: &[u8],
    at: u64,
    kind: ElementKind,
    items: ElementItems,
    ty: &Vec<u8>,
    imported: u32,
) -> (r: Result<Vec<u8>, Error>)
    requires
        at + section@.len() <= u64::MAX,
        wasm::span_within(wasm::items_span(items), 0, section@.len() as int),
        kind matches ElementKind::Active { offset, .. } ==> wasm::span_within(
            offset,
            0,
            section@.len() as int,
        ),
    ensures
        match (r, segment_rewritten(section@, at, kind, items, ty@, imported)) {
            (Ok(a), Ok(b)) => a@ == b,
            (Err(e), Err(g)) => e@ == g,
            _ => false,
        },
{
    let listed = match rewrite_items(section, at, items, imported) {
        Ok(listed) => listed,
        Err(e) => return Err(e),
    };
    let expressions: bool = match items {
        ElementItems::Expressions(_) => true,
        ElementItems::Functions(_) => false,
    };
    let offset: Vec<u8> = match kind {
        ElementKind::Active { offset, .. } => match rewrite_expression(section, at, offset, imported) {
            Ok(b) => b,
            Err(e) => return Err(e),
        },
        _ => {
            let none: Vec<u8> = Vec::new();
            assert(none@ =~= Seq::empty());
            none
        },
    };
    Ok(write_segment(kind, &offset, expressions, ty, &listed))
}

/// The segments of an element section, rewritten.
pub open spec fn segments_rewritten(
    section: Seq<u8>,
    at: u64,
    kinds: Seq<ElementKind>,
    items: Seq<ElementItems>,
    types: Seq<Seq<u8>>,
    imported: u32,
) -> Result<Seq<Seq<u8>>, ErrorView> {
    each(
        Seq::<Seq<u8>>::empty(),
        Seq::new(kinds.len(), |i: int| i),
        |done: Seq<Seq<u8>>, i: int|
            match segment_rewritten(section, at, kinds[i], items[i], types[i], imported) {
                Ok(b) => Ok(done.push(b)),
                Err(e) => Err(e),
            },
    )
}

/// An element section, rewritten.
pub open spec fn elements_rewritten(bytes: Seq<u8>, at: u64, imported: u32) -> Result<
    Seq<u8>,
    ErrorView,
> {
    let (kinds, error) = wasm::element_kinds_of(bytes, at);
    match encode::element_types_of(bytes, at) {
        Err(detail) => Err(ErrorView::Parse(detail)),
        Ok(types) => match segments_rewritten(
            bytes,
            at,
            kinds,
            wasm::element_items_in(bytes),
            types,
            imported,
        ) {
            Err(e) => Err(e),
            Ok(list) => read_whole(runs(list), error),
        },
    }
}

/// Rewrite an element section.
fn rewrite_elements(bytes: &[u8], at: u64, imported: u32) -> (r: Result<Vec<u8>, Error>)
    requires
        at + bytes@.len() <= u64::MAX,
    ensures
        match (r, elements_rewritten(bytes@, at, imported)) {
            (Ok(a), Ok(b)) => a@ == framed(9, b),
            (Err(e), Err(g)) => e@ == g,
            _ => false,
        },
{
    let (kinds, error) = wasm::read_element_kinds(bytes, at);
    let items = wasm::read_element_items(bytes);
    let types = match encode::read_element_types(bytes, at) {
        Ok(types) => types,
        Err(detail) => return Err(Error::Parse { detail }),
    };
    let ghost all = types.deep_view();
    let ghost one = |done: Seq<Seq<u8>>, i: int|
        match segment_rewritten(bytes@, at, kinds@[i], items@[i], all[i], imported) {
            Ok(b) => Ok(done.push(b)),
            Err(e) => Err(e),
        };
    let ghost order = Seq::new(kinds@.len(), |i: int| i);
    let ghost whole = segments_rewritten(bytes@, at, kinds@, items@, all, imported);
    proof {
        assert(kinds.deep_view() =~= kinds@);
        assert(items.deep_view() =~= items@);
        assert(order.skip(0) =~= order);
    }
    let mut list: Vec<Vec<u8>> = Vec::new();
    let mut i: usize = 0;
    assert(list.deep_view() =~= Seq::<Seq<u8>>::empty());
    while i < kinds.len()
        invariant
            i <= kinds@.len() == items@.len(),
            types@.len() == kinds@.len(),
            all == types.deep_view(),
            at + bytes@.len() <= u64::MAX,
            forall|k: int|
                0 <= k < items@.len() ==> wasm::span_within(
                    wasm::items_span(#[trigger] items@[k]),
                    0,
                    bytes@.len() as int,
                ),
            forall|k: int|
                0 <= k < kinds@.len() ==> ((#[trigger] kinds@[k]) matches ElementKind::Active {
                    offset,
                    ..
                } ==> wasm::span_within(offset, 0, bytes@.len() as int)),
            one == (|done: Seq<Seq<u8>>, i: int|
                match segment_rewritten(bytes@, at, kinds@[i], items@[i], all[i], imported) {
                    Ok(b) => Ok(done.push(b)),
                    Err(e) => Err(e),
                }),
            order == Seq::new(kinds@.len(), |i: int| i),
            whole == segments_rewritten(bytes@, at, kinds@, items@, all, imported),
            whole == each(Seq::<Seq<u8>>::empty(), order, one),
            each(list.deep_view(), order.skip(i as int), one) == whole,
            elements_rewritten(bytes@, at, imported) == (match whole {
                Err(e) => Err(e),
                Ok(list) => read_whole(runs(list), error.deep_view()),
            }),
        decreases kinds@.len() - i,
    {
        proof {
            assert(order.skip(i as int).drop_first() =~= order.skip(i + 1));
            assert(order.skip(i as int)[0] == i);
            assert(all[i as int] == types@[i as int]@);
        }
        let ghost before = list.deep_view();
        match rewrite_segment(bytes, at, kinds[i], items[i], &types[i], imported) {
            Ok(b) => {
                list.push(b);
                assert(b.deep_view() =~= b@);
                assert(list.deep_view() =~= before.push(b.deep_view()));
            },
            Err(e) => return Err(e),
        }
        i = i + 1;
    }
    match finish(&error) {
        Ok(_) => {},
        Err(e) => return Err(e),
    }
    let mut payload: Vec<u8> = Vec::new();
    put_runs(&mut payload, &list);
    assert(payload@ =~= runs(list.deep_view()));
    let mut out: Vec<u8> = Vec::new();
    put_section(&mut out, 9, &payload);
    assert(out@ =~= framed(9, payload@));
    Ok(out)
}

/// What an export refers to, once `charge` is among the imports.
pub open spec fn export_index(e: ExportView, imported: u32) -> u32 {
    match e.kind {
        ExternalKind::Func | ExternalKind::FuncExact => shifted(e.index, imported),
        _ => e.index,
    }
}

/// What came back from the encoder.
pub open spec fn encoded(written: Option<Seq<u8>>, fault: Seq<char>) -> Result<
    Seq<u8>,
    ErrorView,
> {
    match written {
        Some(b) => Ok(b),
        None => Err(ErrorView::Parse(fault)),
    }
}

/// An export section, rewritten.
pub open spec fn exports_rewritten(bytes: Seq<u8>, at: u64, imported: u32) -> Result<
    Seq<u8>,
    ErrorView,
> {
    let (exports, error) = wasm::exports_of(bytes, at);
    let indices = exports.map_values(|e: ExportView| export_index(e, imported));
    match error {
        Some(detail) => Err(ErrorView::Parse(detail)),
        None => encoded(
            encode::exports_written(bytes, indices),
            encode::exports_written_fault(bytes, at, indices),
        ),
    }
}

/// What came back from the encoder.
fn take_encoded(r: Result<Vec<u8>, String>) -> (s: Result<Vec<u8>, Error>)
    ensures
        match (s, r) {
            (Ok(a), Ok(b)) => a@ == b@,
            (Err(e), Err(detail)) => e@ == ErrorView::Parse(detail@),
            _ => false,
        },
{
    match r {
        Ok(b) => Ok(b),
        Err(detail) => Err(Error::Parse { detail }),
    }
}

/// What each export refers to, once `charge` is among the imports.
pub fn export_indices(exports: &Vec<Export>, imported: u32) -> (r: Vec<u32>)
    ensures
        r@ == exports.deep_view().map_values(|e: ExportView| export_index(e, imported)),
{
    let ghost found = exports.deep_view();
    let ghost one = |e: ExportView| export_index(e, imported);
    let mut indices: Vec<u32> = Vec::new();
    let mut i: usize = 0;
    assert(indices@ =~= found.take(0).map_values(one));
    while i < exports.len()
        invariant
            i <= exports@.len(),
            found == exports.deep_view(),
            one == (|e: ExportView| export_index(e, imported)),
            indices@ == found.take(i as int).map_values(one),
        decreases exports@.len() - i,
    {
        let e = &exports[i];
        let index: u32 = match e.kind {
            ExternalKind::Func | ExternalKind::FuncExact => function_index(e.index, imported),
            _ => e.index,
        };
        indices.push(index);
        i = i + 1;
        proof {
            assert(found[i - 1] == e.deep_view());
            assert(indices@ =~= found.take(i as int).map_values(one));
        }
    }
    assert(found.take(i as int) =~= found);
    indices
}

/// Rewrite an export section.
fn rewrite_exports(bytes: &[u8], at: u64, imported: u32) -> (r: Result<Vec<u8>, Error>)
    requires
        bytes@.len() <= MAX_COPIED,
        at + bytes@.len() <= u64::MAX,
    ensures
        match (r, exports_rewritten(bytes@, at, imported)) {
            (Ok(a), Ok(b)) => a@ == framed(7, b) && wasm::exports_in(b) == (
                encode::reindexed(
                    wasm::exports_in(bytes@).0,
                    wasm::exports_in(bytes@).0.map_values(
                        |e: ExportView| export_index(e, imported),
                    ),
                ),
                true,
            ),
            (Err(e), Err(g)) => e@ == g,
            _ => false,
        },
{
    let (exports, error) = wasm::read_exports(bytes, at);
    match finish(&error) {
        Ok(_) => {},
        Err(e) => return Err(e),
    }
    let indices = export_indices(&exports, imported);
    take_encoded(encode::encode_exports(bytes, at, indices.as_slice()))
}

/// A table section, rewritten.
pub open spec fn tables_rewritten(bytes: Seq<u8>, at: u64, imported: u32) -> Result<
    Seq<u8>,
    ErrorView,
> {
    match wasm::tables_of(bytes, at).1 {
        Some(detail) => Err(ErrorView::Parse(detail)),
        None => match section_renumbered(bytes, at, wasm::table_inits_in(bytes), imported) {
            Err(e) => Err(e),
            Ok(b) => encoded(encode::tables_written(b), encode::tables_written_fault(b, at)),
        },
    }
}

/// Where the initializers of globals are.
pub open spec fn inits_of(globals: Seq<GlobalTypeView>) -> Seq<Option<Span>> {
    globals.map_values(|g: GlobalTypeView| Some(g.init))
}

/// A global section, rewritten.
pub open spec fn globals_rewritten(bytes: Seq<u8>, at: u64, imported: u32) -> Result<
    Seq<u8>,
    ErrorView,
> {
    let (globals, error) = wasm::globals_of(bytes, at);
    match error {
        Some(detail) => Err(ErrorView::Parse(detail)),
        None => match section_renumbered(bytes, at, inits_of(globals), imported) {
            Err(e) => Err(e),
            Ok(b) => encoded(encode::globals_written(b), encode::globals_written_fault(b, at)),
        },
    }
}

/// Where the offsets of data segments are.
pub open spec fn offsets_of(data: Seq<DataView>) -> Seq<Option<Span>> {
    data.map_values(|d: DataView| d.offset)
}

/// A data section, rewritten.
pub open spec fn data_rewritten(bytes: Seq<u8>, at: u64, imported: u32) -> Result<
    Seq<u8>,
    ErrorView,
> {
    let (data, error) = wasm::data_of(bytes, at);
    match error {
        Some(detail) => Err(ErrorView::Parse(detail)),
        None => match section_renumbered(bytes, at, offsets_of(data), imported) {
            Err(e) => Err(e),
            Ok(b) => encoded(encode::data_written(b), encode::data_written_fault(b, at)),
        },
    }
}

/// Rewrite a table section.
fn rewrite_tables(bytes: &[u8], at: u64, imported: u32) -> (r: Result<Vec<u8>, Error>)
    requires
        bytes@.len() <= MAX_COPIED,
        at + MAX_RENUMBERED <= u64::MAX,
    ensures
        match (r, tables_rewritten(bytes@, at, imported)) {
            (Ok(a), Ok(b)) => a@ == framed(4, b) && kept_as_read(bytes@, at, imported, (4u8, b)),
            (Err(e), Err(g)) => e@ == g,
            _ => false,
        },
{
    let (_, error) = wasm::read_tables(bytes, at);
    match finish(&error) {
        Ok(_) => {},
        Err(e) => return Err(e),
    }
    let inits = wasm::read_table_inits(bytes);
    match renumber_section(bytes, at, &inits, imported) {
        Ok(b) => take_encoded(encode::encode_tables(b.as_slice(), at)),
        Err(e) => Err(e),
    }
}

/// Rewrite a global section.
fn rewrite_globals(bytes: &[u8], at: u64, imported: u32) -> (r: Result<Vec<u8>, Error>)
    requires
        bytes@.len() <= MAX_COPIED,
        at + MAX_RENUMBERED <= u64::MAX,
    ensures
        match (r, globals_rewritten(bytes@, at, imported)) {
            (Ok(a), Ok(b)) => a@ == framed(6, b) && kept_as_read(bytes@, at, imported, (6u8, b)),
            (Err(e), Err(g)) => e@ == g,
            _ => false,
        },
{
    let (globals, error) = wasm::read_globals(bytes, at);
    match finish(&error) {
        Ok(_) => {},
        Err(e) => return Err(e),
    }
    let mut inits: Vec<Option<Span>> = Vec::new();
    let mut i: usize = 0;
    while i < globals.len()
        invariant
            i <= globals@.len(),
            inits@ == globals@.map_values(|g: GlobalType| Some(g.init)).take(i as int),
        decreases globals@.len() - i,
    {
        inits.push(Some(globals[i].init));
        i = i + 1;
        assert(inits@ =~= globals@.map_values(|g: GlobalType| Some(g.init)).take(i as int));
    }
    proof {
        assert(inits@ =~= globals@.map_values(|g: GlobalType| Some(g.init)));
        assert(inits@ =~= inits_of(globals.deep_view()));
    }
    match renumber_section(bytes, at, &inits, imported) {
        Ok(b) => take_encoded(encode::encode_globals(b.as_slice(), at)),
        Err(e) => Err(e),
    }
}

/// Rewrite a data section.
fn rewrite_data(bytes: &[u8], at: u64, imported: u32) -> (r: Result<Vec<u8>, Error>)
    requires
        bytes@.len() <= MAX_COPIED,
        at + MAX_RENUMBERED <= u64::MAX,
    ensures
        match (r, data_rewritten(bytes@, at, imported)) {
            (Ok(a), Ok(b)) => a@ == framed(11, b) && kept_as_read(bytes@, at, imported, (11u8, b)),
            (Err(e), Err(g)) => e@ == g,
            _ => false,
        },
{
    let (data, error) = wasm::read_data(bytes, at);
    match finish(&error) {
        Ok(_) => {},
        Err(e) => return Err(e),
    }
    let mut offsets: Vec<Option<Span>> = Vec::new();
    let mut i: usize = 0;
    while i < data.len()
        invariant
            i <= data@.len(),
            offsets@ == data@.map_values(|d: Data| d.offset).take(i as int),
        decreases data@.len() - i,
    {
        offsets.push(data[i].offset);
        i = i + 1;
        assert(offsets@ =~= data@.map_values(|d: Data| d.offset).take(i as int));
    }
    proof {
        assert(offsets@ =~= data@.map_values(|d: Data| d.offset));
        assert(offsets@ =~= offsets_of(data.deep_view()));
    }
    match renumber_section(bytes, at, &offsets, imported) {
        Ok(b) => take_encoded(encode::encode_data(b.as_slice(), at)),
        Err(e) => Err(e),
    }
}

/// Is what a section declares what was declared before it was written? Where its initializers
/// name functions, what it declares is that of the section with those renumbered.
pub open spec fn kept_as_read(
    bytes: Seq<u8>,
    at: u64,
    imported: u32,
    section: (u8, Seq<u8>),
) -> bool {
    let spans = if section.0 == 4 {
        wasm::table_inits_in(bytes)
    } else if section.0 == 6 {
        inits_of(wasm::globals_in(bytes).0)
    } else {
        offsets_of(wasm::data_in(bytes).0)
    };
    let given = section_renumbered(bytes, at, spans, imported)->Ok_0;
    &&& section.0 == 4 ==> wasm::tables_in(section.1) == (wasm::tables_in(given).0, true)
    &&& section.0 == 6 ==> wasm::globals_in(section.1).1 && encode::same_declarations(
        wasm::globals_in(given).0,
        wasm::globals_in(section.1).0,
    )
    &&& section.0 == 11 ==> wasm::data_in(section.1).1 && encode::same_contents(
        wasm::data_in(given).0,
        wasm::data_in(section.1).0,
    )
}

/// A module being written.
pub struct Rewriting {
    /// The sections written so far: their numbers and contents.
    pub sections: Seq<(u8, Seq<u8>)>,
    /// The function bodies of the code section being collected.
    pub bodies: Seq<Seq<u8>>,
    /// How many there are to be.
    pub expected: u32,
    /// How many bodies have been seen in all.
    pub seen: nat,
    /// Has `charge` been imported?
    pub imported: bool,
}

/// Nothing written yet.
pub open spec fn unwritten() -> Rewriting {
    Rewriting {
        sections: Seq::empty(),
        bodies: Seq::empty(),
        expected: 0,
        seen: 0,
        imported: false,
    }
}

/// One more section.
pub open spec fn with_section(w: Rewriting, id: u8, r: Result<Seq<u8>, ErrorView>) -> Result<
    Rewriting,
    ErrorView,
> {
    match r {
        Ok(payload) => Ok(Rewriting { sections: w.sections.push((id, payload)), ..w }),
        Err(e) => Err(e),
    }
}

/// The code section, once all of its bodies are there.
pub open spec fn with_code(w: Rewriting) -> Rewriting {
    if w.bodies.len() == w.expected {
        Rewriting { sections: w.sections.push((10u8, sized_runs(w.bodies))), ..w }
    } else {
        w
    }
}

/// The import section with `charge` behind what is there.
pub open spec fn with_charge(f: Facts, bytes: Seq<u8>, at: u64) -> Result<Seq<u8>, ErrorView> {
    let index = clamped(f.type_params.len());
    encoded(
        encode::imports_written(bytes, HOST_MODULE@, HOST_CHARGE@, index),
        encode::imports_written_fault(bytes, at, HOST_MODULE@, HOST_CHARGE@, index),
    )
}

/// The function section, behind an import section if the module has none of its own.
pub open spec fn functions_rewritten(w: Rewriting, f: Facts, bytes: Seq<u8>, at: u64) -> Result<
    Rewriting,
    ErrorView,
> {
    let (types, error) = wasm::indices_of(bytes, at);
    let before = if !f.had_imports && !w.imported {
        match with_section(w, 2, with_charge(f, seq![0u8], 0)) {
            Ok(w) => Ok(Rewriting { imported: true, ..w }),
            Err(e) => Err(e),
        }
    } else {
        Ok(w)
    };
    match before {
        Err(e) => Err(e),
        Ok(w) => with_section(w, 3, read_whole(numbers(types), error)),
    }
}

/// One part of a module, rewritten, where the part begins at an offset of the module. Custom
/// sections are dropped.
pub open spec fn part_rewritten(
    w: Rewriting,
    f: Facts,
    config: Config,
    kind: PartKind,
    bytes: Seq<u8>,
    at: u64,
) -> Result<Rewriting, ErrorView> {
    let imported = clamped(f.imported);
    match kind {
        PartKind::Types => with_section(
            w,
            1,
            encoded(
                encode::types_written(bytes, seq![Kind::I32]),
                encode::types_written_fault(bytes, at, seq![Kind::I32]),
            ),
        ),
        PartKind::Imports => match with_section(w, 2, with_charge(f, bytes, at)) {
            Ok(w) => Ok(Rewriting { imported: true, ..w }),
            Err(e) => Err(e),
        },
        PartKind::Functions => functions_rewritten(w, f, bytes, at),
        PartKind::Tables => with_section(w, 4, tables_rewritten(bytes, at, imported)),
        PartKind::Memories => with_section(
            w,
            5,
            encoded(encode::memories_written(bytes), encode::memories_written_fault(bytes, at)),
        ),
        PartKind::Tags => with_section(
            w,
            13,
            encoded(encode::tags_written(bytes), encode::tags_written_fault(bytes, at)),
        ),
        PartKind::Globals => with_section(w, 6, globals_rewritten(bytes, at, imported)),
        PartKind::Exports => with_section(w, 7, exports_rewritten(bytes, at, imported)),
        PartKind::Start(function) => with_section(
            w,
            8,
            Ok(leb(shifted(function, imported) as nat)),
        ),
        PartKind::Elements => with_section(w, 9, elements_rewritten(bytes, at, imported)),
        PartKind::DataCount(n) => with_section(w, 12, Ok(leb(n as nat))),
        PartKind::CodeStart(n) => Ok(
            with_code(Rewriting { bodies: Seq::empty(), expected: n, ..w }),
        ),
        PartKind::Body => match body_rewritten(f, config, w.seen, bytes, at) {
            Err(e) => Err(e),
            Ok(b) => Ok(with_code(Rewriting { bodies: w.bodies.push(b), seen: w.seen + 1, ..w })),
        },
        PartKind::Data => with_section(w, 11, data_rewritten(bytes, at, imported)),
        PartKind::Unknown(id) => with_section(w, id, Ok(bytes)),
        PartKind::Other => Ok(w),
    }
}

/// The parts of a module: what each is, its bytes, and where it begins.
pub open spec fn parts_in(module: Seq<u8>) -> Seq<(PartKind, Seq<u8>, u64)> {
    let (kinds, spans, _) = wasm::parts_of(module);
    Seq::new(
        kinds.len(),
        |i: int| (kinds[i], slice_of(module, spans[i]), spans[i].start as u64),
    )
}

/// The sections of a module in canonical form, their numbers and contents, or why it has none.
pub open spec fn sections_written(module: Seq<u8>, config: Config) -> Result<
    Seq<(u8, Seq<u8>)>,
    ErrorView,
> {
    match surveyed(module_of(module)) {
        Err(e) => Err(e),
        Ok(f) => if !HEADER@.is_prefix_of(module) {
            Err(ErrorView::Parse("UnexpectedNonCoreModuleSection"@))
        } else {
            match each(
                unwritten(),
                parts_in(module),
                |w: Rewriting, p: (PartKind, Seq<u8>, u64)|
                    part_rewritten(w, f, config, p.0, p.1, p.2),
            ) {
                Err(e) => Err(e),
                Ok(w) => Ok(w.sections),
            }
        },
    }
}

/// Sections, one after another.
pub open spec fn laid_out(sections: Seq<(u8, Seq<u8>)>) -> Seq<u8> {
    concat_all(sections, |s: (u8, Seq<u8>)| framed(s.0, s.1))
}

/// A module in canonical form, or why it has none.
pub open spec fn instrumented(module: Seq<u8>, config: Config) -> Result<Seq<u8>, ErrorView> {
    match sections_written(module, config) {
        Err(e) => Err(e),
        Ok(sections) => Ok(HEADER@ + laid_out(sections)),
    }
}

/// Does a section that was written from a part hold what the part held, and what the pass adds
/// behind it? The types get that of `charge`, and the imports `charge` itself, which is the only
/// one of a module that had none. Exports name the functions by their new numbers. No section is
/// a custom one, which has the number zero.
pub open spec fn carries(
    f: Facts,
    kind: PartKind,
    bytes: Seq<u8>,
    at: u64,
    section: (u8, Seq<u8>),
) -> bool {
    let charge = (HOST_MODULE@, HOST_CHARGE@);
    let imported = clamped(f.imported);
    &&& section.0 != 0
    &&& section.0 == 4 || section.0 == 6 || section.0 == 11 ==> kept_as_read(
        bytes,
        at,
        imported,
        section,
    )
    &&& section.0 == 5 ==> wasm::memories_in(section.1) == (wasm::memories_in(bytes).0, true)
    &&& section.0 == 7 ==> wasm::exports_in(section.1) == (
        encode::reindexed(
            wasm::exports_in(bytes).0,
            wasm::exports_in(bytes).0.map_values(|e: ExportView| export_index(e, imported)),
        ),
        true,
    )
    &&& section.0 > 13 ==> kind == PartKind::Unknown(section.0) && section.1 == bytes
    &&& section.0 == 1 ==> kind is Types && wasm::types_in(section.1) == (
        wasm::types_in(bytes).0.push(Some((seq!["I32"@], Seq::empty()))),
        true,
    )
    &&& section.0 == 2 ==> if kind is Imports {
        &&& wasm::import_names_in(section.1) == (
            wasm::import_names_in(bytes).0.push(charge),
            true,
        )
        &&& wasm::import_types_in(section.1) == wasm::import_types_in(bytes).push(
            ImportTypeView::Func(clamped(f.type_params.len())),
        )
    } else {
        !f.had_imports && wasm::import_names_in(section.1) == (seq![charge], true)
    }
}

/// Does a section come from one of a module's parts?
pub open spec fn comes_from(
    f: Facts,
    parts: Seq<(PartKind, Seq<u8>, u64)>,
    section: (u8, Seq<u8>),
) -> bool {
    exists|k: int|
        0 <= k < parts.len() && carries(f, (#[trigger] parts[k]).0, parts[k].1, parts[k].2, section)
}

proof fn lemma_laid_out(sections: Seq<(u8, Seq<u8>)>, id: u8, payload: Seq<u8>)
    ensures
        laid_out(sections.push((id, payload))) == laid_out(sections) + framed(id, payload),
{
    let all = sections.push((id, payload));
    lemma_concat_all_push(
        all,
        sections.len() as int,
        |s: (u8, Seq<u8>)| framed(s.0, s.1),
    );
    assert(all.take(sections.len() as int) =~= sections);
    assert(all.take(sections.len() as int + 1) =~= all);
}

/// A module being written.
struct Writing {
    out: Vec<u8>,
    bodies: Vec<Vec<u8>>,
    expected: u32,
    bodies_seen: usize,
    emitted_import_section: bool,
}

impl Writing {
    spec fn writes(&self, w: Rewriting) -> bool {
        &&& self.out@ == HEADER@ + laid_out(w.sections)
        &&& self.bodies.deep_view() == w.bodies
        &&& self.expected == w.expected
        &&& self.bodies_seen == w.seen
        &&& self.emitted_import_section == w.imported
    }

    spec fn took(&self, r: Result<(), Error>, w: Result<Rewriting, ErrorView>) -> bool {
        match (r, w) {
            (Ok(_), Ok(w)) => self.writes(w),
            (Err(e), Err(g)) => e@ == g,
            _ => false,
        }
    }

    /// Add a section.
    fn section(
        &mut self,
        r: Result<Vec<u8>, Error>,
        Ghost(w): Ghost<Rewriting>,
        Ghost(id): Ghost<u8>,
        Ghost(given): Ghost<Result<Seq<u8>, ErrorView>>,
    ) -> (s: Result<(), Error>)
        requires
            old(self).writes(w),
            match (r, given) {
                (Ok(a), Ok(b)) => a@ == framed(id, b),
                (Err(e), Err(g)) => e@ == g,
                _ => false,
            },
        ensures
            final(self).took(s, with_section(w, id, given)),
    {
        match r {
            Err(e) => Err(e),
            Ok(section) => {
                put_bytes(&mut self.out, section.as_slice());
                proof {
                    lemma_laid_out(w.sections, id, given->Ok_0);
                    assert(self.out@ =~= HEADER@ + (laid_out(w.sections) + section@));
                }
                Ok(())
            },
        }
    }

    /// Add a section of given contents.
    fn put(&mut self, id: u8, payload: &Vec<u8>, Ghost(w): Ghost<Rewriting>)
        requires
            old(self).writes(w),
        ensures
            final(self).writes(
                (Rewriting { sections: w.sections.push((id, payload@)), ..w }),
            ),
            final(self).bodies_seen == old(self).bodies_seen,
    {
        put_section(&mut self.out, id, payload);
        proof {
            lemma_laid_out(w.sections, id, payload@);
            assert(self.out@ =~= HEADER@ + (laid_out(w.sections) + framed(id, payload@)));
        }
    }

    /// Add the code section, once all of its bodies are there.
    fn code(&mut self, Ghost(w): Ghost<Rewriting>)
        requires
            old(self).writes(w),
        ensures
            final(self).writes(with_code(w)),
    {
        if self.bodies.len() as u64 == self.expected as u64 {
            let mut payload: Vec<u8> = Vec::new();
            put_sized_runs(&mut payload, &self.bodies);
            assert(payload@ =~= sized_runs(w.bodies));
            self.put(10, &payload, Ghost(w));
        }
    }

    /// Add the function section, behind an import section if the module has none of its own.
    fn functions(
        &mut self,
        facts: &Survey,
        bytes: &[u8],
        at: u64,
        Ghost(w): Ghost<Rewriting>,
        Ghost(f): Ghost<Facts>,
    ) -> (r: Result<(), Error>)
        requires
            old(self).writes(w),
            facts.gathers(f),
            at + bytes@.len() <= u64::MAX,
        ensures
            final(self).took(r, functions_rewritten(w, f, bytes@, at)),
            r is Ok ==> forall|i: int|
                w.sections.len() <= i < functions_rewritten(w, f, bytes@, at)->Ok_0.sections.len()
                    ==> carries(
                    f,
                    PartKind::Functions,
                    bytes@,
                    at,
                    #[trigger] functions_rewritten(w, f, bytes@, at)->Ok_0.sections[i],
                ),
    {
        let ghost mut now = w;
        if !facts.had_import_section && !self.emitted_import_section {
            let mut none: Vec<u8> = Vec::new();
            none.push(0);
            assert(none@ =~= seq![0u8]);
            let section = charge_import(facts, none.as_slice(), 0, Ghost(f));
            match self.section(
                section,
                Ghost(w),
                Ghost(2),
                Ghost(with_charge(f, seq![0u8], 0)),
            ) {
                Ok(_) => {},
                Err(e) => return Err(e),
            }
            self.emitted_import_section = true;
            proof {
                now = Rewriting {
                    imported: true,
                    ..with_section(w, 2, with_charge(f, seq![0u8], 0))->Ok_0
                };
            }
        }
        let (types, error) = wasm::read_indices(bytes, at);
        assert(types.deep_view() =~= types@);
        match finish(&error) {
            Ok(_) => {},
            Err(e) => return Err(e),
        }
        let mut payload: Vec<u8> = Vec::new();
        put_numbers(&mut payload, &types);
        assert(payload@ =~= numbers(types@));
        self.put(3, &payload, Ghost(now));
        Ok(())
    }

    /// Rewrite one part of a module.
    fn part(
        &mut self,
        facts: &Survey,
        config: Config,
        kind: PartKind,
        span: Span,
        module: &[u8],
        Ghost(w): Ghost<Rewriting>,
        Ghost(f): Ghost<Facts>,
    ) -> (r: Result<(), Error>)
        requires
            old(self).writes(w),
            facts.gathers(f),
            module@.len() <= MAX_COPIED,
            wasm::is_delimited(kind) ==> wasm::span_within(span, 0, module@.len() as int),
            kind matches PartKind::Unknown(id) ==> id > 13,
            old(self).bodies_seen < usize::MAX,
        ensures
            final(self).took(
                r,
                part_rewritten(w, f, config, kind, slice_of(module@, span), span.start as u64),
            ),
            r is Ok ==> final(self).bodies_seen <= old(self).bodies_seen + 1,
            r is Ok ==> forall|i: int|
                w.sections.len() <= i < part_rewritten(
                    w,
                    f,
                    config,
                    kind,
                    slice_of(module@, span),
                    span.start as u64,
                )->Ok_0.sections.len() ==> carries(
                    f,
                    kind,
                    slice_of(module@, span),
                    span.start as u64,
                    #[trigger] part_rewritten(
                        w,
                        f,
                        config,
                        kind,
                        slice_of(module@, span),
                        span.start as u64,
                    )->Ok_0.sections[i],
                ),
    {
        let imported: u32 = facts.imported_funcs;
        match kind {
            PartKind::Other => return Ok(()),
            PartKind::CodeStart(n) => {
                self.bodies = Vec::new();
                self.expected = n;
                assert(self.bodies.deep_view() =~= Seq::<Seq<u8>>::empty());
                self.code(Ghost(Rewriting { bodies: Seq::empty(), expected: n, ..w }));
                return Ok(());
            },
            _ => {},
        }
        let bytes = vstd::slice::slice_subrange(module, span.start, span.end);
        let at: u64 = span.start as u64;
        let ghost known = slice_of(module@, span);
        match kind {
            PartKind::Types => {
                let mut params: Vec<Kind> = Vec::new();
                params.push(Kind::I32);
                assert(params@ =~= seq![Kind::I32]);
                assert(seq![Kind::I32].map_values(|k: Kind| encode::kind_name(k)) =~= seq![
                    "I32"@,
                ]);
                let section = take_encoded(encode::encode_types(bytes, at, params.as_slice()));
                self.section(
                    section,
                    Ghost(w),
                    Ghost(1),
                    Ghost(
                        encoded(
                            encode::types_written(known, seq![Kind::I32]),
                            encode::types_written_fault(known, at, seq![Kind::I32]),
                        ),
                    ),
                )
            },
            PartKind::Imports => {
                let section = charge_import(facts, bytes, at, Ghost(f));
                match self.section(section, Ghost(w), Ghost(2), Ghost(with_charge(f, known, at))) {
                    Ok(_) => {
                        self.emitted_import_section = true;
                        Ok(())
                    },
                    Err(e) => Err(e),
                }
            },
            PartKind::Functions => self.functions(facts, bytes, at, Ghost(w), Ghost(f)),
            PartKind::Tables => {
                let section = rewrite_tables(bytes, at, imported);
                self.section(
                    section,
                    Ghost(w),
                    Ghost(4),
                    Ghost(tables_rewritten(known, at, imported)),
                )
            },
            PartKind::Memories => {
                let section = take_encoded(encode::encode_memories(bytes, at));
                self.section(
                    section,
                    Ghost(w),
                    Ghost(5),
                    Ghost(
                        encoded(
                            encode::memories_written(known),
                            encode::memories_written_fault(known, at),
                        ),
                    ),
                )
            },
            PartKind::Tags => {
                let section = take_encoded(encode::encode_tags(bytes, at));
                self.section(
                    section,
                    Ghost(w),
                    Ghost(13),
                    Ghost(
                        encoded(
                            encode::tags_written(known),
                            encode::tags_written_fault(known, at),
                        ),
                    ),
                )
            },
            PartKind::Globals => {
                let section = rewrite_globals(bytes, at, imported);
                self.section(
                    section,
                    Ghost(w),
                    Ghost(6),
                    Ghost(globals_rewritten(known, at, imported)),
                )
            },
            PartKind::Exports => {
                let section = rewrite_exports(bytes, at, imported);
                self.section(
                    section,
                    Ghost(w),
                    Ghost(7),
                    Ghost(exports_rewritten(known, at, imported)),
                )
            },
            PartKind::Start(function) => {
                let mut payload: Vec<u8> = Vec::new();
                put_leb(&mut payload, function_index(function, imported) as u64);
                assert(payload@ =~= leb(shifted(function, imported) as nat));
                self.put(8, &payload, Ghost(w));
                Ok(())
            },
            PartKind::Elements => {
                let section = rewrite_elements(bytes, at, imported);
                self.section(
                    section,
                    Ghost(w),
                    Ghost(9),
                    Ghost(elements_rewritten(known, at, imported)),
                )
            },
            PartKind::DataCount(n) => {
                let mut payload: Vec<u8> = Vec::new();
                put_leb(&mut payload, n as u64);
                assert(payload@ =~= leb(n as nat));
                self.put(12, &payload, Ghost(w));
                Ok(())
            },
            PartKind::Unknown(id) => {
                let payload: Vec<u8> = vstd::slice::slice_to_vec(bytes);
                self.put(id, &payload, Ghost(w));
                Ok(())
            },
            PartKind::Body => {
                let body = match rewrite_body(
                    facts,
                    config,
                    self.bodies_seen,
                    module,
                    span,
                    Ghost(f),
                ) {
                    Ok(b) => b,
                    Err(e) => return Err(e),
                };
                let ghost before = self.bodies.deep_view();
                self.bodies.push(body);
                self.bodies_seen = self.bodies_seen + 1;
                proof {
                    assert(body.deep_view() =~= body@);
                    assert(self.bodies.deep_view() =~= before.push(body.deep_view()));
                }
                self.code(
                    Ghost(Rewriting { bodies: w.bodies.push(body@), seen: w.seen + 1, ..w }),
                );
                Ok(())
            },
            _ => {
                let section = rewrite_data(bytes, at, imported);
                self.section(
                    section,
                    Ghost(w),
                    Ghost(11),
                    Ghost(data_rewritten(known, at, imported)),
                )
            },
        }
    }
}

/// The import section with `charge` behind what is there.
fn charge_import(facts: &Survey, bytes: &[u8], at: u64, Ghost(f): Ghost<Facts>) -> (r: Result<
    Vec<u8>,
    Error,
>)
    requires
        facts.gathers(f),
        at + bytes@.len() <= u64::MAX,
        bytes@.len() <= MAX_COPIED,
    ensures
        match (r, with_charge(f, bytes@, at)) {
            (Ok(a), Ok(b)) => a@ == framed(2, b) && carries(f, PartKind::Imports, bytes@, at, (2u8, b))
                && (bytes@ == seq![0u8] ==> wasm::import_names_in(b) == (
                seq![(HOST_MODULE@, HOST_CHARGE@)],
                true,
            )),
            (Err(e), Err(g)) => e@ == g,
            _ => false,
        },
{
    proof {
        reveal_strlit("cairn");
        reveal_strlit("charge");
    }
    take_encoded(
        encode::encode_imports(
            bytes,
            at,
            HOST_MODULE,
            HOST_CHARGE,
            clamp(facts.type_params.len()),
        ),
    )
}

/// Does a module start as every core module does?
fn has_header(module: &[u8]) -> (r: bool)
    ensures
        r == HEADER@.is_prefix_of(module@),
{
    let expected: [u8; 8] = HEADER;
    if module.len() < 8 {
        return false;
    }
    let mut i: usize = 0;
    while i < 8
        invariant
            i <= 8 <= module@.len(),
            expected@ == HEADER@,
            forall|k: int| 0 <= k < i ==> #[trigger] module@[k] == expected@[k],
        decreases 8 - i,
    {
        if module[i] != expected[i] {
            assert(module@[i as int] != HEADER@[i as int]);
            return false;
        }
        i = i + 1;
    }
    assert(HEADER@ =~= module@.take(8));
    true
}

/// Rewrite `module` into Cairn-canonical form.
///
/// The input must already have passed [`crate::validate::validate_submitted`]; this pass assumes
/// a valid module using only admitted features and does not re-check that. In such a module only
/// code, exports, element segments and the start section name functions.
///
/// Of an accepted module, the canonical form holds the types with that of `charge` behind them,
/// and the imports, in order, with `charge` last.
///
/// A module over [`MAX_COPIED`] bytes could come out longer than its own length fields can say,
/// so there is no canonical form of one.
pub fn instrument(module: &[u8], config: Config) -> (r: Result<Vec<u8>, Error>)
    requires
        module@.len() <= MAX_COPIED,
    ensures
        match (r, instrumented(module@, config)) {
            (Ok(a), Ok(b)) => a@ == b,
            (Err(e), Err(g)) => e@ == g,
            _ => false,
        },
        r is Ok ==> forall|i: int|
            0 <= i < sections_written(module@, config)->Ok_0.len() ==> comes_from(
                surveyed(module_of(module@))->Ok_0,
                parts_in(module@),
                #[trigger] sections_written(module@, config)->Ok_0[i],
            ),
{
    let facts = match gather(&module::read(module), Ghost(module_of(module@))) {
        Ok(facts) => facts,
        Err(e) => return Err(e),
    };
    let ghost f = surveyed(module_of(module@))->Ok_0;
    if !has_header(module) {
        return Err(Error::Parse { detail: String::from_str("UnexpectedNonCoreModuleSection") });
    }
    let kinds = wasm::read_parts(module);
    let (spans, _) = wasm::read_spans(module);
    let header: [u8; 8] = HEADER;
    let mut writing = Writing {
        out: Vec::new(),
        bodies: Vec::new(),
        expected: 0,
        bodies_seen: 0,
        emitted_import_section: false,
    };
    put_bytes(&mut writing.out, header.as_slice());
    let ghost found = parts_in(module@);
    let ghost one = |w: Rewriting, p: (PartKind, Seq<u8>, u64)|
        part_rewritten(w, f, config, p.0, p.1, p.2);
    let ghost mut now = unwritten();
    proof {
        assert(writing.out@ =~= HEADER@ + laid_out(now.sections));
        assert(writing.bodies.deep_view() =~= now.bodies);
        assert(found.skip(0) =~= found);
    }
    let mut i: usize = 0;
    while i < kinds.len()
        invariant
            i <= kinds@.len() == spans@.len(),
            module@.len() <= MAX_COPIED,
            kinds@ == wasm::parts_of(module@).0,
            spans@ == wasm::parts_of(module@).1,
            surveyed(module_of(module@)) == Ok::<_, ErrorView>(f),
            HEADER@.is_prefix_of(module@),
            forall|k: int|
                0 <= k < kinds@.len() ==> ((#[trigger] kinds@[k]) matches PartKind::Unknown(id)
                    ==> id > 13),
            facts.gathers(f),
            forall|k: int|
                0 <= k < spans@.len() && wasm::is_delimited(kinds@[k]) ==> wasm::span_within(
                    #[trigger] spans@[k],
                    0,
                    module@.len() as int,
                ),
            found == parts_in(module@),
            one == (|w: Rewriting, p: (PartKind, Seq<u8>, u64)|
                part_rewritten(w, f, config, p.0, p.1, p.2)),
            writing.writes(now),
            writing.bodies_seen <= i,
            each(now, found.skip(i as int), one) == each(unwritten(), found, one),
            forall|k: int|
                0 <= k < now.sections.len() ==> comes_from(f, found, #[trigger] now.sections[k]),
        decreases kinds@.len() - i,
    {
        proof {
            assert(found.skip(i as int).drop_first() =~= found.skip(i + 1));
            assert(found.skip(i as int)[0] == found[i as int]);
        }
        match writing.part(&facts, config, kinds[i], spans[i], module, Ghost(now), Ghost(f)) {
            Ok(_) => {},
            Err(e) => return Err(e),
        }
        proof {
            let next = one(now, found[i as int])->Ok_0;
            assert forall|k: int| 0 <= k < next.sections.len() implies comes_from(
                f,
                found,
                #[trigger] next.sections[k],
            ) by {
                if k < now.sections.len() {
                    assert(next.sections[k] == now.sections[k]);
                } else {
                    assert(carries(
                        f,
                        found[i as int].0,
                        found[i as int].1,
                        found[i as int].2,
                        next.sections[k],
                    ));
                }
            }
            now = next;
        }
        i = i + 1;
    }
    Ok(writing.out)
}

/// Did both succeed with the same result, or neither?
pub open spec fn agree<T>(a: Result<T, ErrorView>, b: Result<T, ErrorView>) -> bool {
    match (a, b) {
        (Ok(x), Ok(y)) => x == y,
        (Err(_), Err(_)) => true,
        _ => false,
    }
}

/// What a module holds apart from custom sections: what each part is, and its bytes. The head of
/// a code section has none of its own.
pub open spec fn meant(parts: Seq<(PartKind, Seq<u8>, u64)>) -> Seq<(PartKind, Seq<u8>)>
    decreases parts.len(),
{
    if parts.len() == 0 {
        Seq::empty()
    } else {
        let (kind, bytes, _) = parts[0];
        let rest = meant(parts.drop_first());
        if kind is Other {
            rest
        } else if kind is CodeStart {
            seq![(kind, Seq::empty())] + rest
        } else {
            seq![(kind, bytes)] + rest
        }
    }
}

/// Is one part what another is, wherever in its module it is?
spec fn alike_parts(p: (PartKind, Seq<u8>, u64), q: (PartKind, Seq<u8>, u64)) -> bool {
    p.0 == q.0 && (p.0 is CodeStart || p.1 == q.1)
}

/// Does a step leave custom sections out, and do alike to parts that are alike?
spec fn is_blind<S>(
    one: spec_fn(S, (PartKind, Seq<u8>, u64)) -> Result<S, ErrorView>,
) -> bool {
    &&& forall|s: S, p: (PartKind, Seq<u8>, u64)| p.0 is Other ==> #[trigger] one(s, p) == Ok::<
        S,
        ErrorView,
    >(s)
    &&& forall|s: S, p: (PartKind, Seq<u8>, u64), q: (PartKind, Seq<u8>, u64)|
        alike_parts(p, q) ==> agree(#[trigger] one(s, p), #[trigger] one(s, q))
}

proof fn lemma_blind<S>(
    s: S,
    a: Seq<(PartKind, Seq<u8>, u64)>,
    b: Seq<(PartKind, Seq<u8>, u64)>,
    one: spec_fn(S, (PartKind, Seq<u8>, u64)) -> Result<S, ErrorView>,
)
    requires
        is_blind(one),
        meant(a) == meant(b),
    ensures
        agree(each(s, a, one), each(s, b, one)),
    decreases a.len() + b.len(),
{
    if a.len() > 0 && a[0].0 is Other {
        lemma_blind(s, a.drop_first(), b, one);
    } else if b.len() > 0 && b[0].0 is Other {
        lemma_blind(s, a, b.drop_first(), one);
    } else if a.len() > 0 && b.len() > 0 {
        let (x, y) = (meant(a), meant(b));
        assert(x[0].0 == a[0].0 && y[0].0 == b[0].0);
        assert(alike_parts(a[0], b[0]));
        assert(x.drop_first() =~= meant(a.drop_first()));
        assert(y.drop_first() =~= meant(b.drop_first()));
        assert(agree(one(s, a[0]), one(s, b[0])));
        if let Ok(next) = one(s, a[0]) {
            lemma_blind(next, a.drop_first(), b.drop_first(), one);
        }
    } else if a.len() > 0 {
        assert(meant(a).len() > 0);
    } else if b.len() > 0 {
        assert(meant(b).len() > 0);
    }
}

proof fn lemma_expression_agrees(section: Seq<u8>, a: u64, b: u64, span: Span, imported: u32)
    ensures
        agree(
            expression_rewritten(section, a, span, imported),
            expression_rewritten(section, b, span, imported),
        ),
{
}

proof fn lemma_each_agrees<S, T>(
    s: S,
    items: Seq<T>,
    f: spec_fn(S, T) -> Result<S, ErrorView>,
    g: spec_fn(S, T) -> Result<S, ErrorView>,
)
    requires
        forall|s: S, t: T| agree(#[trigger] f(s, t), #[trigger] g(s, t)),
    ensures
        agree(each(s, items, f), each(s, items, g)),
    decreases items.len(),
{
    if items.len() > 0 {
        assert(agree(f(s, items[0]), g(s, items[0])));
        if let Ok(next) = f(s, items[0]) {
            lemma_each_agrees(next, items.drop_first(), f, g);
        }
    }
}

proof fn lemma_expressions_agree(
    section: Seq<u8>,
    a: u64,
    b: u64,
    spans: Seq<Span>,
    imported: u32,
)
    ensures
        agree(
            expressions_rewritten(section, a, spans, imported),
            expressions_rewritten(section, b, spans, imported),
        ),
{
    let f = |done: Seq<Seq<u8>>, span: Span|
        match expression_rewritten(section, a, span, imported) {
            Ok(b) => Ok(done.push(b)),
            Err(e) => Err(e),
        };
    let g = |done: Seq<Seq<u8>>, span: Span|
        match expression_rewritten(section, b, span, imported) {
            Ok(b) => Ok(done.push(b)),
            Err(e) => Err(e),
        };
    assert forall|s: Seq<Seq<u8>>, t: Span| agree(#[trigger] f(s, t), #[trigger] g(s, t)) by {
        lemma_expression_agrees(section, a, b, t, imported);
    }
    lemma_each_agrees(Seq::<Seq<u8>>::empty(), spans, f, g);
}

proof fn lemma_segment_agrees(
    section: Seq<u8>,
    a: u64,
    b: u64,
    kind: ElementKind,
    items: ElementItems,
    ty: Seq<u8>,
    imported: u32,
)
    ensures
        agree(
            segment_rewritten(section, a, kind, items, ty, imported),
            segment_rewritten(section, b, kind, items, ty, imported),
        ),
{
    if let ElementItems::Expressions(s) = items {
        let inner = slice_of(section, s);
        lemma_expressions_agree(
            inner,
            (a + s.start) as u64,
            (b + s.start) as u64,
            encode::expressions_in(inner).0,
            imported,
        );
    }
    if let ElementKind::Active { offset, .. } = kind {
        lemma_expression_agrees(section, a, b, offset, imported);
    }
}

proof fn lemma_elements_agree(bytes: Seq<u8>, a: u64, b: u64, imported: u32)
    ensures
        agree(elements_rewritten(bytes, a, imported), elements_rewritten(bytes, b, imported)),
{
    let kinds = wasm::element_kinds_in(bytes).0;
    let items = wasm::element_items_in(bytes);
    if let Some(types) = encode::element_types_in(bytes) {
        let f = |done: Seq<Seq<u8>>, i: int|
            match segment_rewritten(bytes, a, kinds[i], items[i], types[i], imported) {
                Ok(b) => Ok(done.push(b)),
                Err(e) => Err(e),
            };
        let g = |done: Seq<Seq<u8>>, i: int|
            match segment_rewritten(bytes, b, kinds[i], items[i], types[i], imported) {
                Ok(b) => Ok(done.push(b)),
                Err(e) => Err(e),
            };
        assert forall|s: Seq<Seq<u8>>, t: int| agree(#[trigger] f(s, t), #[trigger] g(s, t)) by {
            lemma_segment_agrees(bytes, a, b, kinds[t], items[t], types[t], imported);
        }
        lemma_each_agrees(Seq::<Seq<u8>>::empty(), Seq::new(kinds.len(), |i: int| i), f, g);
    }
}

proof fn lemma_renumbering_agrees(
    section: Seq<u8>,
    a: u64,
    b: u64,
    spans: Seq<Option<Span>>,
    imported: u32,
)
    ensures
        agree(
            section_renumbered(section, a, spans, imported),
            section_renumbered(section, b, spans, imported),
        ),
{
    let f = |done: (Seq<u8>, int), s: Option<Span>| renumbered_to(section, a, done, s, imported);
    let g = |done: (Seq<u8>, int), s: Option<Span>| renumbered_to(section, b, done, s, imported);
    assert forall|s: (Seq<u8>, int), t: Option<Span>| agree(#[trigger] f(s, t), #[trigger] g(s, t)) by {}
    lemma_each_agrees((Seq::<u8>::empty(), 0int), spans, f, g);
}

proof fn lemma_body_agrees(f: Facts, config: Config, index: nat, body: Seq<u8>, a: u64, b: u64)
    ensures
        agree(
            body_rewritten(f, config, index, body, a),
            body_rewritten(f, config, index, body, b),
        ),
{
}

proof fn lemma_part_agrees(
    w: Rewriting,
    f: Facts,
    config: Config,
    p: (PartKind, Seq<u8>, u64),
    q: (PartKind, Seq<u8>, u64),
)
    requires
        alike_parts(p, q),
    ensures
        agree(
            part_rewritten(w, f, config, p.0, p.1, p.2),
            part_rewritten(w, f, config, q.0, q.1, q.2),
        ),
{
    let imported = clamped(f.imported);
    lemma_elements_agree(p.1, p.2, q.2, imported);
    lemma_renumbering_agrees(p.1, p.2, q.2, wasm::table_inits_in(p.1), imported);
    lemma_renumbering_agrees(p.1, p.2, q.2, inits_of(wasm::globals_in(p.1).0), imported);
    lemma_renumbering_agrees(p.1, p.2, q.2, offsets_of(wasm::data_in(p.1).0), imported);
    lemma_body_agrees(f, config, w.seen, p.1, p.2, q.2);
}

proof fn lemma_facts_agree(
    f: Facts,
    p: (PartKind, Seq<u8>, u64),
    q: (PartKind, Seq<u8>, u64),
)
    requires
        alike_parts(p, q),
    ensures
        agree(
            facts_with(f, part_of(p.0, p.1, p.2)),
            facts_with(f, part_of(q.0, q.1, q.2)),
        ),
{
    if p.0 is Globals {
        let width = |g: GlobalView| width_of(type_named(g.content));
        assert(part_of(p.0, p.1, p.2)->Globals_0.map_values(width) =~= part_of(
            q.0,
            q.1,
            q.2,
        )->Globals_0.map_values(width));
    }
}

proof fn lemma_facts_by_part(f: Facts, parts: Seq<(PartKind, Seq<u8>, u64)>, read: Seq<PartView>)
    requires
        read.len() == parts.len(),
        forall|i: int|
            0 <= i < parts.len() ==> #[trigger] read[i] == part_of(
                parts[i].0,
                parts[i].1,
                parts[i].2,
            ),
    ensures
        each(f, read, |f: Facts, p: PartView| facts_with(f, p)) == each(
            f,
            parts,
            |f: Facts, p: (PartKind, Seq<u8>, u64)| facts_with(f, part_of(p.0, p.1, p.2)),
        ),
    decreases parts.len(),
{
    if parts.len() > 0 {
        assert(read[0] == part_of(parts[0].0, parts[0].1, parts[0].2));
        if let Ok(next) = facts_with(f, read[0]) {
            lemma_facts_by_part(next, parts.drop_first(), read.drop_first());
        }
    }
}

/// The canonical binary depends only on what a module means: custom sections leave it alone.
/// Modules that hold the same parts apart from those, in the same order, come out as the same
/// bytes, or are both refused.
pub proof fn law_custom_sections_are_dropped(a: Seq<u8>, b: Seq<u8>, config: Config)
    requires
        HEADER@.is_prefix_of(a),
        HEADER@.is_prefix_of(b),
        module_of(a).error is None,
        module_of(b).error is None,
        meant(parts_in(a)) == meant(parts_in(b)),
    ensures
        agree(instrumented(a, config), instrumented(b, config)),
{
    let facts = |f: Facts, p: (PartKind, Seq<u8>, u64)| facts_with(f, part_of(p.0, p.1, p.2));
    assert(is_blind(facts)) by {
        assert forall|s: Facts, p: (PartKind, Seq<u8>, u64), q: (PartKind, Seq<u8>, u64)|
            alike_parts(p, q) implies agree(#[trigger] facts(s, p), #[trigger] facts(s, q)) by {
            lemma_facts_agree(s, p, q);
        }
    }
    lemma_facts_by_part(no_facts(), parts_in(a), module_of(a).parts);
    lemma_facts_by_part(no_facts(), parts_in(b), module_of(b).parts);
    lemma_blind(no_facts(), parts_in(a), parts_in(b), facts);
    if let Ok(f) = surveyed(module_of(a)) {
        let one = |w: Rewriting, p: (PartKind, Seq<u8>, u64)|
            part_rewritten(w, f, config, p.0, p.1, p.2);
        assert(is_blind(one)) by {
            assert forall|s: Rewriting, p: (PartKind, Seq<u8>, u64), q: (PartKind, Seq<u8>, u64)|
                alike_parts(p, q) implies agree(#[trigger] one(s, p), #[trigger] one(s, q)) by {
                lemma_part_agrees(s, f, config, p, q);
            }
        }
        lemma_blind(unwritten(), parts_in(a), parts_in(b), one);
    }
}

proof fn lemma_no_custom(
    w: Rewriting,
    f: Facts,
    config: Config,
    parts: Seq<(PartKind, Seq<u8>, u64)>,
)
    requires
        forall|i: int| 0 <= i < parts.len() ==> (#[trigger] parts[i]).0 != PartKind::Unknown(0),
        forall|i: int| 0 <= i < w.sections.len() ==> (#[trigger] w.sections[i]).0 != 0,
    ensures
        each(
            w,
            parts,
            |w: Rewriting, p: (PartKind, Seq<u8>, u64)|
                part_rewritten(w, f, config, p.0, p.1, p.2),
        ) matches Ok(v) ==> forall|i: int|
            0 <= i < v.sections.len() ==> (#[trigger] v.sections[i]).0 != 0,
    decreases parts.len(),
{
    if parts.len() > 0 {
        if let Ok(next) = part_rewritten(w, f, config, parts[0].0, parts[0].1, parts[0].2) {
            lemma_no_custom(next, f, config, parts.drop_first());
        }
    }
}

/// A module in canonical form has no custom section, which would have the number zero, as that
/// is not the number of a section of unknown kind.
pub proof fn law_canonical_form_has_no_custom_sections(module: Seq<u8>, config: Config)
    requires
        forall|i: int|
            0 <= i < parts_in(module).len() ==> (#[trigger] parts_in(module)[i]).0
                != PartKind::Unknown(0),
    ensures
        sections_written(module, config) matches Ok(sections) ==> (forall|i: int|
            0 <= i < sections.len() ==> (#[trigger] sections[i]).0 != 0),
        instrumented(module, config) matches Ok(out) ==> out == HEADER@ + laid_out(
            sections_written(module, config)->Ok_0,
        ),
{
    if let Ok(f) = surveyed(module_of(module)) {
        lemma_no_custom(unwritten(), f, config, parts_in(module));
    }
}

/// The instructions of the original among what is emitted, by their positions.
pub open spec fn originals(e: Seq<Emitted>) -> Seq<int>
    decreases e.len(),
{
    if e.len() == 0 {
        Seq::empty()
    } else {
        match e.last() {
            Emitted::Original(k) => originals(e.drop_last()).push(k),
            Emitted::Injected(_) => originals(e.drop_last()),
        }
    }
}

proof fn lemma_originals_add(a: Seq<Emitted>, b: Seq<Emitted>)
    ensures
        originals(a + b) == originals(a) + originals(b),
    decreases b.len(),
{
    if b.len() == 0 {
        assert(a + b =~= a);
    } else {
        assert((a + b).drop_last() =~= a + b.drop_last());
        lemma_originals_add(a, b.drop_last());
        assert(originals(a + b) =~= originals(a) + originals(b));
    }
}

proof fn lemma_injected_are_not_originals(list: Seq<Injected>)
    ensures
        originals(injected(list)) == Seq::<int>::empty(),
    decreases list.len(),
{
    if list.len() > 0 {
        assert(injected(list).drop_last() =~= injected(list.drop_last()));
        lemma_injected_are_not_originals(list.drop_last());
    }
}

/// Instrumentation drops no instruction, repeats none and moves none: what was there is there
/// still, in its order.
pub proof fn law_every_instruction_is_kept(plan: Plan, ops: Seq<Operator>, n: nat)
    ensures
        originals(plan.emitted(ops, n)) == Seq::new(n, |i: int| i),
    decreases n,
{
    if n == 0 {
        assert(originals(plan.emitted(ops, n)) =~= Seq::new(n, |i: int| i));
    } else {
        let i = n - 1;
        law_every_instruction_is_kept(plan, ops, i as nat);
        let (a, b, c, d) = (
            injected(plan.charge(ops, i)),
            injected(plan.fix(fixed_before(plan.config, ops[i], plan.globals))),
            seq![Emitted::Original(i)],
            injected(plan.fix(fixed_after(plan.config, ops[i]))),
        );
        lemma_injected_are_not_originals(plan.charge(ops, i));
        lemma_injected_are_not_originals(
            plan.fix(fixed_before(plan.config, ops[i], plan.globals)),
        );
        lemma_injected_are_not_originals(plan.fix(fixed_after(plan.config, ops[i])));
        lemma_originals_add(a + b + c, d);
        lemma_originals_add(a + b, c);
        lemma_originals_add(a, b);
        assert(c.drop_last() =~= Seq::<Emitted>::empty());
        assert(c.last() == Emitted::Original(i));
        assert(originals(c.drop_last()) =~= Seq::<int>::empty());
        assert(originals(c) =~= seq![i]);
        lemma_originals_add(plan.emitted(ops, i as nat), plan.emitted_for(ops, i));
        assert(originals(plan.emitted(ops, n)) =~= Seq::new(n, |i: int| i));
    }
}

/// With neither metering nor canonicalization, nothing is added.
pub proof fn law_nothing_is_added_unasked(plan: Plan, ops: Seq<Operator>, n: nat)
    requires
        !plan.config.meter_fuel,
        plan.config.canonicalize is Never,
    ensures
        plan.emitted(ops, n) == only_originals(n),
    decreases n,
{
    if n > 0 {
        law_nothing_is_added_unasked(plan, ops, (n - 1) as nat);
        assert(plan.emitted_for(ops, n - 1) =~= seq![Emitted::Original(n - 1)]);
    }
    assert(plan.emitted(ops, n) =~= only_originals(n));
}

/// What is charged in all, from an instruction on.
pub open spec fn charged_from(config: Config, ops: Seq<Operator>, i: int) -> nat
    decreases ops.len() - i,
{
    if i >= ops.len() {
        0
    } else {
        charged_at(config, ops, i) as nat + charged_from(config, ops, i + 1)
    }
}

proof fn lemma_charged_from(config: Config, ops: Seq<Operator>, i: int)
    requires
        config.meter_fuel,
        ops.len() <= u32::MAX,
        0 <= i <= ops.len(),
    ensures
        run_length(ops, i) <= ops.len() - i,
        charged_from(config, ops, i) == ops.len() - i - (if starts_run(ops, i) {
            0
        } else {
            run_length(ops, i)
        }),
    decreases ops.len() - i,
{
    if i < ops.len() {
        lemma_charged_from(config, ops, i + 1);
    }
}

/// The charges of a body come to the number of its instructions: each is paid for exactly once.
///
/// A body of more instructions than a charge can count is left out.
pub proof fn law_charges_add_up(config: Config, ops: Seq<Operator>)
    requires
        config.meter_fuel,
        ops.len() <= u32::MAX,
    ensures
        charged_from(config, ops, 0) == ops.len(),
{
    lemma_charged_from(config, ops, 0);
}

/// Is instruction `k` in the run that starts at `i`, with nothing before it there that transfers
/// control?
pub open spec fn in_run(ops: Seq<Operator>, i: int, k: int) -> bool {
    &&& 0 <= i <= k < i + run_length(ops, i)
    &&& starts_run(ops, i)
    &&& forall|j: int| i <= j < k ==> !is_boundary(#[trigger] ops[j])
}

proof fn lemma_run_reaches(ops: Seq<Operator>, i: int, k: int)
    requires
        0 <= i <= k < ops.len(),
        forall|j: int| i <= j < k ==> !is_boundary(#[trigger] ops[j]),
    ensures
        k < i + run_length(ops, i),
    decreases k - i,
{
    if i < k {
        lemma_run_reaches(ops, i + 1, k);
    }
}

/// Every instruction is paid for before it runs: it lies in a run that control enters only
/// where the run is charged.
pub proof fn law_every_instruction_is_paid_for_first(ops: Seq<Operator>, k: int) -> (i: int)
    requires
        0 <= k < ops.len(),
    ensures
        in_run(ops, i, k),
    decreases k,
{
    if starts_run(ops, k) {
        lemma_run_reaches(ops, k, k);
        k
    } else {
        let i = law_every_instruction_is_paid_for_first(ops, k - 1);
        lemma_run_reaches(ops, i, k);
        i
    }
}

/// Where an instruction of the original comes to stand.
pub open spec fn place(plan: Plan, ops: Seq<Operator>, i: int) -> int {
    (plan.emitted(ops, i as nat).len() + plan.charge(ops, i).len() + plan.fix(
        fixed_before(plan.config, ops[i], plan.globals),
    ).len()) as int
}

/// Around each instruction stand the charge for its run, what fixes its operand, and what fixes
/// its result, with nothing in between.
pub proof fn law_each_instruction_has_its_guards(plan: Plan, ops: Seq<Operator>, i: int, n: nat)
    requires
        0 <= i < n,
    ensures
        ({
            let (e, at) = (plan.emitted(ops, n), place(plan, ops, i));
            let charge = plan.charge(ops, i);
            let before = plan.fix(fixed_before(plan.config, ops[i], plan.globals));
            let after = plan.fix(fixed_after(plan.config, ops[i]));
            &&& charge.len() + before.len() <= at <= at + after.len() < e.len()
            &&& e[at] == Emitted::Original(i)
            &&& e.subrange(at - before.len() - charge.len(), at - before.len()) == injected(charge)
            &&& e.subrange(at - before.len(), at) == injected(before)
            &&& e.subrange(at + 1, at + 1 + after.len()) == injected(after)
        }),
    decreases n,
{
    let (e, at) = (plan.emitted(ops, n), place(plan, ops, i));
    let charge = plan.charge(ops, i);
    let before = plan.fix(fixed_before(plan.config, ops[i], plan.globals));
    let after = plan.fix(fixed_after(plan.config, ops[i]));
    if i < n - 1 {
        law_each_instruction_has_its_guards(plan, ops, i, (n - 1) as nat);
        let shorter = plan.emitted(ops, (n - 1) as nat);
        assert(e == shorter + plan.emitted_for(ops, n - 1));
        assert(e.subrange(at - before.len() - charge.len(), at - before.len())
            =~= shorter.subrange(at - before.len() - charge.len(), at - before.len()));
        assert(e.subrange(at - before.len(), at) =~= shorter.subrange(at - before.len(), at));
        assert(e.subrange(at + 1, at + 1 + after.len()) =~= shorter.subrange(
            at + 1,
            at + 1 + after.len(),
        ));
    } else {
        assert(e == plan.emitted(ops, i as nat) + plan.emitted_for(ops, i));
        assert(e.subrange(at - before.len() - charge.len(), at - before.len()) =~= injected(
            charge,
        ));
        assert(e.subrange(at - before.len(), at) =~= injected(before));
        assert(e.subrange(at + 1, at + 1 + after.len()) =~= injected(after));
    }
}

/// The value that the canonicalization sequence leaves in place of another: the sequence
/// compares the value with itself, and replaces it if they are unequal.
pub open spec fn fixed(width: FloatWidth, v: Value) -> Value {
    match width {
        FloatWidth::F32 => if binary(Operator::F32Ne, v, v) == Ok::<_, TrapView>(Value::I32(1)) {
            Value::F32(CANONICAL_NAN_F32)
        } else {
            v
        },
        FloatWidth::F64 => if binary(Operator::F64Ne, v, v) == Ok::<_, TrapView>(Value::I32(1)) {
            Value::F64(CANONICAL_NAN_F64)
        } else {
            v
        },
    }
}

/// Is this a number, or the one NaN that is used?
pub open spec fn is_canonical_value(v: Value) -> bool {
    match v {
        Value::F32(bits) => float::is_canonical(Width::Single, bits as u64),
        Value::F64(bits) => float::is_canonical(Width::Double, bits),
        _ => true,
    }
}

/// Canonicalization makes every NaN the canonical one and changes nothing else, so that it is
/// not seen in any result that is a number.
pub proof fn law_fixing_changes_only_nans(width: FloatWidth, v: Value)
    requires
        match width {
            FloatWidth::F32 => v is F32,
            FloatWidth::F64 => v is F64,
        },
    ensures
        is_canonical_value(fixed(width, v)),
        is_canonical_value(v) ==> fixed(width, v) == v,
{
    match v {
        Value::F32(bits) => float::law_only_nan_is_unequal_to_itself(Width::Single, bits as u64),
        Value::F64(bits) => float::law_only_nan_is_unequal_to_itself(Width::Double, bits),
        _ => {},
    }
}

/// Where an engine may choose the bits of a NaN, the interpreter leaves the canonical one.
pub proof fn law_interpreted_nans_are_canonical(op: Operator, stack: Seq<Value>)
    requires
        minted(op) is Some,
        applied(op, stack).1 is Ok,
    ensures
        is_canonical_value(applied(op, stack).0.last()),
{
    let n = stack.len();
    if let Shape::Unary(kind) = shape(op) {
        match stack[n - 1] {
            Value::F32(a) => {
                float::law_arithmetic_is_canonical(Width::Single, a as u64, a as u64);
                float::law_conversions_are_canonical(Width::Single, Rounding::Up, a as u64);
                float::law_conversions_are_canonical(Width::Single, Rounding::Down, a as u64);
                float::law_conversions_are_canonical(Width::Single, Rounding::Zero, a as u64);
                float::law_conversions_are_canonical(Width::Single, Rounding::Even, a as u64);
            },
            Value::F64(a) => {
                float::law_arithmetic_is_canonical(Width::Double, a, a);
                float::law_conversions_are_canonical(Width::Double, Rounding::Up, a);
                float::law_conversions_are_canonical(Width::Double, Rounding::Down, a);
                float::law_conversions_are_canonical(Width::Double, Rounding::Zero, a);
                float::law_conversions_are_canonical(Width::Double, Rounding::Even, a);
            },
            _ => {},
        }
    }
    if let Shape::Binary(kind) = shape(op) {
        assert(stack.drop_last().last() == stack[n - 2]);
        match (stack[n - 2], stack[n - 1]) {
            (Value::F32(a), Value::F32(b)) => float::law_arithmetic_is_canonical(
                Width::Single,
                a as u64,
                b as u64,
            ),
            (Value::F64(a), Value::F64(b)) => float::law_arithmetic_is_canonical(
                Width::Double,
                a,
                b,
            ),
            _ => {},
        }
    }
}

/// Making room for `charge` keeps functions apart and leaves its index to it alone.
///
/// The largest index is left out: it has nowhere to go.
pub proof fn law_functions_stay_apart(a: u32, b: u32, imported: u32)
    requires
        a < u32::MAX,
        b < u32::MAX,
    ensures
        shifted(a, imported) == shifted(b, imported) ==> a == b,
        shifted(a, imported) != imported,
        a < imported ==> shifted(a, imported) == a,
        a >= imported ==> shifted(a, imported) == a + 1,
{
}

/// An instruction whose NaNs an engine may choose is one that computes. One that leaves a NaN and
/// is not among them takes its bits from its operand, or is a constant: there is nothing to choose.
pub proof fn law_unminted_nans_are_copied(op: Operator, rest: Seq<Value>, a: Value, b: Value)
    requires
        minted(op) is None,
    ensures
        applied(op, rest.push(a)).1 == Ok::<bool, TrapView>(true) && shape(op) is Unary
            && is_nan_value(applied(op, rest.push(a)).0.last()) ==> same_but_sign(
            a,
            applied(op, rest.push(a)).0.last(),
        ),
        applied(op, rest.push(a).push(b)).1 == Ok::<bool, TrapView>(true) && shape(op) is Binary
            && is_nan_value(applied(op, rest.push(a).push(b)).0.last()) ==> same_but_sign(
            a,
            applied(op, rest.push(a).push(b)).0.last(),
        ),
{
    assert(rest.push(a).drop_last() =~= rest);
    assert(rest.push(a).push(b).drop_last() =~= rest.push(a));
    lemma_canonical_nans();
    match a {
        Value::I32(x) => {
            crate::engine::integers::lemma_unsigned_32(x);
            if op is F32ConvertI32S || op is F64ConvertI32S || op is F32ConvertI32U || op
                is F64ConvertI32U {
                lemma_integers_are_real(x as int);
                lemma_integers_are_real((x as u32) as int);
            }
        },
        Value::I64(x) => {
            crate::engine::integers::lemma_unsigned_64(x);
            if op is F32ConvertI64S || op is F64ConvertI64S || op is F32ConvertI64U || op
                is F64ConvertI64U {
                lemma_integers_are_real(x as int);
                lemma_integers_are_real((x as u64) as int);
            }
        },
        _ => {},
    }
}

proof fn lemma_integers_are_real(n: int)
    ensures
        !float::is_nan(Width::Single, float::integer_bits(Width::Single, n)),
        float::integer_bits(Width::Single, n) <= u32::MAX,
        !float::is_nan(Width::Double, float::integer_bits(Width::Double, n)),
{
    let m = (if n < 0 {
        -n
    } else {
        n
    }) as nat;
    let x = float::Real::whole(m * float::one(Width::Single));
    let y = float::Real::whole(m * float::one(Width::Double));
    float::law_there_is_one_nearest(Width::Single, x, 0);
    float::law_there_is_one_nearest(Width::Double, y, 0);
}

/// Are two values of the same bits, but perhaps for the sign of a float?
pub open spec fn same_but_sign(a: Value, b: Value) -> bool {
    match (a, b) {
        (Value::F32(x), Value::F32(y)) => x as nat % 0x8000_0000 == y as nat % 0x8000_0000,
        (Value::F64(x), Value::F64(y)) => x as nat % 0x8000_0000_0000_0000 == y as nat
            % 0x8000_0000_0000_0000,
        (Value::I32(x), Value::F32(y)) => x as u32 == y,
        (Value::I64(x), Value::F64(y)) => x as u64 == y,
        _ => false,
    }
}

/// A NaN is made canonical before a float is stored, reinterpreted, used for its sign or kept in a
/// global, unless canonicalization is off; and behind an instruction whose NaNs an engine may
/// choose only where it is asked for everywhere.
pub proof fn law_where_nans_are_made_canonical(
    config: Config,
    op: Operator,
    globals: Seq<Option<FloatWidth>>,
)
    ensures
        config.canonicalize == Canonicalization::Never ==> fixed_before(config, op, globals) is None
            && fixed_after(config, op) is None,
        config.canonicalize == Canonicalization::AtEscapes ==> fixed_after(config, op) is None,
        config.canonicalize == Canonicalization::Everywhere ==> fixed_after(config, op) == minted(
            op,
        ),
        config.canonicalize != Canonicalization::Never ==> (fixed_before(config, op, globals)
            == Some(FloatWidth::F32) <==> op is F32Store || op is I32ReinterpretF32 || op
            is F32Copysign || (op matches Operator::GlobalSet { global_index } && global_index
            < globals.len() && globals[global_index as int] == Some(FloatWidth::F32))),
        config.canonicalize != Canonicalization::Never ==> (fixed_before(config, op, globals)
            == Some(FloatWidth::F64) <==> op is F64Store || op is I64ReinterpretF64 || op
            is F64Copysign || (op matches Operator::GlobalSet { global_index } && global_index
            < globals.len() && globals[global_index as int] == Some(FloatWidth::F64))),
{
}

/// Not a number?
pub open spec fn is_nan_value(v: Value) -> bool {
    match v {
        Value::F32(bits) => float::is_nan(Width::Single, bits as u64),
        Value::F64(bits) => float::is_nan(Width::Double, bits),
        _ => false,
    }
}

/// Are two values the same, or NaNs of one type?
pub open spec fn alike(a: Value, b: Value) -> bool {
    a == b || (is_nan_value(a) && is_nan_value(b) && kind_of(a) == kind_of(b))
}

/// Do two evaluations end alike: in the same trap, or in values that are alike?
pub open spec fn end_alike(a: Result<Value, TrapView>, b: Result<Value, TrapView>) -> bool {
    match (a, b) {
        (Ok(a), Ok(b)) => alike(a, b),
        (Err(a), Err(b)) => a == b,
        _ => false,
    }
}

/// A NaN's payload cannot change an answer unless the instruction is one of those it can escape
/// through: from operands that are alike, every other numeric instruction gives results that are
/// alike.
pub proof fn law_payloads_are_not_seen(op: Operator, a: Value, b: Value)
    requires
        shape(op) == Shape::Unary(kind_of(a)),
        escaping(op, Seq::empty()) is None,
        alike(a, b),
    ensures
        end_alike(unary(op, a), unary(op, b)),
{
    lemma_canonical_nans();
}

/// The same of instructions that take two operands. Of `copysign` it holds where the operand
/// that gives its sign is the same, which canonicalizing that operand brings about.
pub proof fn law_payloads_of_operands_are_not_seen(
    op: Operator,
    a: Value,
    b: Value,
    c: Value,
    d: Value,
)
    requires
        shape(op) == Shape::Binary(kind_of(a)),
        kind_of(b) == kind_of(a),
        alike(a, c),
        alike(b, d),
        escaping(op, Seq::empty()) is Some ==> b == d,
    ensures
        end_alike(binary(op, a, b), binary(op, c, d)),
{
    lemma_canonical_nans();
}

proof fn lemma_canonical_nans()
    ensures
        float::is_nan(Width::Single, float::canonical_nan(Width::Single)),
        float::is_nan(Width::Double, float::canonical_nan(Width::Double)),
{
}

} // verus!
